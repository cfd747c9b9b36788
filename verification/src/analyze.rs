use vstd::prelude::*;
use vstd::string::StringSliceAdditionalSpecFns;
use vstd::utf8::encode_utf8;
use crate::analyze_header::{analyze_header, copy_of, lemma_choice_is_one, solutions_of};
use crate::block::{is_token_block, Block};
use crate::config::{Config, KnownType};
use crate::domain::Domain;
use crate::analyze_header::is_made_up;
use crate::faithful::{lemma_candidates_faithful, plain};
use crate::find_header_issues::{
    holds, issues_of, lemma_layout_tokens, lemma_taken, lemma_well_anchored_among_more,
    plain_layout, seat, tokens_before, tokens_in, vacant, well_anchored,
};
use crate::find_issues::header_issues;
use crate::paper::{map_of, roomy, sketch_of, slot_at, Paper};
use crate::position::{
    ascending, fits, lemma_layout_fits, lemma_token_id, numbered, placed, project, tokens_among,
};
use crate::report::Report;
use crate::weak_commit::parse_header::{is_token, too_long, ParseError, MAX_TOKENS, STRIDE};
use crate::weak_commit::{first_row, header_of, WeakCommit};

verus! {

/// The layout of the header of a commit message whose bytes are `text`: the
/// tokens of its first row laid over the slots of the grammar in the way
/// that costs least, any word being taken for the type.
pub open spec fn layout_of(text: Seq<u8>) -> Seq<Block> {
    plain_layout(header_of(text))
}

/// Whether `report` is the report on a commit message whose bytes are `text`.
///
/// The report holds the issues of the header, which name no token that the
/// header does not have; the layout of the header, each block with its place
/// as its id, so that the ids go up from block to block; and the map of that
/// layout.
pub open spec fn analyzes(text: Seq<u8>, report: Report) -> bool {
    &&& report.header@ == header_issues(text)
    &&& well_anchored(report.header@, tokens_in(header_of(text)))
    &&& report.blocks@ == placed(layout_of(text))
    &&& ascending(report.blocks@)
    &&& report.paper == map_of(report.blocks@)
}

/// In the layout of a numbered header, each with its place as its id, every
/// slot that was found has an id that leaves room for a stride behind it.
proof fn lemma_sketch_ready(tokens: Seq<Block>, layout: Seq<Block>, slot: Domain)
    requires
        numbered(tokens),
        crate::faithful::faithful(tokens, layout),
        fits(layout),
    ensures
        !vacant(placed(layout), slot) ==> roomy(crate::paper::pencil_in(placed(layout), slot)),
{
    let blocks = placed(layout);
    if !vacant(blocks, slot) {
        lemma_taken(blocks, slot);
        let at = seat(blocks, slot);
        assert(holds(blocks[at], slot));
        assert(is_token_block(layout[at]));
        lemma_token_id(tokens, layout, at);
        assert(tokens_among(layout, at) * STRIDE + STRIDE <= tokens.len() * STRIDE)
            by (nonlinear_arith)
            requires
                tokens_among(layout, at) < tokens.len(),
        ;
    }
}

/// Looks a commit message over and reports on its header.
///
/// A message whose first row has more than `MAX_TOKENS` tokens is refused.
pub fn analyze(commit: &str) -> (r: Result<Report, ParseError>)
    ensures
        match r {
            Ok(report) => !too_long(first_row(commit.spec_bytes())) && analyzes(
                commit.spec_bytes(),
                report,
            ),
            Err(e) => too_long(first_row(commit.spec_bytes())) && e == ParseError::TooLong,
        },
{
    let weak = match WeakCommit::parse(commit) {
        Ok(weak) => weak,
        Err(e) => {
            return Err(e);
        },
    };
    let config = Config { known_type: KnownType::AnyFirstSeq };
    let nothing = "";
    proof {
        reveal_strlit("");
        assert(nothing@ =~= Seq::<char>::empty());
        assert(encode_utf8(nothing@) =~= Seq::<u8>::empty());
    }
    let ghost tokens = weak.header@;
    let solution = analyze_header(nothing, &config, copy_of(&weak.header));
    let header = issues_of(&solution);
    proof {
        lemma_layout_tokens(KnownType::AnyFirstSeq, Seq::empty(), tokens);
        lemma_well_anchored_among_more(
            header@,
            tokens_before(solution@, solution@.len() as int),
            tokens_in(tokens),
        );
        let all = solutions_of(KnownType::AnyFirstSeq, Seq::empty(), tokens);
        if all.len() > 0 {
            let k = lemma_choice_is_one(all);
            assert(plain(tokens)) by {
                assert forall|j: int| 1 <= j < tokens.len() implies !is_made_up(
                    #[trigger] tokens[j],
                ) by {
                    assert(is_token(first_row(commit.spec_bytes()), tokens[j], j));
                }
            }
            lemma_candidates_faithful(KnownType::AnyFirstSeq, Seq::empty(), tokens, k);
            assert(tokens.len() * STRIDE <= usize::MAX) by (nonlinear_arith)
                requires
                    tokens.len() <= MAX_TOKENS + 1,
                    MAX_TOKENS == usize::MAX / STRIDE - 1,
                    STRIDE == 1000,
            ;
            assert(numbered(tokens)) by {
                assert forall|n: int| 0 <= n < tokens.len() implies (#[trigger] tokens[n]).id
                    == Some((n * STRIDE) as usize) by {}
            }
            lemma_layout_fits(tokens, solution@);
            lemma_sketch_ready(tokens, solution@, Domain::Type);
            lemma_sketch_ready(tokens, solution@, Domain::Colon);
            lemma_sketch_ready(tokens, solution@, Domain::Space);
            lemma_sketch_ready(tokens, solution@, Domain::Desc);
        }
        assert(fits(solution@));
    }
    let blocks = match project(&solution) {
        Some(placed) => placed,
        None => solution,
    };
    let mut paper = Paper::sketch(&blocks);
    proof {
        let sketch = sketch_of(blocks@);
        assert forall|i: int| 0 <= i < 5 implies {
            let pencil = #[trigger] sketch.pencils()[i];
            !pencil.missing ==> roomy(pencil)
        } by {
            if i >= 1 {
                assert(sketch.pencils()[i] == crate::paper::pencil_in(blocks@, slot_at(i)));
            }
        }
    }
    paper.build_map();
    Ok(Report { header, blocks, paper })
}

} // verus!
