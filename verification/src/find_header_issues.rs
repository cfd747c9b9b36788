use vstd::prelude::*;
use vstd::slice::slice_to_vec;
use vstd::string::StringSliceAdditionalSpecFns;
use vstd::utf8::encode_utf8;
use crate::additive::Additive;
use crate::analyze_header::{analyze_header, choice, lemma_choice_is_one, solutions_of};
use crate::faithful::lemma_candidates_carry;
use crate::at::{At, AtTarget};
use crate::block::{is_token_block, Block, Status, Val};
use crate::config::{Config, KnownType};
use crate::domain::Domain;
use crate::issue::{Issue, IssueData, IssueSubject, Misplaced, Missing};
use crate::weak_commit::parse_header::{is_token, tokenizes, STRIDE};

verus! {

/// Where the token of a slot was found: the number of the token, counted
/// from 0 over the tokens of the header, and whether it was found away from
/// the place where the slot was expected.
#[derive(Debug, PartialEq, Eq, Clone, Copy, Structural)]
pub struct Spot {
    pub token: usize,
    pub moved: bool,
}

/// The issues reported so far, the place where the next slot is expected,
/// and the token of the last slot that was found.
pub struct Trail {
    pub issues: Seq<Issue>,
    pub anchor: At,
    pub last: Option<usize>,
}

/// How many of `blocks` stand for tokens, the root aside, before the block
/// `upto`.
pub open spec fn tokens_before(blocks: Seq<Block>, upto: int) -> nat
    decreases upto,
{
    if upto <= 1 {
        0
    } else {
        tokens_before(blocks, upto - 1) + if is_token_block(blocks[upto - 1]) {
            1nat
        } else {
            0nat
        }
    }
}

/// Whether the block `at` of `blocks` stands for the token that issues name
/// as `Token(token)`: the tokens of a header are counted from 0 in the order
/// of the text, the root and the made-up blocks left aside.
pub open spec fn is_token_at(blocks: Seq<Block>, token: nat, at: int) -> bool {
    &&& 1 <= at < blocks.len()
    &&& is_token_block(blocks[at])
    &&& tokens_before(blocks, at) == token
}

/// The id that the tokenizer gives the token that issues name as
/// `Token(token)`: the root has the id 0, and each token the id of the one
/// before it and a stride more.
pub open spec fn id_of_token(token: nat) -> nat {
    (token + 1) * STRIDE as nat
}

/// The number by which issues name the token that carries the id `id`, for
/// an id that the tokenizer gives a token.
pub open spec fn token_of_id(id: nat) -> nat {
    (id / STRIDE as nat - 1) as nat
}

/// A token has one block only.
pub proof fn lemma_one_token_block(blocks: Seq<Block>, token: nat, at: int, other: int)
    requires
        is_token_at(blocks, token, at),
        is_token_at(blocks, token, other),
    ensures
        at == other,
{
    if at < other {
        assert(tokens_before(blocks, at + 1) == tokens_before(blocks, at) + 1);
        lemma_tokens_before_grows(blocks, at + 1, other);
    } else if other < at {
        assert(tokens_before(blocks, other + 1) == tokens_before(blocks, other) + 1);
        lemma_tokens_before_grows(blocks, other + 1, at);
    }
}

/// The number of a token and the id of its block tell each other.
pub proof fn lemma_token_and_id(token: nat)
    ensures
        token_of_id(id_of_token(token)) == token,
        id_of_token(token) % (STRIDE as nat) == 0,
        id_of_token(token) >= STRIDE,
{
    assert(((token + 1) * 1000) / 1000 == token + 1) by (nonlinear_arith);
    assert(((token + 1) * 1000) % 1000 == 0) by (nonlinear_arith);
    assert((token + 1) * 1000 >= 1000) by (nonlinear_arith);
}

/// Whether `block` is a token that fills `slot`: it is settled there or was
/// found for it elsewhere. A line feed is no description.
pub open spec fn holds(block: Block, slot: Domain) -> bool {
    &&& block.domain == slot
    &&& block.status == Status::Settled || block.status is Ref
    &&& slot == Domain::Desc ==> block.val != Val::EOL
}

/// Whether the block `at` is the first of `blocks`, the root aside, that
/// fills `slot`.
pub open spec fn seats(blocks: Seq<Block>, slot: Domain, at: int) -> bool {
    &&& 1 <= at < blocks.len()
    &&& holds(blocks[at], slot)
    &&& forall|j: int| 1 <= j < at ==> !holds(#[trigger] blocks[j], slot)
}

/// Whether no block fills `slot`.
pub open spec fn vacant(blocks: Seq<Block>, slot: Domain) -> bool {
    forall|j: int| 1 <= j < blocks.len() ==> !holds(#[trigger] blocks[j], slot)
}

/// The first of `blocks`, the root aside, that fills `slot`, where one does.
pub open spec fn seat(blocks: Seq<Block>, slot: Domain) -> int {
    choose|at: int| seats(blocks, slot, at)
}

/// Where `slot` was found in `blocks`, if it was: at the first block that
/// fills it.
pub open spec fn spot_in(blocks: Seq<Block>, slot: Domain) -> Option<Spot> {
    if vacant(blocks, slot) {
        None
    } else {
        Some(
            Spot {
                token: tokens_before(blocks, seat(blocks, slot)) as usize,
                moved: blocks[seat(blocks, slot)].status is Ref,
            },
        )
    }
}

/// A slot has one first block only.
pub proof fn lemma_seat(blocks: Seq<Block>, slot: Domain, at: int)
    requires
        seats(blocks, slot, at),
    ensures
        seat(blocks, slot) == at,
        !vacant(blocks, slot),
{
    let chosen = seat(blocks, slot);
    assert(seats(blocks, slot, chosen));
    assert(holds(blocks[at], slot) && holds(blocks[chosen], slot));
}

/// A slot that some block fills has a first block that fills it.
pub proof fn lemma_first_seat(blocks: Seq<Block>, slot: Domain, upto: int) -> (at: int)
    requires
        1 <= upto < blocks.len(),
        holds(blocks[upto], slot),
    ensures
        seats(blocks, slot, at),
        at <= upto,
    decreases upto,
{
    if exists|k: int| 1 <= k < upto && holds(#[trigger] blocks[k], slot) {
        let k = choose|k: int| 1 <= k < upto && holds(#[trigger] blocks[k], slot);
        lemma_first_seat(blocks, slot, k)
    } else {
        upto
    }
}

/// A slot that is not vacant has a seat.
pub proof fn lemma_taken(blocks: Seq<Block>, slot: Domain)
    requires
        !vacant(blocks, slot),
    ensures
        seats(blocks, slot, seat(blocks, slot)),
{
    let some = choose|j: int| 1 <= j < blocks.len() && holds(#[trigger] blocks[j], slot);
    let at = lemma_first_seat(blocks, slot, some);
    lemma_seat(blocks, slot, at);
}

/// The place of the token `token`: exactly where the token is.
pub open spec fn found_anchor(token: usize) -> At {
    At::spec_exactly(AtTarget::Token(token))
}

impl Trail {
    /// Before the first slot: nothing reported, and the type is expected at
    /// the start of the header.
    pub open spec fn begin() -> Trail {
        Trail { issues: Seq::empty(), anchor: At::spec_start(), last: None }
    }

    /// The trail behind the slot `subject`, found at `spot` or not at all.
    ///
    /// A slot that was not found is reported as missing; the next slot is
    /// then expected behind that issue. A slot that was found is reported as
    /// misplaced if its token was found away from its place, or stands
    /// before the token of an earlier slot; either way the next slot is
    /// expected behind its token. An issue says that its subject is expected
    /// where the trail has arrived.
    pub open spec fn judge(self, subject: IssueSubject, spot: Option<Spot>) -> Trail {
        let id = self.issues.len() as usize;
        match spot {
            None => Trail {
                issues: self.issues.push(
                    Issue {
                        id,
                        subject,
                        data: IssueData::Missing(Missing { expected_at: self.anchor }),
                    },
                ),
                anchor: At::spec_after(AtTarget::Issue(id)),
                last: self.last,
            },
            Some(spot) => Trail {
                issues: if spot.moved || (self.last matches Some(last) && spot.token < last) {
                    self.issues.push(
                        Issue {
                            id,
                            subject,
                            data: IssueData::Misplaced(
                                Misplaced {
                                    expected_at: self.anchor,
                                    found_at: found_anchor(spot.token),
                                },
                            ),
                        },
                    )
                } else {
                    self.issues
                },
                anchor: At::spec_after(AtTarget::Token(spot.token)),
                last: Some(spot.token),
            },
        }
    }
}

/// The one issue of a header that has none of its slots.
pub open spec fn no_header() -> Issue {
    Issue {
        id: 0,
        subject: IssueSubject::Header,
        data: IssueData::Missing(Missing { expected_at: At::spec_start() }),
    }
}

/// Whether a header has no token at all, or line feeds only.
pub open spec fn bare(blocks: Seq<Block>) -> bool {
    forall|j: int|
        1 <= j < blocks.len() && is_token_block(#[trigger] blocks[j]) ==> blocks[j].val == Val::EOL
}

/// The issues of a header whose type, colon, space and description were
/// found at the given spots, or not at all: the slots are judged in the
/// order of the grammar. A header that is bare is reported as missing
/// altogether, and nothing else is said about it.
pub open spec fn report(
    bare: bool,
    kind: Option<Spot>,
    colon: Option<Spot>,
    space: Option<Spot>,
    desc: Option<Spot>,
) -> Seq<Issue> {
    if bare {
        seq![no_header()]
    } else {
        Trail::begin().judge(IssueSubject::Type, kind).judge(IssueSubject::Colon, colon).judge(
            IssueSubject::Space,
            space,
        ).judge(IssueSubject::Desc, desc).issues
    }
}

/// The issues of the header laid out as `blocks`.
pub open spec fn issues_in(blocks: Seq<Block>) -> Seq<Issue> {
    report(
        bare(blocks),
        spot_in(blocks, Domain::Type),
        spot_in(blocks, Domain::Colon),
        spot_in(blocks, Domain::Space),
        spot_in(blocks, Domain::Desc),
    )
}

/// Whether a place named in the issue `id` can be found: it is told by the
/// start of the header, by one of its `tokens` tokens, or by an issue
/// reported before.
pub open spec fn anchored(at: At, id: int, tokens: nat) -> bool {
    match at.target {
        AtTarget::Root => true,
        AtTarget::Token(token) => token < tokens,
        AtTarget::Issue(issue) => issue < id,
    }
}

/// Whether the issue that is the `k`th to be reported has the id `k` and
/// names only places that can be found.
pub open spec fn well_placed(issue: Issue, k: int, tokens: nat) -> bool {
    &&& issue.id == k
    &&& match issue.data {
        IssueData::Missing(missing) => anchored(missing.expected_at, k, tokens),
        IssueData::Misplaced(misplaced) => anchored(misplaced.expected_at, k, tokens) && anchored(
            misplaced.found_at,
            k,
            tokens,
        ),
    }
}

/// Whether every one of `issues`, reported on a header of `tokens` tokens,
/// is well placed.
pub open spec fn well_anchored(issues: Seq<Issue>, tokens: nat) -> bool {
    forall|k: int| 0 <= k < issues.len() ==> well_placed(#[trigger] issues[k], k, tokens)
}

/// Whether `spot`, if it names a token, names one of `tokens` tokens.
pub open spec fn within(spot: Option<Spot>, tokens: nat) -> bool {
    spot matches Some(spot) ==> spot.token < tokens
}

/// Whether a trail is one that well-placed issues can follow.
pub open spec fn on_track(trail: Trail, tokens: nat) -> bool {
    &&& trail.issues.len() <= 4
    &&& well_anchored(trail.issues, tokens)
    &&& anchored(trail.anchor, trail.issues.len() as int, tokens)
}

/// A trail stays on track when one more slot is judged.
proof fn lemma_judge_on_track(trail: Trail, subject: IssueSubject, spot: Option<Spot>, tokens: nat)
    requires
        on_track(trail, tokens),
        trail.issues.len() < 4,
        within(spot, tokens),
    ensures
        on_track(trail.judge(subject, spot), tokens),
        trail.judge(subject, spot).issues.len() <= trail.issues.len() + 1,
{
    let next = trail.judge(subject, spot);
    assert forall|k: int| 0 <= k < next.issues.len() implies well_placed(
        #[trigger] next.issues[k],
        k,
        tokens,
    ) by {
        if k < trail.issues.len() {
            assert(next.issues[k] == trail.issues[k]);
        }
    }
}

/// Every issue of a report has as its id its place in the report, and names
/// only places that can be found: the start of the header, a token of the
/// header, or an issue reported before it.
pub proof fn lemma_report_anchored(
    bare: bool,
    kind: Option<Spot>,
    colon: Option<Spot>,
    space: Option<Spot>,
    desc: Option<Spot>,
    tokens: nat,
)
    requires
        within(kind, tokens),
        within(colon, tokens),
        within(space, tokens),
        within(desc, tokens),
    ensures
        well_anchored(report(bare, kind, colon, space, desc), tokens),
{
    if bare {
    } else {
        let t0 = Trail::begin();
        let t1 = t0.judge(IssueSubject::Type, kind);
        let t2 = t1.judge(IssueSubject::Colon, colon);
        let t3 = t2.judge(IssueSubject::Space, space);
        lemma_judge_on_track(t0, IssueSubject::Type, kind, tokens);
        lemma_judge_on_track(t1, IssueSubject::Colon, colon, tokens);
        lemma_judge_on_track(t2, IssueSubject::Space, space, tokens);
        lemma_judge_on_track(t3, IssueSubject::Desc, desc, tokens);
    }
}

/// The number of tokens before a block does not go down from block to block.
pub proof fn lemma_tokens_before_grows(blocks: Seq<Block>, from: int, to: int)
    requires
        from <= to,
    ensures
        tokens_before(blocks, from) <= tokens_before(blocks, to),
    decreases to - from,
{
    if from < to {
        lemma_tokens_before_grows(blocks, from, to - 1);
    }
}

/// A slot that was found in `blocks` was found at one of their tokens.
pub proof fn lemma_spot_within(blocks: Seq<Block>, slot: Domain)
    requires
        blocks.len() <= usize::MAX,
    ensures
        within(spot_in(blocks, slot), tokens_before(blocks, blocks.len() as int)),
{
    if !vacant(blocks, slot) {
        lemma_taken(blocks, slot);
        let at = seat(blocks, slot);
        assert(holds(blocks[at], slot));
        assert(tokens_before(blocks, at + 1) == tokens_before(blocks, at) + 1);
        lemma_tokens_before_grows(blocks, at + 1, blocks.len() as int);
        lemma_tokens_before_bound(blocks, blocks.len() as int);
    }
}

/// There are fewer tokens before a block than blocks.
pub proof fn lemma_tokens_before_bound(blocks: Seq<Block>, upto: int)
    requires
        1 <= upto,
    ensures
        tokens_before(blocks, upto) < upto,
    decreases upto,
{
    if upto > 1 {
        lemma_tokens_before_bound(blocks, upto - 1);
    }
}

/// Every issue of a header has as its id its place among the issues, and
/// names only places that can be found: the start of the header, one of the
/// tokens among `blocks`, or an issue reported before it.
pub proof fn lemma_issues_anchored(blocks: Seq<Block>)
    requires
        blocks.len() <= usize::MAX,
    ensures
        well_anchored(issues_in(blocks), tokens_before(blocks, blocks.len() as int)),
{
    lemma_spot_within(blocks, Domain::Type);
    lemma_spot_within(blocks, Domain::Colon);
    lemma_spot_within(blocks, Domain::Space);
    lemma_spot_within(blocks, Domain::Desc);
    lemma_report_anchored(
        bare(blocks),
        spot_in(blocks, Domain::Type),
        spot_in(blocks, Domain::Colon),
        spot_in(blocks, Domain::Space),
        spot_in(blocks, Domain::Desc),
        tokens_before(blocks, blocks.len() as int),
    );
}

/// The trail made of its three parts.
pub open spec fn trail(issues: Seq<Issue>, anchor: At, last: Option<usize>) -> Trail {
    Trail { issues, anchor, last }
}

/// Finds the block that stands for the token that issues name as
/// `Token(token)` among `blocks`, the blocks of a header or of one of its
/// layouts. There is none when the header has no more than `token` tokens.
pub fn token_block(blocks: &Vec<Block>, token: usize) -> (r: Option<usize>)
    ensures
        match r {
            Some(at) => is_token_at(blocks@, token as nat, at as int),
            None => tokens_before(blocks@, blocks@.len() as int) <= token,
        },
{
    let mut at: usize = 1;
    let mut seen: usize = 0;
    while at < blocks.len()
        invariant
            1 <= at,
            at <= blocks@.len() || blocks@.len() == 0,
            seen == tokens_before(blocks@, at as int),
            seen < at,
            seen <= token,
        decreases blocks@.len() - at,
    {
        if blocks[at].is_token() {
            if seen == token {
                return Some(at);
            }
            seen = seen + 1;
        }
        at = at + 1;
    }
    None
}

/// The id that the block of the token `Token(token)` carries when it comes
/// from the tokenizer; none when that id is more than a number can hold.
pub fn token_id(token: usize) -> (r: Option<usize>)
    ensures
        match r {
            Some(id) => id == id_of_token(token as nat),
            None => id_of_token(token as nat) > usize::MAX,
        },
{
    if token >= usize::MAX / STRIDE {
        assert((token + 1) * 1000 > usize::MAX) by (nonlinear_arith)
            requires
                token >= usize::MAX / 1000,
        ;
        return None;
    }
    assert((token + 1) * 1000 <= usize::MAX) by (nonlinear_arith)
        requires
            token < usize::MAX / 1000,
    ;
    Some((token + 1) * STRIDE)
}

/// The number by which issues name the token whose block carries the id
/// `id`; none for an id that the tokenizer gives no token: 0, the id of the
/// root, and every id between two strides.
pub fn token_of(id: usize) -> (r: Option<usize>)
    ensures
        r == (if id >= STRIDE && id % STRIDE == 0 {
            Some(token_of_id(id as nat) as usize)
        } else {
            None
        }),
        r matches Some(token) ==> id_of_token(token as nat) == id,
{
    if id >= STRIDE && id % STRIDE == 0 {
        let token = id / STRIDE - 1;
        assert((token + 1) * 1000 == id) by (nonlinear_arith)
            requires
                token == id / 1000 - 1,
                id % 1000 == 0,
                id >= 1000,
        ;
        Some(token)
    } else {
        None
    }
}

/// In a header as the tokenizer gives it the token that issues name as
/// `Token(token)` is the block `token + 1`, and carries the id
/// `(token + 1) * STRIDE`.
pub proof fn lemma_header_token(text: Seq<u8>, blocks: Seq<Block>, token: nat)
    requires
        tokenizes(text, blocks),
        token < tokens_in(blocks),
    ensures
        is_token_at(blocks, token, token as int + 1),
        blocks[token as int + 1].id == Some(id_of_token(token) as usize),
        id_of_token(token) <= usize::MAX,
    decreases token,
{
    let at = token as int + 1;
    assert(is_token(text, blocks[at], at));
    if token > 0 {
        lemma_header_token(text, blocks, (token - 1) as nat);
        assert(tokens_before(blocks, at) == tokens_before(blocks, at - 1) + 1);
    }
}

/// `found_anchor` for code.
pub fn anchor_of(token: usize) -> (r: At)
    ensures
        r == found_anchor(token),
{
    At::exactly_token(token)
}

/// Where `slot` was found in `blocks`, if it was.
pub fn spot_of(blocks: &Vec<Block>, slot: Domain) -> (r: Option<Spot>)
    ensures
        r == spot_in(blocks@, slot),
{
    let mut at: usize = 1;
    let mut seen: usize = 0;
    while at < blocks.len()
        invariant
            1 <= at,
            at <= blocks@.len() || blocks@.len() == 0,
            seen == tokens_before(blocks@, at as int),
            seen < at,
            forall|j: int| 1 <= j < at ==> !holds(#[trigger] blocks@[j], slot),
        decreases blocks@.len() - at,
    {
        let block = blocks[at];
        let settled = match block.status {
            Status::Settled => true,
            Status::Ref(_) => true,
            _ => false,
        };
        let moved = match block.status {
            Status::Ref(_) => true,
            _ => false,
        };
        if settled && block.domain == slot && !(slot == Domain::Desc && block.val == Val::EOL) {
            proof {
                lemma_seat(blocks@, slot, at as int);
            }
            return Some(Spot { token: seen, moved });
        }
        if block.is_token() {
            seen = seen + 1;
        }
        at = at + 1;
    }
    None
}

/// `bare` for code.
pub fn is_bare(blocks: &Vec<Block>) -> (r: bool)
    ensures
        r == bare(blocks@),
{
    let mut at: usize = 1;
    while at < blocks.len()
        invariant
            1 <= at,
            forall|j: int|
                1 <= j < at && j < blocks@.len() && is_token_block(#[trigger] blocks@[j])
                    ==> blocks@[j].val == Val::EOL,
        decreases blocks@.len() - at,
    {
        if blocks[at].is_token() && blocks[at].val != Val::EOL {
            return false;
        }
        at = at + 1;
    }
    true
}

/// One step of the report: judges the slot `subject`, found at `spot` or not
/// at all, and adds what there is to say to `issues`, with the next id from
/// `id`. `anchor` is where the slot is expected, `last` the token of the last
/// slot found; the results are the same two for the next slot.
fn judge(
    issues: &mut Vec<Issue>,
    id: &mut Additive,
    anchor: At,
    last: Option<usize>,
    subject: IssueSubject,
    spot: Option<Spot>,
) -> (r: (At, Option<usize>))
    requires
        old(id).val == old(issues)@.len(),
        old(id).step == 1,
        old(id).val < 4,
    ensures
        trail(final(issues)@, r.0, r.1) == trail(old(issues)@, anchor, last).judge(subject, spot),
        final(id).val == final(issues)@.len(),
        final(id).step == 1,
        final(id).val <= old(id).val + 1,
{
    match spot {
        None => {
            let id = id.stamp();
            issues.push(Issue { id, subject, data: IssueData::Missing(Missing { expected_at: anchor }) });
            (At::after_issue(id), last)
        },
        Some(spot) => {
            let behind = match last {
                Some(last) => spot.token < last,
                None => false,
            };
            if spot.moved || behind {
                issues.push(
                    Issue {
                        id: id.stamp(),
                        subject,
                        data: IssueData::Misplaced(
                            Misplaced { expected_at: anchor, found_at: anchor_of(spot.token) },
                        ),
                    },
                );
            }
            (At::after_token(spot.token), Some(spot.token))
        },
    }
}

/// The issues of a header that has been laid out: `solution` holds its
/// blocks as `analyze_header` gives them.
///
/// A header without a token, or with line feeds only, is reported as missing
/// altogether. For any other, the first token that fills the slot is looked
/// up for each of the type, the colon, the space and the description, and
/// the four are judged in that order (see `Trail::judge`). Issues have the
/// ids 0, 1, 2 and so on.
pub fn issues_of(solution: &Vec<Block>) -> (r: Vec<Issue>)
    ensures
        r@ == issues_in(solution@),
        well_anchored(r@, tokens_before(solution@, solution@.len() as int)),
{
    let kind = spot_of(solution, Domain::Type);
    let colon = spot_of(solution, Domain::Colon);
    let space = spot_of(solution, Domain::Space);
    let desc = spot_of(solution, Domain::Desc);
    let mut issues: Vec<Issue> = Vec::new();
    let mut id = Additive::new();
    if is_bare(solution) {
        issues.push(
            Issue {
                id: id.stamp(),
                subject: IssueSubject::Header,
                data: IssueData::Missing(Missing { expected_at: At::start() }),
            },
        );
        assert(issues@ =~= report(true, kind, colon, space, desc));
        proof {
            assert(solution@.len() == solution.len());
            lemma_issues_anchored(solution@);
        }
        return issues;
    }
    let (anchor, last) = judge(&mut issues, &mut id, At::start(), None, IssueSubject::Type, kind);
    let (anchor, last) = judge(&mut issues, &mut id, anchor, last, IssueSubject::Colon, colon);
    let (anchor, last) = judge(&mut issues, &mut id, anchor, last, IssueSubject::Space, space);
    let _ = judge(&mut issues, &mut id, anchor, last, IssueSubject::Desc, desc);
    assert(issues@ == report(false, kind, colon, space, desc));
    proof {
        assert(solution@.len() == solution.len());
        lemma_issues_anchored(solution@);
    }
    issues
}

/// The layout that `find_header_issues` reports on: the one that costs
/// least when any word may be the type.
pub open spec fn plain_layout(blocks: Seq<Block>) -> Seq<Block> {
    choice(solutions_of(KnownType::AnyFirstSeq, Seq::empty(), blocks))
}

/// How many tokens a header of these blocks has: all but the root.
pub open spec fn tokens_in(blocks: Seq<Block>) -> nat {
    if blocks.len() == 0 {
        0
    } else {
        (blocks.len() - 1) as nat
    }
}

/// The layout that is chosen for a header has no more tokens than the
/// header.
pub proof fn lemma_layout_tokens(policy: KnownType, text: Seq<u8>, blocks: Seq<Block>)
    requires
        choice(solutions_of(policy, text, blocks)).len() <= usize::MAX,
    ensures
        ({
            let layout = choice(solutions_of(policy, text, blocks));
            tokens_before(layout, layout.len() as int) <= tokens_in(blocks)
        }),
{
    let all = solutions_of(policy, text, blocks);
    if all.len() > 0 {
        let k = lemma_choice_is_one(all);
        lemma_candidates_carry(policy, text, blocks, k);
    }
}

/// Issues that are well placed among some tokens are well placed among
/// more.
pub proof fn lemma_well_anchored_among_more(issues: Seq<Issue>, tokens: nat, more: nat)
    requires
        well_anchored(issues, tokens),
        tokens <= more,
    ensures
        well_anchored(issues, more),
{
    assert forall|k: int| 0 <= k < issues.len() implies well_placed(
        #[trigger] issues[k],
        k,
        more,
    ) by {
        assert(well_placed(issues[k], k, tokens));
    }
}

/// Finds the issues of a header from its blocks, the root followed by the
/// tokens: lays the tokens over the slots of the grammar, taking any word
/// for the type, and reports what is missing or misplaced. Blocks for which
/// no layout stands, as when a portal comes with them that finds no token,
/// are reported as a header that is missing altogether.
///
/// Every issue has as its id its place among the issues, and names only
/// places that can be found: the start of the header, one of its tokens, or
/// an issue reported before.
pub fn find_header_issues(blocks: &[Block]) -> (r: Vec<Issue>)
    ensures
        r@ == issues_in(plain_layout(blocks@)),
        well_anchored(r@, tokens_in(blocks@)),
{
    let config = Config { known_type: KnownType::AnyFirstSeq };
    let nothing = "";
    proof {
        reveal_strlit("");
        assert(nothing@ =~= Seq::<char>::empty());
        assert(encode_utf8(nothing@) =~= Seq::<u8>::empty());
    }
    let solution = analyze_header(nothing, &config, slice_to_vec(blocks));
    let issues = issues_of(&solution);
    proof {
        assert(solution@.len() == solution.len());
        lemma_layout_tokens(KnownType::AnyFirstSeq, Seq::empty(), blocks@);
        lemma_well_anchored_among_more(
            issues@,
            tokens_before(solution@, solution@.len() as int),
            tokens_in(blocks@),
        );
    }
    issues
}

} // verus!
