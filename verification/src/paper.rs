use vstd::prelude::*;
use vstd::string::StringExecFns;
use crate::decimal::{decimal, to_decimal};
use crate::domain::Scope;
use crate::block::{Block, Status, Val};
use crate::domain::Domain;
use crate::find_header_issues::{holds, lemma_seat, seat, seats, vacant};
use crate::pencil::Pencil;
use crate::position::lemma_steps;
use crate::weak_commit::parse_header::STRIDE;

verus! {

/// The map of a header: one pencil for the root and one for each of the
/// type, the colon, the space and the description.
#[derive(Debug, PartialEq, Eq, Clone, Copy, Structural)]
pub struct Paper {
    pub root: Pencil,
    pub kind: Pencil,
    pub colon: Pencil,
    pub space: Pencil,
    pub desc: Pencil,
}

/// The slot that the `i`th pencil of a paper is for.
pub open spec fn slot_at(i: int) -> Domain {
    if i <= 0 {
        Domain::Root
    } else if i == 1 {
        Domain::Type
    } else if i == 2 {
        Domain::Colon
    } else if i == 3 {
        Domain::Space
    } else {
        Domain::Desc
    }
}

/// The pencil of a slot about which nothing is known yet.
pub open spec fn blank(domain: Domain) -> Pencil {
    Pencil {
        domain,
        found_at: None,
        next: None,
        prev: None,
        missing: true,
        missing_nth: 1,
        missing_total: 1,
    }
}

/// Whether the pencil has an id that leaves room for a stride behind it.
pub open spec fn roomy(pencil: Pencil) -> bool {
    pencil.found_at matches Some(id) && id + STRIDE <= usize::MAX
}

/// The slot before the `i`th, if there is one.
pub open spec fn slot_before(i: int) -> Option<Domain> {
    if 1 <= i <= 4 {
        Some(slot_at(i - 1))
    } else {
        None
    }
}

/// The slot behind the `i`th, if there is one.
pub open spec fn slot_behind(i: int) -> Option<Domain> {
    if 0 <= i <= 3 {
        Some(slot_at(i + 1))
    } else {
        None
    }
}

/// The index of the last pencil at or before the `i`th that is not missing;
/// 0, that of the root, when there is none.
pub open spec fn found_before(pencils: Seq<Pencil>, i: int) -> int
    decreases i,
{
    if i <= 0 {
        0
    } else if !pencils[i].missing {
        i
    } else {
        found_before(pencils, i - 1)
    }
}

/// The index of the first pencil at or behind the `i`th that is not missing;
/// the number of pencils when there is none.
pub open spec fn found_behind(pencils: Seq<Pencil>, i: int) -> int
    decreases pencils.len() - i,
{
    if i >= pencils.len() {
        pencils.len() as int
    } else if !pencils[i].missing {
        i
    } else {
        found_behind(pencils, i + 1)
    }
}

/// The id of a pencil; 0 where it has none.
pub open spec fn id_at(pencil: Pencil) -> int {
    match pencil.found_at {
        Some(id) => id as int,
        None => 0,
    }
}

/// The id that the missing pencils around the `i`th sit behind: that of the
/// last pencil found before them.
pub open spec fn low_of(pencils: Seq<Pencil>, i: int) -> int {
    id_at(pencils[found_before(pencils, i)])
}

/// The id that the missing pencils around the `i`th stay below: that of the
/// first pencil found behind them. Where none is found behind them they have
/// a stride behind `low_of`; so they have where the one found behind them
/// has an id that is not behind `low_of`, its token standing out of its
/// place.
pub open spec fn high_of(pencils: Seq<Pencil>, i: int) -> int {
    let behind = found_behind(pencils, i);
    let low = low_of(pencils, i);
    if behind < pencils.len() {
        match pencils[behind].found_at {
            Some(id) => if id > low {
                id as int
            } else {
                low + STRIDE
            },
            None => low + STRIDE,
        }
    } else {
        low + STRIDE
    }
}

/// The `i`th pencil of `pencils` once the map is built.
///
/// Every pencil is told its neighbours in the order of the grammar. A pencil
/// that is missing is told which of how many missing pencils in a row it is.
/// If it has no id yet it is given one: with `k` of them in a row between
/// the ids `low` and `high` (see `low_of` and `high_of`), the `n`th sits at
/// `low + (high - low) / (k + 1) * n`.
pub open spec fn mapped(pencils: Seq<Pencil>, i: int) -> Pencil {
    let pencil = pencils[i];
    if pencil.missing && i >= 1 {
        let from = found_before(pencils, i);
        let k = found_behind(pencils, i) - from - 1;
        let n = i - from;
        let low = low_of(pencils, i);
        let high = high_of(pencils, i);
        Pencil {
            found_at: match pencil.found_at {
                Some(id) => Some(id),
                None => Some((low + (high - low) / (k + 1) * n) as usize),
            },
            prev: slot_before(i),
            next: slot_behind(i),
            missing_nth: n as usize,
            missing_total: k as usize,
            ..pencil
        }
    } else {
        Pencil {
            prev: slot_before(i),
            next: slot_behind(i),
            missing_nth: 1,
            missing_total: 1,
            ..pencil
        }
    }
}

/// Whether the pencils leave room for a map whose ids go up: no pencil that
/// is missing has an id yet, and the ids of those that were found go up in
/// the order of the grammar, by 1 at least for every slot from one to the
/// other.
pub open spec fn spaced(pencils: Seq<Pencil>) -> bool {
    &&& forall|i: int|
        1 <= i < pencils.len() && (#[trigger] pencils[i]).missing ==> pencils[i].found_at is None
    &&& forall|i: int, j: int|
        0 <= i < j < pencils.len() && !(#[trigger] pencils[i]).missing
            && !(#[trigger] pencils[j]).missing ==> id_at(pencils[i]) + (j - i) <= id_at(pencils[j])
}

/// The last pencil found at or before the `i`th is found, and all behind it
/// up to the `i`th are missing.
proof fn lemma_found_before(pencils: Seq<Pencil>, i: int)
    requires
        0 <= i < pencils.len(),
        !pencils[0].missing,
    ensures
        0 <= found_before(pencils, i) <= i,
        !pencils[found_before(pencils, i)].missing,
        forall|j: int| found_before(pencils, i) < j <= i ==> (#[trigger] pencils[j]).missing,
    decreases i,
{
    if i > 0 && pencils[i].missing {
        lemma_found_before(pencils, i - 1);
    }
}

/// The first pencil found at or behind the `i`th is found, if there is one,
/// and all before it from the `i`th on are missing.
proof fn lemma_found_behind(pencils: Seq<Pencil>, i: int)
    requires
        0 <= i <= pencils.len(),
    ensures
        i <= found_behind(pencils, i) <= pencils.len(),
        found_behind(pencils, i) < pencils.len() ==> !pencils[found_behind(pencils, i)].missing,
        forall|j: int| i <= j < found_behind(pencils, i) ==> (#[trigger] pencils[j]).missing,
    decreases pencils.len() - i,
{
    if i < pencils.len() && pencils[i].missing {
        lemma_found_behind(pencils, i + 1);
    }
}

/// Where the pencils leave room, a missing pencil is given an id between
/// the id of the last pencil found before it and that of the first found
/// behind it, a whole step for each missing pencil up to it.
proof fn lemma_mapped_between(paper: Paper, i: int)
    requires
        paper.ready(),
        spaced(paper.pencils()),
        1 <= i < 5,
        paper.pencils()[i].missing,
    ensures
        ({
            let pencils = paper.pencils();
            let from = found_before(pencils, i);
            let to = found_behind(pencils, i);
            let low = low_of(pencils, i);
            let high = high_of(pencils, i);
            &&& 0 <= from < i < to <= 5
            &&& mapped(pencils, i).found_at is Some
            &&& id_at(mapped(pencils, i)) == low + (high - low) / (to - from) * (i - from)
            &&& (high - low) / (to - from) >= 1
            &&& low < id_at(mapped(pencils, i)) < high
            &&& low == id_at(pencils[from])
            &&& to < 5 ==> high == id_at(pencils[to])
        }),
{
    let pencils = paper.pencils();
    lemma_found_before(pencils, i);
    lemma_found_behind(pencils, i);
    let from = found_before(pencils, i);
    let to = found_behind(pencils, i);
    let low = low_of(pencils, i);
    let high = high_of(pencils, i);
    assert(roomy(pencils[from]));
    if to < 5 {
        assert(roomy(pencils[to]));
        assert(id_at(pencils[from]) + (to - from) <= id_at(pencils[to]));
    }
    let room = high - low;
    let parts = to - from;
    let n = i - from;
    assert(room >= parts);
    assert(room / parts >= 1) by (nonlinear_arith)
        requires
            room >= parts,
            parts >= 1,
    ;
    lemma_steps(room, parts, n);
    assert(pencils[i].found_at is None);
    assert(parts == (to - from - 1) + 1);
}

/// Where the pencils leave room, the ids on the map go up from each pencil
/// to the next.
proof fn lemma_map_step(paper: Paper, i: int)
    requires
        paper.ready(),
        spaced(paper.pencils()),
        0 <= i < 4,
    ensures
        mapped(paper.pencils(), i).found_at is Some,
        mapped(paper.pencils(), i + 1).found_at is Some,
        id_at(mapped(paper.pencils(), i)) < id_at(mapped(paper.pencils(), i + 1)),
{
    let pencils = paper.pencils();
    let here = pencils[i];
    let next = pencils[i + 1];
    assert(!pencils[0].missing);
    if here.missing {
        lemma_mapped_between(paper, i);
    } else {
        assert(roomy(here));
    }
    if next.missing {
        lemma_mapped_between(paper, i + 1);
    } else {
        assert(roomy(next));
    }
    if here.missing && next.missing {
        let room = high_of(pencils, i) - low_of(pencils, i);
        let parts = found_behind(pencils, i) - found_before(pencils, i);
        lemma_steps(room, parts, i + 1 - found_before(pencils, i));
    }
}

/// Where the pencils leave room, the map has an id for every pencil, and
/// the ids go up in the order of the grammar: each slot, found or missing,
/// sits before every slot behind it.
pub proof fn lemma_map_rises(paper: Paper, i: int, j: int)
    requires
        paper.ready(),
        spaced(paper.pencils()),
        0 <= i < j < 5,
    ensures
        paper.built().pencils()[i].found_at is Some,
        paper.built().pencils()[j].found_at is Some,
        id_at(paper.built().pencils()[i]) < id_at(paper.built().pencils()[j]),
        paper.built().pencils()[i].before(paper.built().pencils()[j]),
    decreases j - i,
{
    lemma_map_step(paper, j - 1);
    if i < j - 1 {
        lemma_map_rises(paper, i, j - 1);
    }
}

/// What `blocks` show of `slot`. Where a token fills the slot, the slot is
/// not missing and has the id of the first token that fills it. Where none
/// does, the slot is missing, and has the id of the first block that was
/// made up to stand for it, if there is one and it has an id.
pub open spec fn pencil_in(blocks: Seq<Block>, slot: Domain) -> Pencil {
    if !vacant(blocks, slot) {
        Pencil { found_at: blocks[seat(blocks, slot)].id, missing: false, ..blank(slot) }
    } else if !unfilled(blocks, slot) {
        Pencil { found_at: blocks[stand_in(blocks, slot)].id, ..blank(slot) }
    } else {
        blank(slot)
    }
}

/// Whether `block` was made up to stand for `slot`.
pub open spec fn stands_for(block: Block, slot: Domain) -> bool {
    block.domain == slot && block.status == Status::Missing
}

/// Whether the block `at` is the first of `blocks`, the root aside, that was
/// made up to stand for `slot`.
pub open spec fn fills_in(blocks: Seq<Block>, slot: Domain, at: int) -> bool {
    &&& 1 <= at < blocks.len()
    &&& stands_for(blocks[at], slot)
    &&& forall|j: int| 1 <= j < at ==> !stands_for(#[trigger] blocks[j], slot)
}

/// Whether no block was made up to stand for `slot`.
pub open spec fn unfilled(blocks: Seq<Block>, slot: Domain) -> bool {
    forall|j: int| 1 <= j < blocks.len() ==> !stands_for(#[trigger] blocks[j], slot)
}

/// The first of `blocks` that was made up to stand for `slot`, where one
/// was.
pub open spec fn stand_in(blocks: Seq<Block>, slot: Domain) -> int {
    choose|at: int| fills_in(blocks, slot, at)
}

/// A slot has one first stand-in only.
proof fn lemma_stand_in(blocks: Seq<Block>, slot: Domain, at: int)
    requires
        fills_in(blocks, slot, at),
    ensures
        stand_in(blocks, slot) == at,
        !unfilled(blocks, slot),
{
    let chosen = stand_in(blocks, slot);
    assert(fills_in(blocks, slot, chosen));
    assert(stands_for(blocks[at], slot) && stands_for(blocks[chosen], slot));
}

/// The index of the first of `blocks`, the root aside, that was made up to
/// stand for `slot`, if one was.
fn stand_in_of(blocks: &Vec<Block>, slot: Domain) -> (r: Option<usize>)
    ensures
        match r {
            Some(at) => fills_in(blocks@, slot, at as int),
            None => unfilled(blocks@, slot),
        },
{
    let mut at: usize = 1;
    while at < blocks.len()
        invariant
            1 <= at,
            forall|j: int|
                1 <= j < at && j < blocks@.len() ==> !stands_for(#[trigger] blocks@[j], slot),
        decreases blocks@.len() - at,
    {
        if blocks[at].domain == slot && blocks[at].status == Status::Missing {
            return Some(at);
        }
        at = at + 1;
    }
    None
}

/// The index of the first of `blocks`, the root aside, that fills `slot`, if
/// one does.
pub fn seat_of(blocks: &Vec<Block>, slot: Domain) -> (r: Option<usize>)
    ensures
        match r {
            Some(at) => seats(blocks@, slot, at as int),
            None => vacant(blocks@, slot),
        },
{
    let mut at: usize = 1;
    while at < blocks.len()
        invariant
            1 <= at,
            forall|j: int| 1 <= j < at && j < blocks@.len() ==> !holds(#[trigger] blocks@[j], slot),
        decreases blocks@.len() - at,
    {
        let block = blocks[at];
        let settled = match block.status {
            Status::Settled => true,
            Status::Ref(_) => true,
            _ => false,
        };
        if settled && block.domain == slot && !(slot == Domain::Desc && block.val == Val::EOL) {
            return Some(at);
        }
        at = at + 1;
    }
    None
}

/// The pencil of `slot` as `blocks` show it.
fn draw(blocks: &Vec<Block>, slot: Domain) -> (r: Pencil)
    ensures
        r == pencil_in(blocks@, slot),
{
    let mut pencil = Pencil {
        domain: slot,
        found_at: None,
        next: None,
        prev: None,
        missing: true,
        missing_nth: 1,
        missing_total: 1,
    };
    match seat_of(blocks, slot) {
        Some(at) => {
            pencil.found_at = blocks[at].id;
            pencil.missing = false;
            proof {
                lemma_seat(blocks@, slot, at as int);
            }
        },
        None => {
            match stand_in_of(blocks, slot) {
                Some(at) => {
                    pencil.found_at = blocks[at].id;
                    proof {
                        lemma_stand_in(blocks@, slot, at as int);
                    }
                },
                None => {},
            }
        },
    }
    pencil
}

/// The paper of a header that has been laid out as `blocks`, before its map
/// is built: it knows the root, and of each of the type, the colon, the
/// space and the description what the blocks show (see `pencil_in`).
pub open spec fn sketch_of(blocks: Seq<Block>) -> Paper {
    Paper {
        root: Paper::spec_new().root,
        kind: pencil_in(blocks, Domain::Type),
        colon: pencil_in(blocks, Domain::Colon),
        space: pencil_in(blocks, Domain::Space),
        desc: pencil_in(blocks, Domain::Desc),
    }
}

/// The map of a header that has been laid out as `blocks`.
pub open spec fn map_of(blocks: Seq<Block>) -> Paper {
    sketch_of(blocks).built()
}

/// The mark of a slot: `-` for one that is missing, `+` for one that was
/// found.
pub open spec fn sign(missing: bool) -> Seq<char> {
    if missing {
        "-"@
    } else {
        "+"@
    }
}

/// An id as text; `no` where there is none.
pub open spec fn place(at: Option<usize>) -> Seq<char> {
    match at {
        Some(id) => decimal(id as nat),
        None => "no"@,
    }
}

/// The name of a slot.
pub open spec fn label(domain: Domain) -> Seq<char> {
    match domain {
        Domain::Root => "Root"@,
        Domain::Nil => "Nil"@,
        Domain::Type => "Type"@,
        Domain::Scope(Scope::OpenBracket) => "Scope(OpenBracket)"@,
        Domain::Scope(Scope::Scope) => "Scope(Scope)"@,
        Domain::Scope(Scope::CloseBracket) => "Scope(CloseBracket)"@,
        Domain::Breaking => "Breaking"@,
        Domain::Colon => "Colon"@,
        Domain::Space => "Space"@,
        Domain::Desc => "Desc"@,
    }
}

/// A pencil as text under the name `name`: its mark, the name, and in
/// brackets its id.
pub open spec fn entry(name: Seq<char>, pencil: Pencil) -> Seq<char> {
    sign(pencil.missing) + name + "("@ + place(pencil.found_at) + ")"@
}

/// Where `pencil` goes in `line`: before the first pencil that it comes
/// before (see `Pencil::before`), looked for from the `from`th on; at the
/// end if there is none.
pub open spec fn gap_for(line: Seq<Pencil>, pencil: Pencil, from: int) -> int
    decreases line.len() - from,
{
    if from >= line.len() {
        line.len() as int
    } else if pencil.before(line[from]) {
        from
    } else {
        gap_for(line, pencil, from + 1)
    }
}

/// `line` with `pencil` put where it goes.
pub open spec fn slip_in(line: Seq<Pencil>, pencil: Pencil) -> Seq<Pencil> {
    line.insert(gap_for(line, pencil, 0), pencil)
}

/// The first `upto` pencils of `line` as text, each under the name of its
/// slot and each but the description followed by an arrow.
pub open spec fn chain(line: Seq<Pencil>, upto: int) -> Seq<char>
    decreases upto,
{
    if upto <= 0 {
        Seq::empty()
    } else {
        chain(line, upto - 1) + entry(label(line[upto - 1].domain), line[upto - 1]) + (if line[upto
            - 1].domain != Domain::Desc {
            " -> "@
        } else {
            Seq::empty()
        })
    }
}

/// One pencil as text under the name `name`.
fn write_entry(out: &mut String, name: &str, pencil: &Pencil)
    ensures
        final(out)@ == old(out)@ + entry(name@, *pencil),
{
    let ghost before = out@;
    if pencil.missing {
        out.append("-");
    } else {
        out.append("+");
    }
    out.append(name);
    out.append("(");
    match pencil.found_at {
        Some(id) => {
            out.append(to_decimal(id).as_str());
        },
        None => {
            out.append("no");
        },
    }
    out.append(")");
    assert(out@ =~= before + entry(name@, *pencil));
}

/// `label` for code.
fn name_of(domain: Domain) -> (r: &'static str)
    ensures
        r@ == label(domain),
{
    match domain {
        Domain::Root => "Root",
        Domain::Nil => "Nil",
        Domain::Type => "Type",
        Domain::Scope(Scope::OpenBracket) => "Scope(OpenBracket)",
        Domain::Scope(Scope::Scope) => "Scope(Scope)",
        Domain::Scope(Scope::CloseBracket) => "Scope(CloseBracket)",
        Domain::Breaking => "Breaking",
        Domain::Colon => "Colon",
        Domain::Space => "Space",
        Domain::Desc => "Desc",
    }
}

/// Puts `pencil` into `line` where it goes.
fn slip(line: &mut Vec<Pencil>, pencil: Pencil)
    ensures
        final(line)@ == slip_in(old(line)@, pencil),
        final(line)@.len() == old(line)@.len() + 1,
{
    let mut at: usize = 0;
    while at < line.len() && !pencil.precedes(&line[at])
        invariant
            at <= line@.len(),
            gap_for(line@, pencil, at as int) == gap_for(line@, pencil, 0),
        decreases line@.len() - at,
    {
        at = at + 1;
    }
    line.insert(at, pencil);
}

impl Paper {
    /// The pencils of the four slots lined up: one after the other each is
    /// put before the first that it comes before, so that pencils with ids
    /// stand in the order of their ids.
    pub open spec fn lined_up(self) -> Seq<Pencil> {
        slip_in(slip_in(slip_in(seq![self.kind], self.colon), self.space), self.desc)
    }

    /// The paper as text, in two lines: the four slots in the order of the
    /// grammar, and the four slots lined up as they stand.
    pub open spec fn text(self) -> Seq<char> {
        "paper: "@ + entry("Type"@, self.kind) + " -> "@ + entry("Colon"@, self.colon) + " -> "@
            + entry("Space"@, self.space) + " -> "@ + entry("Desc"@, self.desc) + "\n"@
            + "|      "@ + chain(self.lined_up(), 4) + "\n"@
    }

    /// Writes the paper out: a line with the four slots in the order of the
    /// grammar, each with `+` if it was found or `-` if it is missing and
    /// with its id in brackets, and a line with the same four lined up as
    /// they stand in the header.
    pub fn to_string(&self) -> (r: String)
        ensures
            r@ == self.text(),
    {
        let mut out = String::from_str("paper: ");
        write_entry(&mut out, "Type", &self.kind);
        out.append(" -> ");
        write_entry(&mut out, "Colon", &self.colon);
        out.append(" -> ");
        write_entry(&mut out, "Space", &self.space);
        out.append(" -> ");
        write_entry(&mut out, "Desc", &self.desc);
        out.append("\n");
        out.append("|      ");
        let mut line: Vec<Pencil> = Vec::new();
        line.push(self.kind);
        assert(line@ =~= seq![self.kind]);
        slip(&mut line, self.colon);
        slip(&mut line, self.space);
        slip(&mut line, self.desc);
        let ghost start = out@;
        let mut at: usize = 0;
        while at < 4
            invariant
                at <= 4,
                line@ == self.lined_up(),
                line@.len() == 4,
                out@ == start + chain(line@, at as int),
            decreases 4 - at,
        {
            let pencil = line[at];
            let ghost before = out@;
            write_entry(&mut out, name_of(pencil.domain), &pencil);
            if pencil.domain != Domain::Desc {
                out.append(" -> ");
            } else {
                assert(out@ =~= before + entry(label(pencil.domain), pencil) + Seq::<char>::empty());
            }
            at = at + 1;
            assert(out@ =~= start + chain(line@, at as int));
        }
        out.append("\n");
        out
    }

    /// The five pencils in the order of the grammar.
    pub open spec fn pencils(self) -> Seq<Pencil> {
        seq![self.root, self.kind, self.colon, self.space, self.desc]
    }

    /// The paper of a header of which nothing is known but its start.
    pub open spec fn spec_new() -> Paper {
        Paper {
            root: Pencil { found_at: Some(0usize), missing: false, ..blank(Domain::Root) },
            kind: blank(Domain::Type),
            colon: blank(Domain::Colon),
            space: blank(Domain::Space),
            desc: blank(Domain::Desc),
        }
    }

    /// The paper with its map built (see `mapped`).
    pub open spec fn built(self) -> Paper {
        Paper {
            root: mapped(self.pencils(), 0),
            kind: mapped(self.pencils(), 1),
            colon: mapped(self.pencils(), 2),
            space: mapped(self.pencils(), 3),
            desc: mapped(self.pencils(), 4),
        }
    }

    /// Whether the map can be built: the root is there, and every slot that
    /// was found has an id that leaves room for a stride behind it.
    pub open spec fn ready(self) -> bool {
        &&& !self.root.missing
        &&& forall|i: int|
            0 <= i < 5 ==> {
                let pencil = #[trigger] self.pencils()[i];
                !pencil.missing ==> roomy(pencil)
            }
    }

    /// The pencil of `domain`.
    pub open spec fn pencil_of(self, domain: Domain) -> Pencil {
        match domain {
            Domain::Root => self.root,
            Domain::Type => self.kind,
            Domain::Colon => self.colon,
            Domain::Space => self.space,
            _ => self.desc,
        }
    }

    /// The paper with `pencil` as the pencil of `domain`.
    pub open spec fn with_pencil(self, domain: Domain, pencil: Pencil) -> Paper {
        match domain {
            Domain::Root => Paper { root: pencil, ..self },
            Domain::Type => Paper { kind: pencil, ..self },
            Domain::Colon => Paper { colon: pencil, ..self },
            Domain::Space => Paper { space: pencil, ..self },
            _ => Paper { desc: pencil, ..self },
        }
    }

    /// The paper of a header of which nothing is known but its start.
    #[inline]
    #[verifier::when_used_as_spec(spec_new)]
    pub fn new() -> (r: Self)
        ensures
            r == Paper::spec_new(),
    {
        Self {
            root: Pencil {
                domain: Domain::Root,
                found_at: Some(0),
                next: None,
                prev: None,
                missing: false,
                missing_nth: 1,
                missing_total: 1,
            },
            kind: Pencil {
                domain: Domain::Type,
                found_at: None,
                next: None,
                prev: None,
                missing: true,
                missing_nth: 1,
                missing_total: 1,
            },
            colon: Pencil {
                domain: Domain::Colon,
                found_at: None,
                next: None,
                prev: None,
                missing: true,
                missing_nth: 1,
                missing_total: 1,
            },
            space: Pencil {
                domain: Domain::Space,
                found_at: None,
                next: None,
                prev: None,
                missing: true,
                missing_nth: 1,
                missing_total: 1,
            },
            desc: Pencil {
                domain: Domain::Desc,
                found_at: None,
                next: None,
                prev: None,
                missing: true,
                missing_nth: 1,
                missing_total: 1,
            },
        }
    }

    /// The paper of a header that has been laid out as `blocks`: for each of
    /// the type, the colon, the space and the description it says whether a
    /// token fills the slot, and if so, the id of the first that does; a slot
    /// that is missing borrows the id of the block made up for it. The map
    /// is not built yet.
    pub fn sketch(blocks: &Vec<Block>) -> (r: Self)
        ensures
            r == sketch_of(blocks@),
    {
        let mut paper = Paper::new();
        paper.kind = draw(blocks, Domain::Type);
        paper.colon = draw(blocks, Domain::Colon);
        paper.space = draw(blocks, Domain::Space);
        paper.desc = draw(blocks, Domain::Desc);
        paper
    }

    /// `ready` for code.
    pub fn is_ready(&self) -> (r: bool)
        ensures
            r == self.ready(),
    {
        if self.root.missing {
            return false;
        }
        let pencils = [self.root, self.kind, self.colon, self.space, self.desc];
        assert(pencils@ =~= self.pencils());
        let mut i: usize = 0;
        while i < 5
            invariant
                i <= 5,
                pencils@ == self.pencils(),
                forall|j: int|
                    0 <= j < i ==> {
                        let pencil = #[trigger] self.pencils()[j];
                        !pencil.missing ==> roomy(pencil)
                    },
            decreases 5 - i,
        {
            let pencil = pencils[i];
            if !pencil.missing {
                match pencil.found_at {
                    Some(id) => {
                        if id > usize::MAX - STRIDE {
                            assert(self.pencils()[i as int] == pencil);
                            return false;
                        }
                    },
                    None => {
                        assert(self.pencils()[i as int] == pencil);
                        return false;
                    },
                }
            }
            i += 1;
        }
        true
    }

    /// Builds the map: tells every pencil its neighbours, and every missing
    /// pencil its place among the missing ones around it and, if it has none
    /// yet, an id to sit at (see `mapped`). What is known of the slots that
    /// were found stays.
    pub fn build_map(&mut self)
        requires
            old(self).ready(),
        ensures
            *final(self) == old(self).built(),
    {
        let ghost before = self.pencils();
        let mut pencils = [self.root, self.kind, self.colon, self.space, self.desc];
        assert(pencils@ =~= before);
        let slots = [Domain::Root, Domain::Type, Domain::Colon, Domain::Space, Domain::Desc];
        // The root stands first and has no missing pencil before it.
        let mut root = pencils[0];
        root.prev = None;
        root.next = Some(Domain::Type);
        root.missing_nth = 1;
        root.missing_total = 1;
        pencils[0] = root;
        let mut i: usize = 1;
        // The index and the id of the last pencil that was found.
        let mut from: usize = 0;
        let mut low: usize = match pencils[0].found_at {
            Some(id) => id,
            None => 0,
        };
        assert(before[0] == old(self).pencils()[0]);
        while i < 5
            invariant
                1 <= i <= 5,
                from < i,
                pencils@.len() == 5,
                before.len() == 5,
                old(self).ready(),
                before == old(self).pencils(),
                slots@ == seq![
                    Domain::Root,
                    Domain::Type,
                    Domain::Colon,
                    Domain::Space,
                    Domain::Desc,
                ],
                forall|j: int| 0 <= j < i ==> #[trigger] pencils@[j] == mapped(before, j),
                forall|j: int| i <= j < 5 ==> #[trigger] pencils@[j] == before[j],
                from == found_before(before, i - 1),
                low == (match before[from as int].found_at {
                    Some(id) => id as int,
                    None => 0,
                }),
                low + STRIDE <= usize::MAX,
                !before[from as int].missing,
                forall|j: int| from < j < i ==> (#[trigger] before[j]).missing,
            decreases 5 - i,
        {
            let mut pencil = pencils[i];
            assert(slots@[i - 1] == slot_at(i - 1));
            assert(i < 4 ==> slots@[i + 1] == slot_at(i + 1));
            pencil.prev = Some(slots[i - 1]);
            pencil.next = if i < 4 {
                Some(slots[i + 1])
            } else {
                None
            };
            if pencil.missing {
                let mut end: usize = i + 1;
                while end < 5 && pencils[end].missing
                    invariant
                        i < end <= 5,
                        pencils@.len() == 5,
                        before.len() == 5,
                        forall|j: int| i <= j < 5 ==> #[trigger] pencils@[j] == before[j],
                        forall|j: int| i <= j < end ==> (#[trigger] before[j]).missing,
                        found_behind(before, i as int) == found_behind(before, end as int),
                    decreases 5 - end,
                {
                    end += 1;
                }
                let parts = end - from;
                let n = i - from;
                proof {
                    assert(found_behind(before, i as int) == end);
                    assert(found_before(before, i as int) == from);
                    assert(before[from as int] == old(self).pencils()[from as int]);
                }
                let mut high: usize = low + STRIDE;
                if end < 5 {
                    assert(pencils@[end as int] == before[end as int]);
                    if let Some(id) = pencils[end].found_at {
                        if id > low {
                            high = id;
                        }
                    }
                }
                assert(low == low_of(before, i as int));
                assert(high == high_of(before, i as int));
                let room = high - low;
                let apart = room / parts;
                assert(apart * n <= room) by (nonlinear_arith)
                    requires
                        apart == room / parts,
                        1 <= n < parts,
                        parts <= 5,
                ;
                if pencil.found_at.is_none() {
                    pencil.found_at = Some(low + apart * n);
                }
                pencil.missing_nth = n;
                pencil.missing_total = parts - 1;
            } else {
                pencil.missing_nth = 1;
                pencil.missing_total = 1;
                proof {
                    assert(before[i as int] == old(self).pencils()[i as int]);
                }
                from = i;
                low = match pencil.found_at {
                    Some(id) => id,
                    None => 0,
                };
            }
            pencils[i] = pencil;
            i += 1;
        }
        self.root = pencils[0];
        self.kind = pencils[1];
        self.colon = pencils[2];
        self.space = pencils[3];
        self.desc = pencils[4];
    }

    /// The pencil of `domain`, one of the root, the type, the colon, the
    /// space and the description.
    #[inline]
    pub fn find_pencil(&self, domain: Domain) -> (r: &Pencil)
        requires
            domain == Domain::Root || domain == Domain::Type || domain == Domain::Colon || domain
                == Domain::Space || domain == Domain::Desc,
        ensures
            *r == self.pencil_of(domain),
    {
        match domain {
            Domain::Root => &self.root,
            Domain::Type => &self.kind,
            Domain::Colon => &self.colon,
            Domain::Space => &self.space,
            _ => &self.desc,
        }
    }

    /// The pencil of `domain`, one of the root, the type, the colon, the
    /// space and the description, to be written on.
    #[inline]
    pub fn find_pencil_mut(&mut self, domain: Domain) -> (r: &mut Pencil)
        requires
            domain == Domain::Root || domain == Domain::Type || domain == Domain::Colon || domain
                == Domain::Space || domain == Domain::Desc,
        ensures
            *r == old(self).pencil_of(domain),
            *final(self) == old(self).with_pencil(domain, *final(r)),
    {
        match domain {
            Domain::Root => &mut self.root,
            Domain::Type => &mut self.kind,
            Domain::Colon => &mut self.colon,
            Domain::Space => &mut self.space,
            _ => &mut self.desc,
        }
    }

    /// Whether no slot of the header was found.
    #[inline]
    pub fn is_empty(&self) -> (r: bool)
        ensures
            r == (self.kind.missing && self.colon.missing && self.space.missing
                && self.desc.missing),
    {
        self.kind.is_missing() && self.colon.is_missing() && self.space.is_missing()
            && self.desc.is_missing()
    }
}

} // verus!
