use sven::additive::Additive;
use sven::conventional_commit::issue::TypeIssue;
use sven::analyze::analyze;
use sven::at::{At, AtPos, AtTarget};
use sven::block::{Block, Status, Val};
use sven::block_factory::BlockFactory;
use sven::bytes::Bytes;
use sven::config::{is_listed, is_nearly_listed, same};
use sven::decimal::to_decimal;
use sven::domain::{Domain, Scope};
use sven::issue::{Issue, IssueData, IssueSubject, Missing};
use sven::like::close;
use sven::paper::{seat_of, Paper};
use sven::pencil::Pencil;
use sven::pocket::Pocket;
use sven::position::project;
use sven::report::Report;

#[test]
fn additive_counts_by_its_step() {
    let mut id = Additive::new();
    assert_eq!(id.stamp(), 0);
    assert_eq!(id.stamp(), 1);
    assert_eq!(id.stamp(), 2);
    let mut id = Additive { val: 0, step: 1_000 };
    assert_eq!(id.stamp(), 0);
    assert_eq!(id.stamp(), 1_000);
    assert_eq!(id.val, 2_000);
    assert_eq!(id.step, 1_000);
}

#[test]
fn places_are_told_by_position_and_target() {
    assert_eq!(
        At::start(),
        At {
            pos: AtPos::Exactly,
            target: AtTarget::Root
        }
    );
    assert_eq!(
        At::exactly(AtTarget::Issue(3)),
        At {
            pos: AtPos::Exactly,
            target: AtTarget::Issue(3)
        }
    );
    assert_eq!(At::exactly_token(7), At::exactly(AtTarget::Token(7)));
    assert_eq!(At::exactly_issue(2), At::exactly(AtTarget::Issue(2)));
    assert_eq!(
        At::after(AtTarget::Root),
        At {
            pos: AtPos::After,
            target: AtTarget::Root
        }
    );
    assert_eq!(At::after_token(7), At::after(AtTarget::Token(7)));
    assert_eq!(At::after_issue(2), At::after(AtTarget::Issue(2)));
    assert_ne!(At::after_token(0), At::exactly_token(0));
    assert_ne!(AtPos::Before, AtPos::After);
}

#[test]
fn bytes_cover_what_lies_between_their_ends() {
    let bytes = Bytes::new(2, 5);
    assert_eq!(bytes.start(), 2);
    assert_eq!(bytes.end(), 5);
    assert_eq!(bytes.total(), 3);
    assert_eq!(Bytes::empty_at(4), Bytes::new(4, 4));
    assert_eq!(Bytes::empty_at(4).total(), 0);
    assert_eq!(Bytes::single(4), Bytes::new(4, 5));
    assert_eq!(Bytes::from((2, 5)), bytes);
    assert_eq!(Bytes::from(4), Bytes::empty_at(4));
    let range: std::ops::Range<usize> = bytes.into();
    assert_eq!(range, 2..5);
    let open_ended: std::ops::RangeFrom<usize> = bytes.into();
    assert_eq!(open_ended, 2..);
}

#[test]
fn capture_gives_the_text_in_the_range() {
    let source = "fix: да";
    assert_eq!(Bytes::new(0, 3).capture(source), Some("fix"));
    assert_eq!(Bytes::new(5, 9).capture(source), Some("да"));
    assert_eq!(Bytes::new(0, 9).capture(source), Some(source));
    // An empty range, one that leaves the text, one that cuts a character.
    assert_eq!(Bytes::new(3, 3).capture(source), None);
    assert_eq!(Bytes::new(5, 10).capture(source), None);
    assert_eq!(Bytes::new(5, 6).capture(source), None);
    assert_eq!(Bytes::new(6, 9).capture(source), None);
    assert_eq!(Bytes(4, 2).capture(source), None);
}

#[test]
fn kinds_have_their_slots() {
    assert_eq!(Val::Root.into_domain(), Domain::Root);
    assert_eq!(Val::Word.into_domain(), Domain::Type);
    assert_eq!(Val::Colon.into_domain(), Domain::Colon);
    assert_eq!(Val::Space.into_domain(), Domain::Space);
    assert_eq!(Val::Nil.into_domain(), Domain::Nil);
    assert_eq!(
        Val::OpenBracket.into_domain(),
        Domain::Scope(Scope::OpenBracket)
    );
    assert_eq!(
        Val::CloseBracket.into_domain(),
        Domain::Scope(Scope::CloseBracket)
    );
    assert_eq!(Val::ExclMark.into_domain(), Domain::Breaking);
    assert_eq!(Val::EOL.into_domain(), Domain::Nil);
    assert_eq!(Domain::from(Val::Colon), Domain::Colon);
    let slot: Domain = Val::ExclMark.into();
    assert_eq!(slot, Domain::Breaking);
    assert_eq!(Val::default(), Val::Nil);
    assert_eq!(Status::default(), Status::Unsigned);
    assert_eq!(Domain::default(), Domain::Nil);
    assert_eq!(Block::default().status, Status::Unsigned);
    assert_eq!(Block::default().id, None);
}

#[test]
fn slots_are_ordered_as_the_grammar_is() {
    let order = [
        Domain::Root,
        Domain::Type,
        Domain::Scope(Scope::OpenBracket),
        Domain::Scope(Scope::Scope),
        Domain::Scope(Scope::CloseBracket),
        Domain::Breaking,
        Domain::Colon,
        Domain::Space,
        Domain::Desc,
    ];
    for pair in order.windows(2) {
        assert!(pair[0] < pair[1]);
        assert!(pair[0].precedes(pair[1]));
        assert!(!pair[1].precedes(pair[0]));
        assert!(pair[0].position() < pair[1].position());
    }
    assert!(Domain::Desc.precedes(Domain::Desc));
}

#[test]
fn pockets_are_empty_missing_or_filled() {
    assert_eq!(Pocket::new(), Pocket::Empty);
    assert_eq!(Pocket::default(), Pocket::Empty);
    assert!(Pocket::Empty.is_empty());
    assert!(!Pocket::Empty.is_missing());
    assert!(!Pocket::Empty.is_token());
    assert_eq!(Pocket::Empty.id(), None);
    assert!(Pocket::Missing.is_missing());
    assert!(!Pocket::Missing.is_empty());
    assert_eq!(Pocket::Missing.id(), None);
    assert!(Pocket::Token(4).is_token());
    assert!(!Pocket::Token(4).is_missing());
    assert_eq!(Pocket::Token(4).id(), Some(4));
}

#[test]
fn alike_is_one_slip_at_most() {
    let close = |a: &str, b: &str| close(a.as_bytes(), b.as_bytes());
    assert!(close("", ""));
    assert!(close("fix", "fix"));
    assert!(close("fix", "fax"));
    assert!(close("fix", "fi"));
    assert!(close("fix", "ix"));
    assert!(close("fix", "fx"));
    assert!(close("fix", "fixe"));
    assert!(close("fix", "afix"));
    assert!(close("a", ""));
    assert!(close("", "a"));
    assert!(close("aab", "ab"));
    assert!(!close("fix", "xif"));
    assert!(!close("fix", "f"));
    assert!(!close("fix", "fixed"));
    assert!(!close("ab", "ba"));
    assert!(!close("", "ab"));
}

#[test]
fn names_are_looked_up_byte_for_byte() {
    let names = vec!["feat".to_string(), "fix".to_string()];
    assert!(is_listed(&names, "fix"));
    assert!(is_listed(&names, "feat"));
    assert!(!is_listed(&names, "Fix"));
    assert!(!is_listed(&names, ""));
    assert!(!is_listed(&Vec::new(), "fix"));
    assert!(is_nearly_listed(&names, "Fix"));
    assert!(is_nearly_listed(&names, "feature") == false);
    assert!(is_nearly_listed(&names, "feet"));
    assert!(same(b"abc", b"abc"));
    assert!(!same(b"abc", b"abd"));
    assert!(!same(b"abc", b"ab"));
}

fn ids(blocks: &[Block]) -> Vec<usize> {
    blocks.iter().map(|b| b.id.unwrap()).collect()
}

#[test]
fn made_up_blocks_share_the_ids_between_their_tokens() {
    // Three blocks in a row before the first token.
    let f = {
        let mut f = BlockFactory::new();
        f.kind_missing().colon_missing().space_missing().desc("one");
        f
    };
    let placed = project(&f.blocks).unwrap();
    assert_eq!(ids(&placed), vec![0, 250, 500, 750, 1000]);

    // One block between two tokens, two behind the last.
    let f = {
        let mut f = BlockFactory::new();
        f.kind("fix").colon_missing().space().desc_missing().desc_missing();
        f
    };
    let placed = project(&f.blocks).unwrap();
    assert_eq!(ids(&placed), vec![0, 1000, 1500, 2000, 2333, 2666]);

    // Nothing but the ids changes, and no id that was there.
    for (before, after) in f.blocks.iter().zip(placed.iter()) {
        assert_eq!(Block { id: None, ..*before }, Block { id: None, ..*after });
        if before.id.is_some() {
            assert_eq!(before.id, after.id);
        }
    }
}

#[test]
fn ids_go_up_from_block_to_block() {
    let config = sven::config::Config {
        known_type: sven::config::KnownType::AnyFirstSeq,
    };
    for commit in [
        "fix: me",
        "",
        "fix",
        ": fix me",
        " type :desc?\n",
        ":before type clearly\n",
        "fix(: me",
        "\n",
    ] {
        let header = sven::weak_commit::parse_header::parse_header(commit).unwrap();
        let solution = sven::analyze_header::analyze_header(commit, &config, header);
        let placed = project(&solution).unwrap();
        assert_eq!(placed.len(), solution.len());
        assert!(ids(&placed).windows(2).all(|w| w[0] < w[1]));
    }
}

#[test]
fn blocks_that_do_not_fit_are_not_placed() {
    let token = |id: Option<usize>| Block {
        id,
        val: Val::Word,
        domain: Domain::Desc,
        bytes: Some(Bytes::new(0, 1)),
        status: Status::Settled,
    };
    let made_up = Block {
        id: None,
        val: Val::Colon,
        domain: Domain::Colon,
        bytes: None,
        status: Status::Missing,
    };
    assert_eq!(project(&Vec::new()), Some(Vec::new()));
    // A token without an id.
    assert_eq!(project(&vec![Block::root(), token(None)]), None);
    // Ids that do not go up.
    assert_eq!(
        project(&vec![Block::root(), token(Some(5)), token(Some(5))]),
        None
    );
    // A made-up block before every token.
    assert_eq!(project(&vec![made_up, Block::root()]), None);
    // More made-up blocks than ids between two tokens.
    assert_eq!(
        project(&vec![Block::root(), made_up, made_up, token(Some(2))]),
        None
    );
    assert_eq!(
        ids(&project(&vec![Block::root(), made_up, made_up, token(Some(3))]).unwrap()),
        vec![0, 1, 2, 3]
    );
    // No room for a further token behind the last.
    assert_eq!(
        project(&vec![Block::root(), token(Some(usize::MAX - 999)), made_up]),
        None
    );
    assert_eq!(
        ids(&project(&vec![Block::root(), token(Some(usize::MAX - 1000)), made_up]).unwrap()),
        vec![0, usize::MAX - 1000, usize::MAX - 500]
    );
}

#[test]
fn new_paper_knows_the_root_only() {
    let paper = Paper::new();
    assert!(paper.is_empty());
    assert!(!paper.root.is_missing());
    assert_eq!(paper.root.found_at, Some(0));
    for domain in [Domain::Type, Domain::Colon, Domain::Space, Domain::Desc] {
        let pencil = paper.find_pencil(domain);
        assert_eq!(pencil.domain, domain);
        assert!(pencil.is_missing());
        assert_eq!(pencil.found_at, None);
        assert_eq!(pencil.missing_nth, 1);
        assert_eq!(pencil.missing_total, 1);
    }
    assert_eq!(paper.find_pencil(Domain::Root), &paper.root);
}

#[test]
fn map_of_an_empty_paper() {
    let mut paper = Paper::new();
    assert!(paper.is_ready());
    paper.build_map();
    assert_eq!(paper.root.prev, None);
    assert_eq!(paper.root.next, Some(Domain::Type));
    assert_eq!(paper.kind.prev, Some(Domain::Root));
    assert_eq!(paper.kind.next, Some(Domain::Colon));
    assert_eq!(paper.colon.prev, Some(Domain::Type));
    assert_eq!(paper.colon.next, Some(Domain::Space));
    assert_eq!(paper.space.prev, Some(Domain::Colon));
    assert_eq!(paper.space.next, Some(Domain::Desc));
    assert_eq!(paper.desc.prev, Some(Domain::Space));
    assert_eq!(paper.desc.next, None);
    let at: Vec<Option<usize>> = [paper.kind, paper.colon, paper.space, paper.desc]
        .iter()
        .map(|p| p.found_at)
        .collect();
    assert_eq!(at, vec![Some(200), Some(400), Some(600), Some(800)]);
    for (n, pencil) in [paper.kind, paper.colon, paper.space, paper.desc]
        .iter()
        .enumerate()
    {
        assert!(pencil.is_missing());
        assert_eq!(pencil.missing_nth, n + 1);
        assert_eq!(pencil.missing_total, 4);
    }
    assert!(paper.is_empty());
}

#[test]
fn map_of_a_header_without_colon_and_description() {
    let mut paper = Paper::new();
    {
        let kind = paper.find_pencil_mut(Domain::Type);
        kind.found_at = Some(1000);
        kind.missing = false;
    }
    {
        let space = paper.find_pencil_mut(Domain::Space);
        space.found_at = Some(2000);
        space.missing = false;
    }
    assert!(!paper.is_empty());
    assert!(paper.is_ready());
    paper.build_map();
    assert_eq!(paper.kind.found_at, Some(1000));
    assert_eq!(paper.colon.found_at, Some(1500));
    assert_eq!(paper.colon.missing_nth, 1);
    assert_eq!(paper.colon.missing_total, 1);
    assert_eq!(paper.space.found_at, Some(2000));
    assert_eq!(paper.space.missing_nth, 1);
    assert_eq!(paper.desc.found_at, Some(2500));
    assert!(paper.desc.is_missing());
    assert!(!paper.kind.is_missing());
}

#[test]
fn paper_without_room_is_not_ready() {
    let mut paper = Paper::new();
    paper.kind.missing = false;
    assert!(!paper.is_ready());
    paper.kind.found_at = Some(usize::MAX - 999);
    assert!(!paper.is_ready());
    paper.kind.found_at = Some(usize::MAX - 1000);
    assert!(paper.is_ready());
    paper.root.missing = true;
    assert!(!paper.is_ready());
}

#[test]
fn sketch_finds_the_first_token_of_each_slot() {
    let f = {
        let mut f = BlockFactory::new();
        f.kind("fix")
            .colon_missing()
            .space()
            .desc("me")
            .space()
            .desc("too");
        f
    };
    let mut paper = Paper::sketch(&f.blocks);
    assert_eq!(paper.kind.found_at, Some(1000));
    assert!(!paper.kind.is_missing());
    assert!(paper.colon.is_missing());
    assert_eq!(paper.colon.found_at, None);
    assert_eq!(paper.space.found_at, Some(2000));
    assert_eq!(paper.desc.found_at, Some(3000));
    assert_eq!(seat_of(&f.blocks, Domain::Space), Some(3));
    assert_eq!(seat_of(&f.blocks, Domain::Colon), None);
    assert_eq!(seat_of(&f.blocks, Domain::Root), None);
    paper.build_map();
    assert_eq!(paper.colon.found_at, Some(1500));
}

#[test]
fn pencils_go_by_id_where_both_have_one() {
    let pencil = |domain: Domain, found_at: Option<usize>| Pencil {
        domain,
        found_at,
        next: None,
        prev: None,
        missing: found_at.is_none(),
        missing_nth: 1,
        missing_total: 1,
    };
    let kind = pencil(Domain::Type, Some(3000));
    let colon = pencil(Domain::Colon, Some(1000));
    let space = pencil(Domain::Space, None);
    assert!(colon.precedes(&kind));
    assert!(!kind.precedes(&colon));
    assert!(kind.precedes(&space));
    assert!(colon.precedes(&space));
    assert!(!space.precedes(&kind));
    assert!(!kind.precedes(&kind));
}

#[test]
fn factory_counts_bytes_blocks_and_ids() {
    let mut f = BlockFactory::new();
    assert_eq!(f.blocks, vec![Block::root()]);
    assert_eq!((f.end_byte, f.end_blocks, f.end_id), (0, 1, 0));
    f.kind("fix").scope_ob().scope_val("app").scope_cb();
    assert_eq!((f.end_byte, f.end_blocks, f.end_id), (8, 5, 4000));
    f.colon_misplaced().space_extra().colon_ref().space().desc("да");
    assert_eq!((f.end_byte, f.end_blocks, f.end_id), (15, 10, 8000));
    assert_eq!(f.blocks[5].status, Status::Portal(Some(7)));
    assert_eq!(f.blocks[5].bytes, None);
    assert_eq!(f.blocks[5].id, None);
    assert_eq!(f.blocks[6].status, Status::Extra);
    assert_eq!(f.blocks[6].bytes, Some(Bytes::new(8, 9)));
    assert_eq!(f.blocks[7].status, Status::Ref(5));
    assert_eq!(f.blocks[7].id, Some(6000));
    assert_eq!(f.blocks[9].bytes, Some(Bytes::new(11, 15)));
    assert_eq!(f.blocks[9].domain, Domain::Desc);
    f.desc_missing().scope_ob_missing().scope_val_missing().scope_cb_missing();
    assert_eq!((f.end_byte, f.end_blocks, f.end_id), (15, 14, 8000));
    let made_up: Vec<(Val, Domain)> = f.blocks[10..].iter().map(|b| (b.val, b.domain)).collect();
    assert_eq!(
        made_up,
        vec![
            (Val::Word, Domain::Desc),
            (Val::OpenBracket, Domain::Scope(Scope::OpenBracket)),
            (Val::Word, Domain::Scope(Scope::Scope)),
            (Val::CloseBracket, Domain::Scope(Scope::CloseBracket)),
        ]
    );
    assert!(f.blocks[10..]
        .iter()
        .all(|b| b.status == Status::Missing && b.id.is_none() && b.bytes.is_none()));
}

#[test]
fn analyze_reports_the_issues_of_the_header() {
    let report = analyze("fix: me\n\nbody").unwrap();
    assert_eq!(report.header, Vec::new());
    assert_eq!(ids(&report.blocks), vec![0, 1000, 2000, 3000, 4000, 5000]);
    let blocks = {
        let mut f = BlockFactory::new();
        f.kind("fix").colon().space().desc("me").desc("\n");
        f.blocks[5].val = Val::EOL;
        f.blocks
    };
    let paper = {
        let mut paper = Paper::sketch(&blocks);
        paper.build_map();
        paper
    };
    assert_eq!(
        report,
        Report {
            header: Vec::new(),
            blocks,
            paper,
        }
    );
    let at = |paper: &Paper| {
        [paper.kind, paper.colon, paper.space, paper.desc]
            .iter()
            .map(|p| (p.found_at.unwrap(), p.missing))
            .collect::<Vec<_>>()
    };
    assert_eq!(
        at(&report.paper),
        vec![(1000, false), (2000, false), (3000, false), (4000, false)]
    );
    let report = analyze("").unwrap();
    assert_eq!(report.blocks, Vec::new());
    assert_eq!(report.header.len(), 1);
    assert!(report.paper.is_empty());
    assert_eq!(
        at(&report.paper),
        vec![(200, true), (400, true), (600, true), (800, true)]
    );
    let report = analyze("hello world").unwrap();
    assert_eq!(ids(&report.blocks), vec![0, 1000, 1500, 2000, 3000]);
    assert_eq!(report.blocks[2].status, Status::Missing);
    assert_eq!(
        at(&report.paper),
        vec![(1000, false), (1500, true), (2000, false), (3000, false)]
    );
    assert_eq!(
        report.header,
        vec![Issue {
            id: 0,
            subject: IssueSubject::Colon,
            data: IssueData::Missing(Missing {
                expected_at: At::after_token(0),
            }),
        }]
    );
}

#[test]
fn blocks_go_by_their_ids() {
    let with_id = |id: Option<usize>| Block {
        id,
        ..Block::root()
    };
    assert!(with_id(Some(1)).precedes(&with_id(Some(2))));
    assert!(!with_id(Some(2)).precedes(&with_id(Some(1))));
    assert!(!with_id(Some(2)).precedes(&with_id(Some(2))));
    assert!(with_id(None).precedes(&with_id(Some(0))));
    assert!(!with_id(Some(0)).precedes(&with_id(None)));
    assert!(!with_id(None).precedes(&with_id(None)));

    // Once every block has its place, the order of the ids is the order of
    // the header.
    let report = analyze(" type :desc?\n").unwrap();
    let mut shuffled = report.blocks.clone();
    shuffled.reverse();
    shuffled.sort_by(|a, b| {
        if a.precedes(b) {
            std::cmp::Ordering::Less
        } else if b.precedes(a) {
            std::cmp::Ordering::Greater
        } else {
            std::cmp::Ordering::Equal
        }
    });
    assert_eq!(shuffled, report.blocks);
    assert_eq!(
        ids(&report.blocks),
        vec![0, 333, 666, 1000, 2000, 3000, 4000, 5000, 6000]
    );
}

#[test]
fn missing_slot_borrows_the_place_of_its_block() {
    let report = analyze(" fix me").unwrap();
    assert_eq!(ids(&report.blocks), vec![0, 333, 666, 1000, 2000, 3000, 4000]);
    assert_eq!(report.blocks[1].status, Status::Portal(Some(4)));
    assert_eq!(report.blocks[2].status, Status::Missing);
    let paper = report.paper;
    assert_eq!((paper.kind.found_at, paper.kind.missing), (Some(2000), false));
    assert_eq!((paper.colon.found_at, paper.colon.missing), (Some(666), true));
    assert_eq!((paper.colon.missing_nth, paper.colon.missing_total), (1, 1));
    assert_eq!((paper.space.found_at, paper.space.missing), (Some(1000), false));
    assert_eq!((paper.desc.found_at, paper.desc.missing), (Some(3000), false));

    // A description that is missing has no block: it sits half a stride
    // behind the space.
    let report = analyze("fix: ").unwrap();
    assert_eq!(ids(&report.blocks), vec![0, 1000, 2000, 3000]);
    assert_eq!(
        (report.paper.desc.found_at, report.paper.desc.missing),
        (Some(3500), true)
    );
}

#[test]
fn numbers_are_written_in_digits() {
    assert_eq!(to_decimal(0), "0");
    assert_eq!(to_decimal(7), "7");
    assert_eq!(to_decimal(10), "10");
    assert_eq!(to_decimal(1905), "1905");
    assert_eq!(to_decimal(usize::MAX), usize::MAX.to_string());
}

#[test]
fn paper_is_written_in_two_lines() {
    assert_eq!(
        Paper::new().to_string(),
        "paper: -Type(no) -> -Colon(no) -> -Space(no) -> -Desc(no)\n|      -Type(no) -> -Colon(no) -> -Space(no) -> -Desc(no)\n"
    );
    let report = analyze("fix me").unwrap();
    assert_eq!(
        report.paper.to_string(),
        "paper: +Type(1000) -> -Colon(1500) -> +Space(2000) -> +Desc(3000)\n|      +Type(1000) -> -Colon(1500) -> +Space(2000) -> +Desc(3000)\n"
    );
    // A type that was found behind the colon and the space stands behind
    // them in the second line.
    let report = analyze(": fix me").unwrap();
    assert_eq!(
        report.paper.to_string(),
        "paper: +Type(3000) -> +Colon(1000) -> +Space(2000) -> +Desc(4000)\n|      +Colon(1000) -> +Space(2000) -> +Type(3000) -> +Desc(4000)\n"
    );
}

#[test]
fn known_names_are_a_set() {
    let names = |list: &[&str]| list.iter().map(|s| s.to_string()).collect::<Vec<_>>();
    assert!(sven::config::has_no_repeats(&names(&["fix", "feat"])));
    assert!(sven::config::has_no_repeats(&names(&[])));
    assert!(!sven::config::has_no_repeats(&names(&["fix", "feat", "fix"])));
    assert!(sven::config::KnownType::AnyFirstSeq.is_wf());
    assert!(sven::config::KnownType::Strict(names(&["fix"])).is_wf());
    assert!(!sven::config::KnownType::Like(names(&["fix", "fix"])).is_wf());
    // Order and repeats do not change what is listed.
    for text in ["fix", "feat", "fox", "docs"] {
        assert_eq!(
            is_listed(&names(&["fix", "feat"]), text),
            is_listed(&names(&["feat", "fix", "feat"]), text)
        );
        assert_eq!(
            is_nearly_listed(&names(&["fix", "feat"]), text),
            is_nearly_listed(&names(&["feat", "fix", "feat"]), text)
        );
    }
}

#[test]
fn commit_issues_are_told_apart() {
    let issue = sven::conventional_commit::issue::Issue::Type(TypeIssue::NotFound);
    assert_eq!(issue, issue.clone());
    assert!(matches!(
        issue,
        sven::conventional_commit::issue::Issue::Type(TypeIssue::NotFound)
    ));
}

#[test]
fn missing_pencils_share_the_room_up_to_the_next_one_found() {
    let mut paper = Paper::new();
    paper.kind.found_at = Some(1000);
    paper.kind.missing = false;
    paper.desc.found_at = Some(4000);
    paper.desc.missing = false;
    assert!(paper.is_ready());
    paper.build_map();
    assert_eq!(paper.colon.found_at, Some(2000));
    assert_eq!(paper.space.found_at, Some(3000));
    assert_eq!(paper.colon.missing_nth, 1);
    assert_eq!(paper.space.missing_nth, 2);
    assert_eq!(paper.colon.missing_total, 2);
    assert_eq!(paper.desc.found_at, Some(4000));

    // Little room is shared out as it is, rounded down.
    let mut tight = Paper::new();
    tight.kind.found_at = Some(1000);
    tight.kind.missing = false;
    tight.desc.found_at = Some(1010);
    tight.desc.missing = false;
    tight.build_map();
    assert_eq!(tight.colon.found_at, Some(1003));
    assert_eq!(tight.space.found_at, Some(1006));
}

#[test]
fn missing_pencils_have_a_stride_where_nothing_stands_behind_them() {
    let mut paper = Paper::new();
    paper.kind.found_at = Some(1000);
    paper.kind.missing = false;
    paper.build_map();
    assert_eq!(paper.colon.found_at, Some(1250));
    assert_eq!(paper.space.found_at, Some(1500));
    assert_eq!(paper.desc.found_at, Some(1750));

    // The description was found before the type: its id is no bound.
    let mut turned = Paper::new();
    turned.kind.found_at = Some(3000);
    turned.kind.missing = false;
    turned.desc.found_at = Some(1000);
    turned.desc.missing = false;
    assert!(turned.is_ready());
    turned.build_map();
    assert_eq!(turned.colon.found_at, Some(3333));
    assert_eq!(turned.space.found_at, Some(3666));
    assert_eq!(turned.desc.found_at, Some(1000));
}
