use sven::analyze_header::{
    analyze_header, find_solutions, is_type, pick_solution, weigh, Candidate, Portal, Portals,
};
use sven::block::{Block, Status, Val};
use sven::block_factory::BlockFactory;
use sven::bytes::Bytes;
use sven::config::{Config, KnownType};
use sven::domain::{Domain, Scope};
use sven::weak_commit::WeakCommit;

fn with_commit(config: &Config, commit: &str) -> Vec<Block> {
    let w = WeakCommit::parse(commit).unwrap();
    analyze_header(commit, config, w.header)
}

fn strict_fix() -> Config {
    Config {
        known_type: KnownType::Strict(vec!["fix".to_string()]),
    }
}

fn any_word() -> Config {
    Config {
        known_type: KnownType::AnyFirstSeq,
    }
}

fn all_solutions(config: &Config, commit: &str) -> Vec<Candidate> {
    let w = WeakCommit::parse(commit).unwrap();
    let mut all = Vec::new();
    find_solutions(commit, config, w.header, &mut all);
    all
}

#[test]
fn analyze_header_it_works() {
    let blocks = with_commit(&strict_fix(), " :not me");

    let f = {
        let mut f = BlockFactory::new();
        f.kind_missing().colon_misplaced().space().colon_ref();
        f
    };

    assert_eq!(f.blocks, blocks[..f.end_blocks]);
}

#[test]
fn just_colon_is_missing_when_type_is_first_seq() {
    let blocks = with_commit(&any_word(), "one two three");

    let f = {
        let mut f = BlockFactory::new();
        f.kind("one").colon_missing().space();
        f
    };

    assert_eq!(f.blocks, blocks[..f.end_blocks]);
}

#[test]
fn just_colon_is_missing_when_type_is_known() {
    let blocks = with_commit(&strict_fix(), "fix two three");

    let f = {
        let mut f = BlockFactory::new();
        f.kind("fix").colon_missing().space();
        f
    };

    assert_eq!(f.blocks, blocks[..f.end_blocks]);
}

#[test]
fn only_desc_found_when_could_not_find_type() {
    let blocks = with_commit(&strict_fix(), "one two three");

    let f = {
        let mut f = BlockFactory::new();
        f.kind_missing().colon_missing().space_missing();
        f
    };

    assert_eq!(f.blocks, blocks[..f.end_blocks]);
}

#[test]
fn valid_header_is_settled_in_full() {
    let blocks = with_commit(&any_word(), "fix: me");
    let f = {
        let mut f = BlockFactory::new();
        f.kind("fix").colon().space().desc("me");
        f
    };
    assert_eq!(f.blocks, blocks);
}

#[test]
fn scope_and_mark_are_settled_between_type_and_colon() {
    let blocks = with_commit(&any_word(), "fix(app)!: me\n");
    let domains: Vec<Domain> = blocks.iter().map(|b| b.domain).collect();
    assert_eq!(
        domains,
        vec![
            Domain::Root,
            Domain::Type,
            Domain::Scope(Scope::OpenBracket),
            Domain::Scope(Scope::Scope),
            Domain::Scope(Scope::CloseBracket),
            Domain::Breaking,
            Domain::Colon,
            Domain::Space,
            Domain::Desc,
            Domain::Desc,
        ]
    );
    assert!(blocks.iter().all(|b| b.status == Status::Settled));
    assert_eq!(blocks[9].val, Val::EOL);
}

#[test]
fn open_scope_is_completed_where_it_stands() {
    let blocks = with_commit(&any_word(), "fix(: me");
    let f = {
        let mut f = BlockFactory::new();
        f.kind("fix")
            .scope_ob()
            .scope_val_missing()
            .scope_cb_missing()
            .colon()
            .space()
            .desc("me");
        f
    };
    assert_eq!(f.blocks, blocks);
}

#[test]
fn header_that_stops_early_gets_the_rest_made_up() {
    let blocks = with_commit(&any_word(), "fix");
    let f = {
        let mut f = BlockFactory::new();
        f.kind("fix").colon_missing().space_missing();
        f
    };
    assert_eq!(f.blocks, blocks);
}

#[test]
fn no_blocks_no_layout() {
    assert_eq!(analyze_header("", &any_word(), Vec::new()), Vec::new());
    let mut all = Vec::new();
    find_solutions("", &any_word(), Vec::new(), &mut all);
    assert!(all.is_empty());
}

#[test]
fn search_order_and_weights() {
    // The type: missing or elsewhere. The colon and the space are in place.
    let all = all_solutions(&any_word(), ": fix me");
    assert_eq!(all.len(), 2);
    assert_eq!(all[0].weight, 1);
    assert_eq!(all[0].solution[1].status, Status::Missing);
    assert_eq!(all[1].weight, 1);
    assert_eq!(all[1].solution[1].status, Status::Portal(Some(4)));
    assert_eq!(all[1].solution[4].status, Status::Ref(1));
    assert_eq!(all[1].solution[4].domain, Domain::Type);
    // A word behind the type that was found elsewhere is description.
    assert_eq!(all[1].solution[6].status, Status::Settled);
    assert_eq!(all[1].solution[6].domain, Domain::Desc);
}

#[test]
fn second_space_behind_a_connected_portal_is_surplus() {
    let all = all_solutions(&strict_fix(), "one two three");
    // Only the candidates in which every portal found its token are there.
    assert_eq!(all.len(), 2);
    assert_eq!(all[0].weight, 3);
    assert_eq!(all[1].weight, 4);
    let with_portal = &all[1].solution;
    assert_eq!(with_portal[3].status, Status::Portal(Some(5)));
    assert_eq!(with_portal[5].status, Status::Ref(3));
    assert_eq!(with_portal[7].status, Status::Extra);
    assert_eq!(with_portal[7].domain, Domain::Space);
    assert_eq!(with_portal[7].bytes, Some(Bytes::new(7, 8)));
}

#[test]
fn every_portal_has_its_token() {
    for commit in [
        "fix: me",
        ": fix me",
        " type :desc?\n",
        ":before type clearly\n",
        "a b : c : d",
        "::  ::",
        "fix(app: me",
    ] {
        for config in [any_word(), strict_fix()] {
            for candidate in all_solutions(&config, commit) {
                let blocks = &candidate.solution;
                let mut cost = 0;
                for (j, block) in blocks.iter().enumerate() {
                    match block.status {
                        Status::Unsigned => panic!("unsigned block in {:?}", commit),
                        Status::Portal(to) => {
                            cost += 1;
                            let to = to.expect("portal without a token");
                            assert_eq!(blocks[to].status, Status::Ref(j));
                        }
                        Status::Ref(from) => {
                            assert_eq!(blocks[from].status, Status::Portal(Some(j)));
                        }
                        Status::Missing | Status::Extra => cost += 1,
                        Status::Settled => {}
                    }
                }
                assert_eq!(candidate.weight, cost);
                assert_eq!(weigh(blocks), cost);
                assert_eq!(blocks[0], Block::root());
            }
        }
    }
}

#[test]
fn settled_blocks_stand_in_the_order_of_the_grammar() {
    for commit in ["fix(app)!: me", ": fix me", " type :desc?\n", "a b : c : d"] {
        for candidate in all_solutions(&any_word(), commit) {
            let settled: Vec<Domain> = candidate
                .solution
                .iter()
                .filter(|b| b.status == Status::Settled)
                .map(|b| b.domain)
                .collect();
            assert!(settled.windows(2).all(|w| w[0] <= w[1]));
        }
    }
}

#[test]
fn least_weight_then_most_portals_then_first_found() {
    let block = |id: usize| Block {
        id: Some(id),
        ..Block::root()
    };
    let candidate = |weight: usize, id: usize| Candidate {
        weight,
        solution: vec![block(id)],
    };
    assert_eq!(pick_solution(Vec::new()), Vec::new());
    assert_eq!(pick_solution(vec![candidate(3, 1)]), vec![block(1)]);
    assert_eq!(
        pick_solution(vec![candidate(3, 1), candidate(2, 2), candidate(4, 3)]),
        vec![block(2)]
    );
    // Of equals the first.
    assert_eq!(
        pick_solution(vec![
            candidate(2, 1),
            candidate(1, 2),
            candidate(1, 3),
            candidate(2, 4)
        ]),
        vec![block(2)]
    );
    let missing_colon = {
        let mut f = BlockFactory::new();
        f.colon_missing();
        f.blocks
    };
    let missing_space = {
        let mut f = BlockFactory::new();
        f.space_missing();
        f.blocks
    };
    let all = vec![
        Candidate {
            weight: 2,
            solution: vec![Block::root()],
        },
        Candidate {
            weight: 1,
            solution: missing_colon.clone(),
        },
        Candidate {
            weight: 1,
            solution: missing_space,
        },
    ];
    assert_eq!(pick_solution(all), missing_colon);
    // Of those that weigh the same, the one with most portals, wherever it
    // was found.
    let with_portal = {
        let mut f = BlockFactory::new();
        f.colon_misplaced().space().colon_ref();
        f.blocks
    };
    let without = {
        let mut f = BlockFactory::new();
        f.colon_missing().space();
        f.blocks
    };
    for all in [
        vec![without.clone(), with_portal.clone(), without.clone()],
        vec![with_portal.clone(), without.clone()],
        vec![without.clone(), without.clone(), with_portal.clone()],
    ] {
        let all = all
            .into_iter()
            .map(|solution| Candidate {
                weight: 1,
                solution,
            })
            .collect();
        assert_eq!(pick_solution(all), with_portal);
    }
    // A lighter candidate wins against any number of portals.
    let all = vec![
        Candidate {
            weight: 1,
            solution: with_portal,
        },
        Candidate {
            weight: 0,
            solution: vec![Block::root()],
        },
    ];
    assert_eq!(pick_solution(all), vec![Block::root()]);
}

#[test]
fn settled_header_stays_as_it_is() {
    for config in [any_word(), strict_fix()] {
        for commit in ["fix: me", "fix(app)!: me and you\n", "fix: a: b"] {
            let once = with_commit(&config, commit);
            assert!(once.iter().all(|b| b.status == Status::Settled));
            let mut all = Vec::new();
            find_solutions(commit, &config, once.clone(), &mut all);
            assert_eq!(all.len(), 1);
            assert_eq!(all[0].weight, 0);
            assert_eq!(all[0].solution, once);
            assert_eq!(analyze_header(commit, &config, once.clone()), once);
            assert_eq!(sven::find_header_issues::issues_of(&once), Vec::new());
        }
    }
}

#[test]
fn any_word_is_a_type() {
    let word = Block {
        id: Some(1000),
        val: Val::Word,
        domain: Domain::Nil,
        bytes: Some(Bytes::new(0, 3)),
        status: Status::Unsigned,
    };
    let colon = Block {
        val: Val::Colon,
        bytes: Some(Bytes::new(3, 4)),
        ..word
    };
    assert!(is_type(&KnownType::AnyFirstSeq, &word, "fix:"));
    assert!(!is_type(&KnownType::AnyFirstSeq, &colon, "fix:"));
}

#[test]
fn strict_type_is_a_listed_one_or_one_resolved_already() {
    let names = KnownType::Strict(vec!["feat".to_string(), "fix".to_string()]);
    let word = Block {
        id: Some(1000),
        val: Val::Word,
        domain: Domain::Nil,
        bytes: Some(Bytes::new(0, 3)),
        status: Status::Unsigned,
    };
    assert!(is_type(&names, &word, "fix: me"));
    assert!(!is_type(&names, &word, "fox: me"));
    assert!(!is_type(&names, &word, "fi"));
    let resolved = Block {
        domain: Domain::Type,
        ..word
    };
    assert!(is_type(&names, &resolved, "fox: me"));
    let made_up = Block {
        bytes: None,
        ..word
    };
    assert!(!is_type(&names, &made_up, "fix: me"));
}

#[test]
fn like_type_is_one_slip_away_at_most() {
    let names = KnownType::Like(vec!["feat".to_string(), "fix".to_string()]);
    let word = |len: usize| Block {
        id: Some(1000),
        val: Val::Word,
        domain: Domain::Nil,
        bytes: Some(Bytes::new(0, len)),
        status: Status::Unsigned,
    };
    assert!(is_type(&names, &word(3), "fix"));
    assert!(is_type(&names, &word(3), "fox"));
    assert!(is_type(&names, &word(2), "fx"));
    assert!(is_type(&names, &word(4), "fixx"));
    assert!(is_type(&names, &word(4), "ffix"));
    assert!(is_type(&names, &word(3), "fea"));
    assert!(is_type(&names, &word(5), "feast"));
    assert!(!is_type(&names, &word(3), "fxi"));
    assert!(!is_type(&names, &word(5), "fixes"));
    assert!(!is_type(&names, &word(1), "f"));
    assert!(!is_type(&names, &word(4), "foot"));
}

#[test]
fn like_header_is_laid_out_with_the_near_type() {
    let config = Config {
        known_type: KnownType::Like(vec!["fix".to_string()]),
    };
    let blocks = with_commit(&config, "fox: me");
    assert!(blocks.iter().all(|b| b.status == Status::Settled));
    let blocks = with_commit(&config, "wolf: me");
    assert_eq!(blocks[1].status, Status::Missing);
}

#[test]
fn portals_know_whether_they_are_connected() {
    let open = Portal {
        found_at: 2,
        pointing_at: None,
    };
    let closed = Portal {
        found_at: 2,
        pointing_at: Some(4),
    };
    assert!(!open.is_connected());
    assert!(closed.is_connected());
    let mut portals = Portals::default();
    assert!(portals.is_empty());
    assert!(!portals.is_dangling());
    portals.put(Domain::Colon, open);
    assert!(!portals.is_empty());
    assert!(portals.is_dangling());
    assert_eq!(portals.get(Domain::Colon), Some(open));
    assert_eq!(portals.get(Domain::Space), None);
    portals.put(Domain::Colon, closed);
    assert!(!portals.is_dangling());
    portals.put(Domain::Desc, open);
    assert_eq!(portals.get(Domain::Desc), None);
}

#[test]
fn weight_counts_missing_surplus_and_portals() {
    let f = {
        let mut f = BlockFactory::new();
        f.kind_missing()
            .colon_misplaced()
            .space()
            .colon_ref()
            .space_extra()
            .desc("me")
            .desc_missing();
        f
    };
    // One missing type, one portal with its token, one surplus space, one
    // missing description.
    assert_eq!(weigh(&f.blocks), 4);
    assert_eq!(weigh(&vec![Block::root()]), 0);
    assert_eq!(weigh(&Vec::new()), 0);
}

#[test]
fn defaults_are_empty() {
    assert_eq!(
        Portal::default(),
        Portal {
            found_at: 0,
            pointing_at: None
        }
    );
    assert_eq!(
        Candidate::default(),
        Candidate {
            weight: 0,
            solution: Vec::new()
        }
    );
    assert!(Portals::default().is_empty());
}

#[test]
fn root_is_first_and_alone_in_its_slot() {
    for commit in ["fix: me", ": fix me", " type :desc?\n", "fix", "(a", "::", "\n"] {
        for config in [any_word(), strict_fix()] {
            for candidate in all_solutions(&config, commit) {
                let blocks = &candidate.solution;
                assert_eq!(blocks[0], Block::root());
                for block in &blocks[1..] {
                    assert_ne!(block.domain, Domain::Root);
                    assert_ne!(block.domain, Domain::Nil);
                    if block.domain == Domain::Desc {
                        assert_eq!(block.status, Status::Settled);
                    }
                }
            }
        }
    }
}

#[test]
fn factory_keeps_its_portals_by_the_place_of_their_slot() {
    let mut f = BlockFactory::new();
    assert!(f.portals.is_empty());
    f.kind("fix").colon_misplaced();
    assert_eq!(f.portals.get(&Domain::Colon.position()), Some(&2));
    assert_eq!(f.portals.len(), 1);
    f.space().colon_ref();
    assert_eq!(f.blocks[2].status, Status::Portal(Some(4)));
    assert_eq!(f.blocks[4].status, Status::Ref(2));
}

fn bearing(blocks: &[Block]) -> Vec<(Option<usize>, Val, Option<Bytes>)> {
    blocks
        .iter()
        .skip(1)
        .filter(|b| b.bytes.is_some())
        .map(|b| (b.id, b.val, b.bytes))
        .collect()
}

fn made_up(blocks: &[Block]) -> usize {
    blocks
        .iter()
        .skip(1)
        .filter(|b| {
            b.bytes.is_none() || matches!(b.status, Status::Missing | Status::Portal(_))
        })
        .count()
}

#[test]
fn made_up_colon_stays_missing_when_laid_out_again() {
    for config in [any_word(), strict_fix()] {
        let once = with_commit(&config, "fix me");
        assert_eq!(once.len(), 5);
        assert_eq!(once[2].status, Status::Missing);
        assert_eq!(once[2].domain, Domain::Colon);
        assert_eq!(once[2].bytes, None);
        let mut all = Vec::new();
        find_solutions("fix me", &config, once.clone(), &mut all);
        assert_eq!(all.len(), 1);
        assert_eq!(all[0].weight, 1);
        assert_eq!(all[0].solution, once);
        assert_eq!(analyze_header("fix me", &config, once.clone()), once);
    }
}

#[test]
fn made_up_portal_finds_its_token_anew() {
    let config = strict_fix();
    let commit = " :not me";
    let once = with_commit(&config, commit);
    assert_eq!(once[1].status, Status::Missing);
    assert_eq!(once[2].status, Status::Portal(Some(4)));
    assert_eq!(once[4].status, Status::Ref(2));
    let mut all = Vec::new();
    find_solutions(commit, &config, once.clone(), &mut all);
    assert_eq!(all.len(), 1);
    assert_eq!(all[0].weight, 2);
    assert_eq!(all[0].solution, once);
    assert_eq!(analyze_header(commit, &config, once.clone()), once);
}

#[test]
fn portal_that_comes_without_its_token_gives_no_layout() {
    let f = {
        let mut f = BlockFactory::new();
        f.kind("fix").colon_misplaced().space().desc("me");
        f
    };
    let mut all = Vec::new();
    find_solutions("fix me", &any_word(), f.blocks.clone(), &mut all);
    assert!(all.is_empty());
    assert_eq!(analyze_header("fix me", &any_word(), f.blocks), Vec::new());
}

#[test]
fn candidates_carry_the_blocks_that_came() {
    for commit in [
        "fix me",
        ": fix me",
        " :not me",
        " type :desc?\n",
        "a b : c : d",
        "::  ::",
        "fix(app: me",
        "one two three",
    ] {
        for config in [any_word(), strict_fix()] {
            let tokens = WeakCommit::parse(commit).unwrap().header;
            let once = analyze_header(commit, &config, tokens.clone());
            assert_eq!(bearing(&once), bearing(&tokens));
            let mut all = Vec::new();
            find_solutions(commit, &config, once.clone(), &mut all);
            for candidate in &all {
                let blocks = &candidate.solution;
                assert_eq!(bearing(blocks), bearing(&once));
                for block in blocks.iter().skip(1) {
                    if block.bytes.is_none() {
                        assert!(matches!(
                            block.status,
                            Status::Missing | Status::Portal(Some(_))
                        ));
                    }
                }
                assert!(candidate.weight >= made_up(&once));
            }
        }
    }
}

#[test]
fn made_up_block_is_never_taken_for_a_token() {
    let root = Block::root();
    let space = Block {
        id: None,
        val: Val::Space,
        domain: Domain::Space,
        bytes: None,
        status: Status::Missing,
    };
    let fix = Block {
        id: Some(1000),
        val: Val::Word,
        domain: Domain::Nil,
        bytes: Some(Bytes::new(0, 3)),
        status: Status::Unsigned,
    };
    // The space stands for its slot; the type and the colon before it are
    // made up, and the word is found behind them.
    let mut all = Vec::new();
    find_solutions("fix", &any_word(), vec![root, space, fix], &mut all);
    assert_eq!(all.len(), 2);
    for candidate in &all {
        assert_eq!(candidate.weight, 3);
        assert_eq!(candidate.solution.len(), 5);
        assert_eq!(candidate.solution[2].status, Status::Missing);
        assert_eq!(candidate.solution[2].domain, Domain::Colon);
        assert_eq!(candidate.solution[3], space);
        assert_eq!(candidate.solution[4].bytes, Some(Bytes::new(0, 3)));
    }
    assert_eq!(all[0].solution[1].status, Status::Missing);
    assert_eq!(all[0].solution[4].status, Status::Settled);
    assert_eq!(all[0].solution[4].domain, Domain::Desc);
    assert_eq!(all[1].solution[1].status, Status::Portal(Some(4)));
    assert_eq!(all[1].solution[4].status, Status::Ref(1));

    // A settled block without bytes is made up too: it is missing.
    let colon = Block {
        id: None,
        val: Val::Colon,
        domain: Domain::Colon,
        bytes: None,
        status: Status::Settled,
    };
    let mut all = Vec::new();
    find_solutions("fix", &any_word(), vec![root, fix, colon], &mut all);
    assert!(!all.is_empty());
    for candidate in &all {
        assert_eq!(candidate.solution[2].status, Status::Missing);
        assert_eq!(candidate.solution[2].domain, Domain::Colon);
        assert!(candidate.weight >= 1);
    }
}

#[test]
fn made_up_block_left_over_is_missing_in_its_slot() {
    let tokens = WeakCommit::parse("fix: me").unwrap().header;
    let colon = Block {
        id: None,
        val: Val::Colon,
        domain: Domain::Colon,
        bytes: None,
        status: Status::Portal(None),
    };
    let stray = Block {
        id: None,
        val: Val::Word,
        domain: Domain::Nil,
        bytes: None,
        status: Status::Missing,
    };
    let mut input = tokens.clone();
    input.push(colon);
    input.push(stray);
    let mut all = Vec::new();
    find_solutions("fix: me", &any_word(), input, &mut all);
    assert_eq!(all.len(), 1);
    assert_eq!(all[0].weight, 2);
    let blocks = &all[0].solution;
    assert_eq!(blocks.len(), tokens.len() + 2);
    for block in &blocks[..tokens.len()] {
        assert_eq!(block.status, Status::Settled);
    }
    assert_eq!(blocks[tokens.len()].status, Status::Missing);
    assert_eq!(blocks[tokens.len()].domain, Domain::Colon);
    assert_eq!(blocks[tokens.len() + 1].status, Status::Missing);
    assert_eq!(blocks[tokens.len() + 1].domain, Domain::Desc);
}

#[test]
fn layout_laid_out_again_stays_as_it_is() {
    for commit in [
        "fix: me",
        "fix me",
        ": fix me",
        " :not me",
        "type:desc",
        " type :desc?\n",
        ":before type clearly\n",
        "a b : c : d",
        "::  ::",
        "fix(app: me",
        "fix(app)!: me",
        "one two three",
        "(",
        "!",
        "\n",
    ] {
        for config in [any_word(), strict_fix()] {
            let once = with_commit(&config, commit);
            assert!(!once.is_empty());
            let again = analyze_header(commit, &config, once.clone());
            assert_eq!(again, once, "{:?}", commit);
            assert_eq!(weigh(&again), weigh(&once));
        }
    }
}
