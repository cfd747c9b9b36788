use sven::at::{At, AtPos, AtTarget};
use sven::block::Block;
use sven::find_header_issues::{
    find_header_issues, issues_of, token_block, token_id, token_of,
};
use sven::issue::{Issue, IssueData, IssueSubject, Misplaced, Missing};
use sven::weak_commit::WeakCommit;

fn with_commit(commit: &str) -> Vec<Issue> {
    let w = WeakCommit::parse(commit).unwrap();
    find_header_issues(&w.header)
}

fn perfect_commit() -> String {
    let text = "\nfix(refs)!: a simple fix\n\nРаз два три\n\nThis test proves utf8 works\n\nRefs: #1001\nBREAKING CHANGE: supports many footers\n";
    text.trim_start().to_string()
}

fn assert_missing(issues: &[Issue], subject: IssueSubject, data: IssueData) {
    match issues.iter().find(|&issue| {
        issue.subject == subject && matches!(issue.data, IssueData::Missing { .. })
    }) {
        Some(actual) => {
            assert_eq!(actual.subject, subject);
            assert_eq!(actual.data, data);
        }
        None => {
            panic!("could not find an expected issue");
        }
    }
}

fn assert_misplaced(issues: &[Issue], subject: IssueSubject, data: IssueData) {
    match issues.iter().find(|&issue| {
        issue.subject == subject && matches!(issue.data, IssueData::Misplaced { .. })
    }) {
        Some(actual) => {
            assert_eq!(actual.subject, subject);
            assert_eq!(actual.data, data);
        }
        None => {
            panic!("could not find an expected issue");
        }
    }
}

#[test]
fn find_header_issues_perfect_reference_no_issues() {
    let commit = perfect_commit();
    let actual = with_commit(&commit);
    assert_eq!(actual, Vec::new());
}

#[test]
fn find_header_issues_only_eol() {
    let actual = with_commit("\n");
    let expected = vec![Issue {
        id: 0,
        subject: IssueSubject::Header,
        data: IssueData::Missing(Missing {
            expected_at: At::start(),
        }),
    }];
    assert_eq!(actual, expected);
}

#[test]
fn find_header_issues_completely_empty() {
    let actual = with_commit("");
    let expected = vec![Issue {
        id: 0,
        subject: IssueSubject::Header,
        data: IssueData::Missing(Missing {
            expected_at: At::start(),
        }),
    }];
    assert_eq!(actual, expected);
}

#[test]
fn find_header_issues_colon_after_type() {
    let commit = "colon missing after the type \"colon\"\n";
    let actual = with_commit(commit);
    assert_missing(
        &actual,
        IssueSubject::Colon,
        IssueData::Missing(Missing {
            expected_at: At::after_token(0),
        }),
    );
}

#[test]
fn find_header_issues_all_but_colon() {
    let commit = ":\n# no type (no seq at all anywhere)\n# no desc (because no tokens where desc should have started, although initially desc is everything)\n";
    let actual = with_commit(commit);
    assert_missing(
        &actual,
        IssueSubject::Type,
        IssueData::Missing(Missing {
            expected_at: At::start(),
        }),
    );
    assert_missing(
        &actual,
        IssueSubject::Space,
        IssueData::Missing(Missing {
            expected_at: At::after_token(0),
        }),
    );
    assert_missing(
        &actual,
        IssueSubject::Desc,
        IssueData::Missing(Missing {
            expected_at: At::after_issue(1),
        }),
    );
}

#[test]
fn find_header_issues_type_desc() {
    let commit = ": \n# note there is an expected WHITESPACE (\" \") character at the end of the header above\n";
    let actual = with_commit(commit);
    assert_missing(
        &actual,
        IssueSubject::Type,
        IssueData::Missing(Missing {
            expected_at: At::start(),
        }),
    );
    assert_missing(
        &actual,
        IssueSubject::Desc,
        IssueData::Missing(Missing {
            expected_at: At::after_token(1),
        }),
    );
}

#[test]
fn find_header_issues_all_but_space() {
    let commit = " \n";
    let actual = with_commit(commit);
    assert_missing(
        &actual,
        IssueSubject::Type,
        IssueData::Missing(Missing {
            expected_at: At::start(),
        }),
    );
    assert_missing(
        &actual,
        IssueSubject::Colon,
        IssueData::Missing(Missing {
            expected_at: At::after_issue(0),
        }),
    );
    assert_missing(
        &actual,
        IssueSubject::Desc,
        IssueData::Missing(Missing {
            expected_at: At::after_token(0),
        }),
    );
}

#[test]
fn find_header_issues_after_colon() {
    let commit = ":otherwise desc\n";
    let actual = with_commit(commit);
    assert_misplaced(
        &actual,
        IssueSubject::Type,
        IssueData::Misplaced(Misplaced {
            expected_at: At::start(),
            found_at: At::exactly_token(1),
        }),
    );
}

#[test]
fn find_header_issues_after_whitespace() {
    let commit = ": otherwise perfect commit\n";
    let actual = with_commit(commit);
    assert_misplaced(
        &actual,
        IssueSubject::Type,
        IssueData::Misplaced(Misplaced {
            expected_at: At::start(),
            found_at: At::exactly_token(2),
        }),
    );

    let commit = "type :desc?\n";
    let actual = with_commit(commit);
    assert_misplaced(
        &actual,
        IssueSubject::Colon,
        IssueData::Misplaced(Misplaced {
            expected_at: At::after_token(0),
            found_at: At::exactly_token(2),
        }),
    );
}

#[test]
fn find_header_issues_before_type() {
    let commit = ":before type clearly\n";
    let actual = with_commit(commit);
    assert_misplaced(
        &actual,
        IssueSubject::Colon,
        IssueData::Misplaced(Misplaced {
            expected_at: At::after_token(1),
            found_at: At::exactly_token(0),
        }),
    );
}

#[test]
fn find_header_issues_after_whitespace_spaced() {
    let commit = " type :desc?\n";
    let actual = with_commit(commit);
    assert_misplaced(
        &actual,
        IssueSubject::Colon,
        IssueData::Misplaced(Misplaced {
            expected_at: At::after_token(1),
            found_at: At::exactly_token(3),
        }),
    );
}

#[test]
fn blocks_without_a_root_have_no_header() {
    let blocks: Vec<Block> = Vec::new();
    let expected = vec![Issue {
        id: 0,
        subject: IssueSubject::Header,
        data: IssueData::Missing(Missing {
            expected_at: At {
                pos: AtPos::Exactly,
                target: AtTarget::Root,
            },
        }),
    }];
    assert_eq!(find_header_issues(&blocks), expected);
    assert_eq!(issues_of(&blocks), expected);
    assert_eq!(find_header_issues(&[Block::root()]), expected);
}

#[test]
fn missing_slots_chain_through_their_issues() {
    // Nothing but a word: the colon, the space and the description are
    // missing, each expected behind the one before.
    let expected = vec![
        Issue {
            id: 0,
            subject: IssueSubject::Colon,
            data: IssueData::Missing(Missing {
                expected_at: At::after_token(0),
            }),
        },
        Issue {
            id: 1,
            subject: IssueSubject::Space,
            data: IssueData::Missing(Missing {
                expected_at: At::after_issue(0),
            }),
        },
        Issue {
            id: 2,
            subject: IssueSubject::Desc,
            data: IssueData::Missing(Missing {
                expected_at: At::after_issue(1),
            }),
        },
    ];
    assert_eq!(with_commit("fix"), expected);
    assert_eq!(with_commit("fix\n"), expected);
}

#[test]
fn slot_before_a_moved_one_is_misplaced_too() {
    let expected = vec![
        Issue {
            id: 0,
            subject: IssueSubject::Colon,
            data: IssueData::Misplaced(Misplaced {
                expected_at: At::after_token(0),
                found_at: At::exactly_token(2),
            }),
        },
        Issue {
            id: 1,
            subject: IssueSubject::Space,
            data: IssueData::Misplaced(Misplaced {
                expected_at: At::after_token(2),
                found_at: At::exactly_token(1),
            }),
        },
    ];
    assert_eq!(with_commit("type :desc?\n"), expected);
}

#[test]
fn settled_header_without_description_misses_it() {
    let expected = vec![Issue {
        id: 0,
        subject: IssueSubject::Desc,
        data: IssueData::Missing(Missing {
            expected_at: At::after_token(2),
        }),
    }];
    assert_eq!(with_commit("fix: "), expected);
    assert_eq!(with_commit("fix: \n"), expected);
}

#[test]
fn issues_name_places_that_exist() {
    for commit in [
        "",
        "\n",
        "fix me",
        ": fix me",
        "type:desc",
        " type :desc?\n",
        ":before type clearly\n",
        "::",
        " ",
        "a b : c : d",
    ] {
        let w = WeakCommit::parse(commit).unwrap();
        let tokens = w.header.len().saturating_sub(1);
        let issues = find_header_issues(&w.header);
        for (k, issue) in issues.iter().enumerate() {
            assert_eq!(issue.id, k);
            let places = match issue.data {
                IssueData::Missing(m) => vec![m.expected_at],
                IssueData::Misplaced(m) => vec![m.expected_at, m.found_at],
            };
            for place in places {
                match place.target {
                    AtTarget::Root => {}
                    AtTarget::Token(token) => assert!(token < tokens),
                    AtTarget::Issue(issue) => assert!(issue < k),
                }
            }
        }
    }
}

#[test]
fn header_without_any_slot_but_with_tokens_misses_all_four() {
    let missing = |id: usize, subject: IssueSubject, expected_at: At| Issue {
        id,
        subject,
        data: IssueData::Missing(Missing { expected_at }),
    };
    let expected = vec![
        missing(0, IssueSubject::Type, At::start()),
        missing(1, IssueSubject::Colon, At::after_issue(0)),
        missing(2, IssueSubject::Space, At::after_issue(1)),
        missing(3, IssueSubject::Desc, At::after_issue(2)),
    ];
    assert_eq!(with_commit("(a"), expected);
    assert_eq!(with_commit("!"), expected);
    assert_eq!(with_commit("!\n"), expected);
}

#[test]
fn tokens_are_named_by_number_and_carry_ids() {
    // The number of a token and the id of its block.
    assert_eq!(token_id(0), Some(1000));
    assert_eq!(token_id(3), Some(4000));
    assert_eq!(token_id(usize::MAX / 1000 - 1), Some(usize::MAX / 1000 * 1000));
    assert_eq!(token_id(usize::MAX / 1000), None);
    assert_eq!(token_of(1000), Some(0));
    assert_eq!(token_of(4000), Some(3));
    assert_eq!(token_of(0), None);
    assert_eq!(token_of(1500), None);
    assert_eq!(token_of(999), None);

    // In the header token n is the block n + 1.
    let commit = ": fix me";
    let header = WeakCommit::parse(commit).unwrap().header;
    for n in 0..5 {
        assert_eq!(token_block(&header, n), Some(n + 1));
        assert_eq!(header[n + 1].id, token_id(n));
    }
    assert_eq!(token_block(&header, 5), None);

    // In a layout the made-up blocks are passed over: the issues of
    // `": fix me"` name the tokens 2 and 0, the word and the colon.
    let config = sven::config::Config {
        known_type: sven::config::KnownType::AnyFirstSeq,
    };
    let layout = sven::analyze_header::analyze_header(commit, &config, header.clone());
    assert_eq!(layout.len(), 7);
    let word = token_block(&layout, 2).unwrap();
    assert_eq!(word, 4);
    assert_eq!(layout[word].capture(commit), Some("fix"));
    assert_eq!(layout[word].id, token_id(2));
    assert_eq!(layout[word].id.and_then(token_of), Some(2));
    let colon = token_block(&layout, 0).unwrap();
    assert_eq!(colon, 2);
    assert_eq!(layout[colon].capture(commit), Some(":"));
    assert_eq!(token_block(&layout, 5), None);
    assert_eq!(token_block(&Vec::new(), 0), None);
}
