use sven::at::At;
use sven::find_issues::find_issues;
use sven::issue::{Issue, IssueData, IssueSubject, Misplaced, Missing};

fn perfect_commit() -> String {
    let text = "\nfix(refs)!: a simple fix\n\nРаз два три\n\nThis test proves utf8 works\n\nRefs: #1001\nBREAKING CHANGE: supports many footers\n";
    text.trim_start().to_string()
}

fn assert_missing(issues: &[Issue], subject: IssueSubject, data: IssueData) {
    match issues.iter().find(|&issue| {
        issue.subject == subject && matches!(issue.data, IssueData::Missing { .. })
    }) {
        Some(actual) => {
            assert_eq!(actual.subject, subject);
            assert_eq!(actual.data, data);
        }
        None => {
            panic!("could not find an expected issue");
        }
    }
}

fn assert_misplaced(issues: &[Issue], subject: IssueSubject, data: IssueData) {
    match issues.iter().find(|&issue| {
        issue.subject == subject && matches!(issue.data, IssueData::Misplaced { .. })
    }) {
        Some(actual) => {
            assert_eq!(actual.subject, subject);
            assert_eq!(actual.data, data);
        }
        None => {
            panic!("could not find an expected issue");
        }
    }
}

#[test]
fn find_issues_perfect_reference_no_issues() {
    let commit = perfect_commit();
    let actual = find_issues(&commit).unwrap();
    assert_eq!(actual, Vec::new());
}

#[test]
fn find_issues_only_eol() {
    let actual = find_issues("\n").unwrap();
    let expected = vec![Issue {
        id: 0,
        subject: IssueSubject::Header,
        data: IssueData::Missing(Missing {
            expected_at: At::start(),
        }),
    }];
    assert_eq!(actual, expected);
}

#[test]
fn find_issues_completely_empty() {
    let actual = find_issues("").unwrap();
    let expected = vec![Issue {
        id: 0,
        subject: IssueSubject::Header,
        data: IssueData::Missing(Missing {
            expected_at: At::start(),
        }),
    }];
    assert_eq!(actual, expected);
}

#[test]
fn find_issues_colon_after_type() {
    let commit = "colon missing after the type \"colon\"\n";
    let actual = find_issues(commit).unwrap();
    assert_missing(
        &actual,
        IssueSubject::Colon,
        IssueData::Missing(Missing {
            expected_at: At::after_token(0),
        }),
    );
}

#[test]
fn find_issues_all_but_colon() {
    let commit = ":\n# no type (no seq at all anywhere)\n# no desc (because no tokens where desc should have started, although initially desc is everything)\n";
    let actual = find_issues(commit).unwrap();
    assert_missing(
        &actual,
        IssueSubject::Type,
        IssueData::Missing(Missing {
            expected_at: At::start(),
        }),
    );
    assert_missing(
        &actual,
        IssueSubject::Space,
        IssueData::Missing(Missing {
            expected_at: At::after_token(0),
        }),
    );
    assert_missing(
        &actual,
        IssueSubject::Desc,
        IssueData::Missing(Missing {
            expected_at: At::after_issue(1),
        }),
    );
}

#[test]
fn find_issues_type_desc() {
    let commit = ": \n# note there is an expected WHITESPACE (\" \") character at the end of the header above\n";
    let actual = find_issues(commit).unwrap();
    assert_missing(
        &actual,
        IssueSubject::Type,
        IssueData::Missing(Missing {
            expected_at: At::start(),
        }),
    );
    assert_missing(
        &actual,
        IssueSubject::Desc,
        IssueData::Missing(Missing {
            expected_at: At::after_token(1),
        }),
    );
}

#[test]
fn find_issues_all_but_space() {
    let commit = " \n";
    let actual = find_issues(commit).unwrap();
    assert_missing(
        &actual,
        IssueSubject::Type,
        IssueData::Missing(Missing {
            expected_at: At::start(),
        }),
    );
    assert_missing(
        &actual,
        IssueSubject::Colon,
        IssueData::Missing(Missing {
            expected_at: At::after_issue(0),
        }),
    );
    assert_missing(
        &actual,
        IssueSubject::Desc,
        IssueData::Missing(Missing {
            expected_at: At::after_token(0),
        }),
    );
}

#[test]
fn find_issues_after_colon() {
    let commit = ":otherwise desc\n";
    let actual = find_issues(commit).unwrap();
    assert_misplaced(
        &actual,
        IssueSubject::Type,
        IssueData::Misplaced(Misplaced {
            expected_at: At::start(),
            found_at: At::exactly_token(1),
        }),
    );
}

#[test]
fn find_issues_after_whitespace() {
    let commit = ": otherwise perfect commit\n";
    let actual = find_issues(commit).unwrap();
    assert_misplaced(
        &actual,
        IssueSubject::Type,
        IssueData::Misplaced(Misplaced {
            expected_at: At::start(),
            found_at: At::exactly_token(2),
        }),
    );

    let commit = "type :desc?\n";
    let actual = find_issues(commit).unwrap();
    assert_misplaced(
        &actual,
        IssueSubject::Colon,
        IssueData::Misplaced(Misplaced {
            expected_at: At::after_token(0),
            found_at: At::exactly_token(2),
        }),
    );
}

#[test]
fn find_issues_before_type() {
    let commit = ":before type clearly\n";
    let actual = find_issues(commit).unwrap();
    assert_misplaced(
        &actual,
        IssueSubject::Colon,
        IssueData::Misplaced(Misplaced {
            expected_at: At::after_token(1),
            found_at: At::exactly_token(0),
        }),
    );
}

#[test]
fn find_issues_after_whitespace_spaced() {
    let commit = " type :desc?\n";
    let actual = find_issues(commit).unwrap();
    assert_misplaced(
        &actual,
        IssueSubject::Colon,
        IssueData::Misplaced(Misplaced {
            expected_at: At::after_token(1),
            found_at: At::exactly_token(3),
        }),
    );
}

#[test]
fn valid_header_has_no_issue() {
    assert_eq!(find_issues("fix: me").unwrap(), Vec::new());
}

#[test]
fn header_without_colon() {
    let expected = vec![Issue {
        id: 0,
        subject: IssueSubject::Colon,
        data: IssueData::Missing(Missing {
            expected_at: At::after_token(0),
        }),
    }];
    assert_eq!(find_issues("fix me").unwrap(), expected);
}

#[test]
fn colon_before_type() {
    let expected = vec![
        Issue {
            id: 0,
            subject: IssueSubject::Type,
            data: IssueData::Misplaced(Misplaced {
                expected_at: At::start(),
                found_at: At::exactly_token(2),
            }),
        },
        Issue {
            id: 1,
            subject: IssueSubject::Colon,
            data: IssueData::Misplaced(Misplaced {
                expected_at: At::after_token(2),
                found_at: At::exactly_token(0),
            }),
        },
    ];
    assert_eq!(find_issues(": fix me").unwrap(), expected);
}

#[test]
fn header_without_space() {
    let expected = vec![Issue {
        id: 0,
        subject: IssueSubject::Space,
        data: IssueData::Missing(Missing {
            expected_at: At::after_token(1),
        }),
    }];
    assert_eq!(find_issues("type:desc").unwrap(), expected);
}
