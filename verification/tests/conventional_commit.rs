use sven::conventional_commit::footer::CommitFooter;
use sven::conventional_commit::header::CommitHeader;
use sven::conventional_commit::ConventionalCommit;
use sven::subject::Subject;

fn simple_fix<'c>() -> CommitHeader<'c> {
    CommitHeader {
        kind: "fix",
        scope: None,
        desc: "a simple fix",
        breaking_change: false,
    }
}

fn check_display_header() {
    let actual = ConventionalCommit {
        header: simple_fix(),
        body: None,
        footers: &[],
    };
    let expected = "fix: a simple fix\n";
    assert_eq!(actual.to_string(), expected);
}

fn check_display_header_body() {
    let body = String::from("Very simple commit body message");
    let actual = ConventionalCommit {
        header: simple_fix(),
        body: Some(&body),
        footers: &[],
    };
    let expected = "fix: a simple fix\n\nVery simple commit body message\n";
    assert_eq!(actual.to_string(), expected);
}

fn check_display_header_body_footer() {
    let body = String::from("Very simple commit body message");
    let actual = ConventionalCommit {
        header: simple_fix(),
        body: Some(&body),
        footers: &[CommitFooter::Simple("Refs", "#1001")],
    };
    let expected = "fix: a simple fix\n\nVery simple commit body message\n\nRefs: #1001\n";
    assert_eq!(actual.to_string(), expected);
}

fn check_display_header_footer() {
    let actual = ConventionalCommit {
        header: simple_fix(),
        body: None,
        footers: &[CommitFooter::Simple("Refs", "#1001")],
    };
    let expected = "fix: a simple fix\n\nRefs: #1001\n";
    assert_eq!(actual.to_string(), expected);
}

fn check_display_header_many_footer() {
    let actual = ConventionalCommit {
        header: simple_fix(),
        body: None,
        footers: &[
            CommitFooter::Simple("Refs", "#1001"),
            CommitFooter::BreakingChange("supports many footers"),
        ],
    };
    let expected =
        "fix: a simple fix\n\nRefs: #1001\nBREAKING CHANGE: supports many footers\n";
    assert_eq!(actual.to_string(), expected);
}

fn check_display_header_many_body_many_footer() {
    let body = String::from("Раз два три\n\nThis test proves utf8 works");
    let actual = ConventionalCommit {
        header: simple_fix(),
        body: Some(&body),
        footers: &[
            CommitFooter::Simple("Refs", "#1001"),
            CommitFooter::BreakingChange("supports many footers"),
        ],
    };
    let expected = "fix: a simple fix\n\nРаз два три\n\nThis test proves utf8 works\n\nRefs: #1001\nBREAKING CHANGE: supports many footers\n";
    assert_eq!(actual.to_string(), expected);
}

fn check_header_display() {
    let actual = CommitHeader {
        kind: "fix",
        scope: None,
        breaking_change: false,
        desc: "a simple fix",
    };
    let expected = "fix: a simple fix";
    assert_eq!(actual.to_string(), expected);
}

fn check_header_display_scope() {
    let actual = CommitHeader {
        kind: "fix",
        scope: Some("color"),
        breaking_change: false,
        desc: "account for the shadows",
    };
    let expected = "fix(color): account for the shadows";
    assert_eq!(actual.to_string(), expected);
}

fn check_header_display_breaking_change() {
    let actual = CommitHeader {
        kind: "feat",
        scope: None,
        breaking_change: true,
        desc: "enable new feature",
    };
    let expected = "feat!: enable new feature";
    assert_eq!(actual.to_string(), expected);
}

fn check_header_display_breaking_change_and_scope() {
    let actual = CommitHeader {
        kind: "feat",
        scope: Some("wallet"),
        breaking_change: true,
        desc: "require set of keys",
    };
    let expected = "feat(wallet)!: require set of keys";
    assert_eq!(actual.to_string(), expected);
}

fn check_footer_display() {
    let actual = CommitFooter::Simple("Refs", "#1001");
    let expected = "Refs: #1001";
    assert_eq!(actual.to_string(), expected);
}

fn check_footer_display_breaking_change() {
    let actual = CommitFooter::BreakingChange("Uses different version now");
    let expected = "BREAKING CHANGE: Uses different version now";
    assert_eq!(actual.to_string(), expected);
}

#[test]
fn conventional_commit_display_header() {
    check_display_header();
}

#[test]
fn conventional_commit_display_header_body() {
    check_display_header_body();
}

#[test]
fn conventional_commit_display_header_body_footer() {
    check_display_header_body_footer();
}

#[test]
fn conventional_commit_display_header_footer() {
    check_display_header_footer();
}

#[test]
fn conventional_commit_display_header_many_footer() {
    check_display_header_many_footer();
}

#[test]
fn conventional_commit_display_header_many_body_many_footer() {
    check_display_header_many_body_many_footer();
}

#[test]
fn conventional_commit_display() {
    check_header_display();
    check_footer_display();
}

#[test]
fn conventional_commit_display_scope() {
    check_header_display_scope();
}

#[test]
fn conventional_commit_display_breaking_change() {
    check_header_display_breaking_change();
    check_footer_display_breaking_change();
}

#[test]
fn conventional_commit_display_breaking_change_and_scope() {
    check_header_display_breaking_change_and_scope();
}

#[test]
fn footer_display() {
    check_footer_display();
}

#[test]
fn footer_display_breaking_change() {
    check_footer_display_breaking_change();
}

#[test]
fn header_display() {
    check_header_display();
}

#[test]
fn header_display_scope() {
    check_header_display_scope();
}

#[test]
fn header_display_breaking_change() {
    check_header_display_breaking_change();
}

#[test]
fn header_display_breaking_change_and_scope() {
    check_header_display_breaking_change_and_scope();
}

#[test]
fn mod_display_header() {
    check_display_header();
}

#[test]
fn mod_display_header_body() {
    check_display_header_body();
}

#[test]
fn mod_display_header_body_footer() {
    check_display_header_body_footer();
}

#[test]
fn mod_display_header_footer() {
    check_display_header_footer();
}

#[test]
fn mod_display_header_many_footer() {
    check_display_header_many_footer();
}

#[test]
fn mod_display_header_many_body_many_footer() {
    check_display_header_many_body_many_footer();
}

#[test]
fn subjects_are_written_by_name() {
    let names: Vec<String> = [
        Subject::Root,
        Subject::Type,
        Subject::Scope,
        Subject::Breaking,
        Subject::Colon,
        Subject::Space,
        Subject::Desc,
    ]
    .iter()
    .map(|s| s.to_string())
    .collect();
    assert_eq!(
        names,
        vec!["Root", "Type", "Scope", "Breaking", "Colon", "Space", "Desc"]
    );
}
