use sven::block::{Block, Status, Val};
use sven::bytes::Bytes;
use sven::domain::Domain;
use sven::weak_commit::parse_header::parse_header;

fn token(id: usize, val: Val, start: usize, end: usize) -> Block {
    Block {
        id: Some(id),
        val,
        domain: Domain::Nil,
        bytes: Some(Bytes::new(start, end)),
        status: Status::Unsigned,
    }
}

#[test]
fn empty() {
    let source = String::from("");
    let actual = parse_header(&source).unwrap();
    let expected = vec![Block::root()];
    assert_eq!(actual, expected);
}

#[test]
fn eol() {
    let source = String::from("\n");
    let actual = parse_header(&source).unwrap();
    let expected = vec![
        Block::root(),
        Block {
            id: Some(1_000),
            val: Val::EOL,
            domain: Domain::Nil,
            bytes: Some(Bytes::new(0, 1)),
            status: Status::Unsigned,
        },
    ];
    assert_eq!(actual, expected);
}

#[test]
fn one_word() {
    let source = String::from("one");
    let actual = parse_header(&source).unwrap();
    let expected = vec![
        Block::root(),
        Block {
            id: Some(1_000),
            val: Val::Word,
            domain: Domain::Nil,
            bytes: Some(Bytes::new(0, 3)),
            status: Status::Unsigned,
        },
    ];
    assert_eq!(actual, expected);
}

#[test]
fn one_word_and_eol() {
    let source = String::from("one\n");
    let actual = parse_header(&source).unwrap();
    let expected = vec![
        Block::root(),
        token(1_000, Val::Word, 0, 3),
        token(2_000, Val::EOL, 3, 4),
    ];
    assert_eq!(actual, expected);
}

#[test]
fn text() {
    let source = String::from("just some text");
    let actual = parse_header(&source).unwrap();
    let expected = vec![
        Block::root(),
        token(1_000, Val::Word, 0, 4),
        token(2_000, Val::Space, 4, 5),
        token(3_000, Val::Word, 5, 9),
        token(4_000, Val::Space, 9, 10),
        token(5_000, Val::Word, 10, 14),
    ];
    assert_eq!(actual, expected);
}

#[test]
fn commit() {
    let source = String::from("fix(app)!: me");
    let actual = parse_header(&source).unwrap();
    let expected = vec![
        Block::root(),
        token(1_000, Val::Word, 0, 3),
        token(2_000, Val::OpenBracket, 3, 4),
        token(3_000, Val::Word, 4, 7),
        token(4_000, Val::CloseBracket, 7, 8),
        token(5_000, Val::ExclMark, 8, 9),
        token(6_000, Val::Colon, 9, 10),
        token(7_000, Val::Space, 10, 11),
        token(8_000, Val::Word, 11, 13),
    ];
    assert_eq!(actual, expected);
}

#[test]
fn utf8() {
    let source = String::from("fix: да");
    let actual = parse_header(&source).unwrap();
    let expected = vec![
        Block::root(),
        token(1_000, Val::Word, 0, 3),
        token(2_000, Val::Colon, 3, 4),
        token(3_000, Val::Space, 4, 5),
        token(4_000, Val::Word, 5, 9),
    ];
    assert_eq!(actual, expected);
}

#[test]
fn root_has_the_first_id() {
    let root = Block::root();
    assert_eq!(root.id, Some(0));
    assert_eq!(root.val, Val::Root);
    assert_eq!(root.domain, Domain::Root);
    assert_eq!(root.bytes, None);
    assert_eq!(root.status, Status::Settled);
}

#[test]
fn tab_is_a_space_of_its_own() {
    let actual = parse_header("a\t b").unwrap();
    let expected = vec![
        Block::root(),
        token(1_000, Val::Word, 0, 1),
        token(2_000, Val::Space, 1, 2),
        token(3_000, Val::Space, 2, 3),
        token(4_000, Val::Word, 3, 4),
    ];
    assert_eq!(actual, expected);
}

#[test]
fn marks_stand_alone() {
    let actual = parse_header("((::!!))").unwrap();
    let kinds: Vec<Val> = actual.iter().map(|b| b.val).collect();
    assert_eq!(
        kinds,
        vec![
            Val::Root,
            Val::OpenBracket,
            Val::OpenBracket,
            Val::Colon,
            Val::Colon,
            Val::ExclMark,
            Val::ExclMark,
            Val::CloseBracket,
            Val::CloseBracket,
        ]
    );
    for (n, block) in actual.iter().enumerate().skip(1) {
        assert_eq!(block.bytes, Some(Bytes::new(n - 1, n)));
        assert_eq!(block.id, Some(n * 1000));
    }
}

#[test]
fn carriage_return_is_part_of_a_word() {
    let actual = parse_header("me\r\n").unwrap();
    let expected = vec![
        Block::root(),
        token(1_000, Val::Word, 0, 3),
        token(2_000, Val::EOL, 3, 4),
    ];
    assert_eq!(actual, expected);
}

#[test]
fn captures_follow_the_bytes() {
    let source = "fix: да";
    let blocks = parse_header(source).unwrap();
    assert_eq!(blocks[0].capture(source), None);
    assert_eq!(blocks[1].capture(source), Some("fix"));
    assert_eq!(blocks[2].capture(source), Some(":"));
    assert_eq!(blocks[3].capture(source), Some(" "));
    assert_eq!(blocks[4].capture(source), Some("да"));
}
