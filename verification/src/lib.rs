//! Checks the header of a commit message against the Conventional Commits
//! grammar, `type(scope)!: description`, and reports what is missing or out of
//! place, each finding anchored to a token or to an earlier finding.
//!
//! The way from a message to its report: `weak_commit` splits the message
//! into rows and the first row into tokens; `analyze_header` lays the tokens
//! over the slots of the grammar in every way that stands and picks the one
//! that costs least; `position` gives every block of that layout its place;
//! `find_header_issues` says what the layout lacks and what is out of place.
//! `analyze` does all of it.
//!
//! What is proved of the layouts stands in `soundness`, `order`, `faithful`
//! and `settled`.

pub mod additive;
pub mod decimal;
pub mod at;
pub mod bytes;
pub mod domain;
pub mod block;
pub mod issue;
pub mod pocket;
pub mod subject;

pub mod like;
pub mod config;

pub mod weak_commit;

pub mod analyze_header;
pub mod soundness;
pub mod order;
pub mod faithful;
pub mod settled;

pub mod position;
pub mod pencil;
pub mod paper;

pub mod find_header_issues;
pub mod find_issues;
pub mod report;
pub mod analyze;

pub mod block_factory;
pub mod conventional_commit;
