use vstd::prelude::*;
use vstd::string::StringSliceAdditionalSpecFns;
use vstd::utf8::encode_utf8;
use crate::block::{Block, Val};
use crate::domain::Domain;
use crate::like::{alike, close};

verus! {

/// How a block is recognised as the type of a commit.
///
/// The names of a policy are a set: what the policy accepts goes by which
/// names are among them (see `name_set`), not by their order, and a name that
/// occurs twice says no more than one that occurs once. A list is well
/// formed when no name occurs twice (see `KnownType::wf`); nothing asks for
/// it.
#[derive(Debug)]
pub enum KnownType {
    /// Any word is a type.
    AnyFirstSeq,
    /// A block is a type if its text is one of the given names, byte for
    /// byte, or if it has been resolved as the type already.
    Strict(Vec<String>),
    /// A block is a type if its text is one of the given names or one slip
    /// away from one (one byte changed, left out or too many: see `alike`),
    /// or if it has been resolved as the type already.
    Like(Vec<String>),
}

/// What the analysis of a header goes by.
#[derive(Debug)]
pub struct Config {
    pub known_type: KnownType,
}

/// Whether `text` is one of `names`, byte for byte.
pub open spec fn listed(names: Seq<String>, text: Seq<u8>) -> bool {
    exists|i: int| 0 <= i < names.len() && encode_utf8(#[trigger] names[i]@) == text
}

/// Whether `text` is alike to one of `names`.
pub open spec fn nearly_listed(names: Seq<String>, text: Seq<u8>) -> bool {
    exists|i: int| 0 <= i < names.len() && alike(encode_utf8(#[trigger] names[i]@), text)
}

/// The names of a list, as a set of texts.
pub open spec fn name_set(names: Seq<String>) -> Set<Seq<u8>> {
    Set::new(|text: Seq<u8>| listed(names, text))
}

/// Whether no name occurs twice in the list.
pub open spec fn distinct(names: Seq<String>) -> bool {
    forall|i: int, j: int|
        0 <= i < j < names.len() ==> encode_utf8(#[trigger] names[i]@) != encode_utf8(
            #[trigger] names[j]@,
        )
}

/// Two lists of the same names list the same texts, and nearly list the
/// same texts, whatever the order of the names and however often they occur.
pub proof fn lemma_names_are_a_set(a: Seq<String>, b: Seq<String>, text: Seq<u8>)
    requires
        name_set(a) == name_set(b),
    ensures
        listed(a, text) == listed(b, text),
        nearly_listed(a, text) == nearly_listed(b, text),
{
    assert(name_set(a).contains(text) == listed(a, text));
    assert(name_set(b).contains(text) == listed(b, text));
    if nearly_listed(a, text) {
        let i = choose|i: int| 0 <= i < a.len() && alike(encode_utf8(#[trigger] a[i]@), text);
        let name = encode_utf8(a[i]@);
        assert(listed(a, name));
        assert(name_set(a).contains(name));
        assert(name_set(b).contains(name));
        assert(listed(b, name));
    }
    if nearly_listed(b, text) {
        let i = choose|i: int| 0 <= i < b.len() && alike(encode_utf8(#[trigger] b[i]@), text);
        let name = encode_utf8(b[i]@);
        assert(listed(b, name));
        assert(name_set(b).contains(name));
        assert(name_set(a).contains(name));
        assert(listed(a, name));
    }
}

impl KnownType {
    /// Whether the names of the policy are a set as a list can be one: no
    /// name occurs twice.
    pub open spec fn wf(self) -> bool {
        match self {
            KnownType::AnyFirstSeq => true,
            KnownType::Strict(names) => distinct(names@),
            KnownType::Like(names) => distinct(names@),
        }
    }

    /// `wf` for code.
    pub fn is_wf(&self) -> (r: bool)
        ensures
            r == self.wf(),
    {
        match self {
            KnownType::AnyFirstSeq => true,
            KnownType::Strict(names) => has_no_repeats(names),
            KnownType::Like(names) => has_no_repeats(names),
        }
    }

    /// Whether `block`, a block of a header whose bytes are `text`, counts
    /// as the type of the commit.
    pub open spec fn accepts(self, block: Block, text: Seq<u8>) -> bool {
        match self {
            KnownType::AnyFirstSeq => block.val == Val::Word,
            KnownType::Strict(names) => block.domain == Domain::Type || match block.captured(
                text,
            ) {
                Some(part) => listed(names@, part),
                None => false,
            },
            KnownType::Like(names) => block.domain == Domain::Type || match block.captured(text) {
                Some(part) => nearly_listed(names@, part),
                None => false,
            },
        }
    }
}

/// Whether two runs of bytes are the same.
pub fn same(a: &[u8], b: &[u8]) -> (r: bool)
    ensures
        r == (a@ == b@),
{
    if a.len() != b.len() {
        return false;
    }
    let mut i: usize = 0;
    while i < a.len()
        invariant
            i <= a@.len(),
            a@.len() == b@.len(),
            forall|j: int| 0 <= j < i ==> a@[j] == b@[j],
        decreases a@.len() - i,
    {
        if a[i] != b[i] {
            return false;
        }
        i += 1;
    }
    assert(a@ =~= b@);
    true
}

/// Whether no name occurs twice in `names`.
pub fn has_no_repeats(names: &Vec<String>) -> (r: bool)
    ensures
        r == distinct(names@),
{
    let mut j: usize = 0;
    while j < names.len()
        invariant
            j <= names@.len(),
            forall|a: int, b: int|
                0 <= a < b < j ==> encode_utf8(#[trigger] names@[a]@) != encode_utf8(
                    #[trigger] names@[b]@,
                ),
        decreases names@.len() - j,
    {
        let mut i: usize = 0;
        while i < j
            invariant
                i <= j < names@.len(),
                forall|a: int|
                    0 <= a < i ==> encode_utf8(#[trigger] names@[a]@) != encode_utf8(
                        names@[j as int]@,
                    ),
            decreases j - i,
        {
            if same(names[i].as_str().as_bytes(), names[j].as_str().as_bytes()) {
                return false;
            }
            i += 1;
        }
        j += 1;
    }
    true
}

/// Whether `text` is one of `names`.
pub fn is_listed(names: &Vec<String>, text: &str) -> (r: bool)
    ensures
        r == listed(names@, text.spec_bytes()),
{
    let mut i: usize = 0;
    while i < names.len()
        invariant
            i <= names@.len(),
            forall|j: int| 0 <= j < i ==> encode_utf8(#[trigger] names@[j]@) != text.spec_bytes(),
        decreases names@.len() - i,
    {
        if same(names[i].as_str().as_bytes(), text.as_bytes()) {
            return true;
        }
        i += 1;
    }
    false
}

/// Whether `text` is alike to one of `names`.
pub fn is_nearly_listed(names: &Vec<String>, text: &str) -> (r: bool)
    ensures
        r == nearly_listed(names@, text.spec_bytes()),
{
    let mut i: usize = 0;
    while i < names.len()
        invariant
            i <= names@.len(),
            forall|j: int|
                0 <= j < i ==> !alike(encode_utf8(#[trigger] names@[j]@), text.spec_bytes()),
        decreases names@.len() - i,
    {
        if close(names[i].as_str().as_bytes(), text.as_bytes()) {
            return true;
        }
        i += 1;
    }
    false
}

} // verus!
