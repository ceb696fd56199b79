//! Version keys: the numbers by which interpreter directories are ranked.

use crate::pattern::{captured, captured_texts, captures, regex_captures};
use crate::text::{chars_of, decimal_u32, parse_decimal};
use vstd::prelude::*;

verus! {

/// The pattern that a directory name is searched for: at its start a run of
/// digits, then up to two more runs, each after a dot.
pub const VERSION_PATTERN: &'static str = r"^(\d+)(?:\.(\d+))?(?:\.(\d+))?";

/// Major, minor and patch number of an interpreter directory.
#[derive(Clone, Copy, Debug, PartialEq, Eq, Structural)]
pub struct VersionKey {
    pub major: u32,
    pub minor: u32,
    pub patch: u32,
}

impl VersionKey {
    /// The key of a name that carries no version: it ranks last.
    pub open spec fn zero() -> VersionKey {
        VersionKey { major: 0, minor: 0, patch: 0 }
    }

    /// Numeric order, major number first: `self` is `other` or below it.
    pub open spec fn le(self, other: VersionKey) -> bool {
        self.major < other.major || (self.major == other.major && (self.minor < other.minor
            || (self.minor == other.minor && self.patch <= other.patch)))
    }

    /// The three numbers as a tuple, which orders as `le` does.
    pub open spec fn triple(self) -> (u32, u32, u32) {
        (self.major, self.minor, self.patch)
    }
}

/// The order of the keys is a total order: a key is below or equal to
/// itself; two keys that are below or equal to each other are the same key;
/// the order carries over a key in between; and of two keys one is below or
/// equal to the other.
pub proof fn lemma_key_order_is_total(a: VersionKey, b: VersionKey, c: VersionKey)
    ensures
        a.le(a),
        a.le(b) && b.le(a) ==> a == b,
        a.le(b) && b.le(c) ==> a.le(c),
        a.le(b) || b.le(a),
        VersionKey::zero().le(a),
{
}

/// The key that up to three captured runs of digits spell: missing runs
/// count as zero. No run, more than three, or a run that is no number of 32
/// bits gives the zero key.
pub open spec fn key_of_texts(texts: Seq<Seq<char>>) -> VersionKey {
    if texts.len() == 0 || texts.len() > 3 {
        VersionKey::zero()
    } else if exists|i: int| 0 <= i < texts.len() && decimal_u32(#[trigger] texts[i]) is None {
        VersionKey::zero()
    } else {
        VersionKey {
            major: decimal_u32(texts[0])->0,
            minor: if texts.len() > 1 {
                decimal_u32(texts[1])->0
            } else {
                0
            },
            patch: if texts.len() > 2 {
                decimal_u32(texts[2])->0
            } else {
                0
            },
        }
    }
}

/// The key that a search for `VERSION_PATTERN` gives: the zero key where
/// nothing matched.
pub open spec fn key_of_groups(found: Option<Seq<Option<Seq<char>>>>) -> VersionKey {
    match found {
        Some(groups) => key_of_texts(captured(groups)),
        None => VersionKey::zero(),
    }
}

/// The key of the directory name `name`.
pub open spec fn version_key_of(name: Seq<char>) -> VersionKey {
    key_of_groups(regex_captures(VERSION_PATTERN@, name))
}

/// Reads a version key from the outcome of a search for `VERSION_PATTERN`.
pub fn version_key_from_groups(found: &Option<Vec<Option<String>>>) -> (key: VersionKey)
    ensures
        key == key_of_groups(found.deep_view()),
{
    let groups = match found {
        Some(groups) => groups,
        None => {
            return VersionKey { major: 0, minor: 0, patch: 0 };
        },
    };
    let texts = captured_texts(groups);
    let ghost spelled = texts.deep_view();
    if texts.len() == 0 || texts.len() > 3 {
        return VersionKey { major: 0, minor: 0, patch: 0 };
    }
    let mut numbers: Vec<u32> = Vec::new();
    let mut i: usize = 0;
    while i < texts.len()
        invariant
            i <= texts.len() <= 3,
            spelled == texts.deep_view(),
            key_of_groups(found.deep_view()) == key_of_texts(spelled),
            numbers.len() == i,
            forall|k: int| 0 <= k < i ==> decimal_u32(#[trigger] spelled[k]) == Some(numbers@[k]),
        decreases texts.len() - i,
    {
        let digits = chars_of(texts[i].as_str());
        assert(digits@ == spelled[i as int]);
        match parse_decimal(&digits) {
            Some(number) => {
                numbers.push(number);
            },
            None => {
                assert(decimal_u32(spelled[i as int]) is None);
                return VersionKey { major: 0, minor: 0, patch: 0 };
            },
        }
        i += 1;
    }
    VersionKey {
        major: numbers[0],
        minor: if numbers.len() > 1 {
            numbers[1]
        } else {
            0
        },
        patch: if numbers.len() > 2 {
            numbers[2]
        } else {
            0
        },
    }
}

/// The key by which the directory `name` is ranked.
pub fn version_key(name: &str) -> (key: VersionKey)
    ensures
        key == version_key_of(name@),
{
    let found = captures(VERSION_PATTERN, name);
    version_key_from_groups(&found)
}

} // verus!
