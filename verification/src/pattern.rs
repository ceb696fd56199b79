//! Regular expressions: the one call into the `regex` crate, and what the
//! library reads from the groups that a match captured.

use regex::Regex;
use vstd::prelude::*;

verus! {

/// What the `regex` crate finds when it searches `text` for `pattern`: for
/// the first match, each capture group's text in the order of the groups'
/// numbers, the whole match being group zero and a group that took no part
/// in the match being `None`; `None` where `pattern` is no regular
/// expression or `text` holds no match.
pub uninterp spec fn regex_captures(pattern: Seq<char>, text: Seq<char>) -> Option<
    Seq<Option<Seq<char>>>,
>;

/// Compiles `pattern` with `Regex::new` and searches `text` with
/// `Regex::captures`, which reports the first match and the part of the
/// text that each capture group took. The groups come out of
/// `Captures::iter` in the order of their numbers, each as the text that
/// `Match::as_str` gives. The contract claims no more than that this is a
/// function of the pattern and the text: the outcome is the one that
/// `regex_captures` names.
#[verifier::external_body]
pub(crate) fn captures(pattern: &str, text: &str) -> (groups: Option<Vec<Option<String>>>)
    ensures
        groups.deep_view() == regex_captures(pattern@, text@),
{
    let compiled = Regex::new(pattern).ok()?;
    let found = compiled.captures(text)?;
    Some(found.iter().map(|group| group.map(|m| m.as_str().to_string())).collect())
}

/// The texts of the groups from number `from` on that captured something,
/// in the order of the groups' numbers.
pub open spec fn present_from(groups: Seq<Option<Seq<char>>>, from: int) -> Seq<Seq<char>>
    decreases groups.len() - from,
{
    if from < 0 || from >= groups.len() {
        Seq::empty()
    } else {
        match groups[from] {
            Some(text) => seq![text] + present_from(groups, from + 1),
            None => present_from(groups, from + 1),
        }
    }
}

/// The texts of a match's numbered groups that captured something: all of
/// `groups` but group zero, the whole match.
pub open spec fn captured(groups: Seq<Option<Seq<char>>>) -> Seq<Seq<char>> {
    present_from(groups, 1)
}

/// Collects the texts of the numbered groups that captured something.
pub fn captured_texts(groups: &Vec<Option<String>>) -> (texts: Vec<String>)
    ensures
        texts.deep_view() == captured(groups.deep_view()),
{
    let ghost all = groups.deep_view();
    let mut texts: Vec<String> = Vec::new();
    let mut i: usize = groups.len();
    assert(texts.deep_view() =~= Seq::<Seq<char>>::empty());
    while i > 1
        invariant
            i <= groups.len(),
            all == groups.deep_view(),
            texts.deep_view() == present_from(all, i as int),
            i >= 1 || groups.len() == 0,
        decreases i,
    {
        i -= 1;
        let ghost before = texts.deep_view();
        match &groups[i] {
            Some(text) => {
                texts.insert(0, text.clone());
                assert(texts.deep_view() =~= seq![text@] + before);
            },
            None => {},
        }
    }
    texts
}

} // verus!
