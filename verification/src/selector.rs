//! Version selectors: what the first command-line argument asks for.

use crate::pattern::{captured, captured_texts, captures, regex_captures};
use crate::text::chars_of;
use vstd::prelude::*;

verus! {

/// The pattern that the first argument is searched for: at its start a
/// dash and one to three runs of digits with dots between them, the
/// version; behind it, after any characters, `-32` or `-64` may follow.
pub const SELECTOR_PATTERN: &'static str = r"^(?:-(\d+(?:\.\d+){0,2}))(?:.*-(32|64))?";

/// The width of a processor's pointers, as a selector may ask for it.
#[derive(Clone, Copy, Debug, PartialEq, Eq, Structural)]
pub enum Arch {
    /// Asked for with `-32`.
    Bits32,
    /// Asked for with `-64`.
    Bits64,
}

impl Arch {
    /// The number of bits.
    pub open spec fn bits(self) -> int {
        match self {
            Arch::Bits32 => 32,
            Arch::Bits64 => 64,
        }
    }

    /// The number of bits.
    pub fn width(self) -> (bits: u32)
        ensures
            bits == self.bits(),
    {
        match self {
            Arch::Bits32 => 32,
            Arch::Bits64 => 64,
        }
    }
}

/// A request for an interpreter: the text that its directory's name starts
/// with, and the width it is built for where that matters.
#[derive(Debug, PartialEq, Eq)]
pub struct Selector {
    pub prefix: String,
    pub arch: Option<Arch>,
}

/// A selector as contracts speak of it.
pub struct SelectorView {
    pub prefix: Seq<char>,
    pub arch: Option<Arch>,
}

impl View for Selector {
    type V = SelectorView;

    open spec fn view(&self) -> SelectorView {
        SelectorView { prefix: self.prefix@, arch: self.arch }
    }
}

impl DeepView for Selector {
    type V = SelectorView;

    open spec fn deep_view(&self) -> SelectorView {
        self@
    }
}

impl Clone for Selector {
    fn clone(&self) -> (copy: Selector)
        ensures
            copy == *self,
    {
        Selector { prefix: self.prefix.clone(), arch: self.arch }
    }
}

/// The selector that the captured texts of a search for `SELECTOR_PATTERN`
/// spell: a version alone, or a version and `32` or `64`. Anything else
/// spells none.
pub open spec fn selector_of_texts(texts: Seq<Seq<char>>) -> Option<SelectorView> {
    if texts.len() == 1 {
        Some(SelectorView { prefix: texts[0], arch: None })
    } else if texts.len() == 2 && texts[1] =~= seq!['3', '2'] {
        Some(SelectorView { prefix: texts[0], arch: Some(Arch::Bits32) })
    } else if texts.len() == 2 && texts[1] =~= seq!['6', '4'] {
        Some(SelectorView { prefix: texts[0], arch: Some(Arch::Bits64) })
    } else {
        None
    }
}

/// The selector that a search for `SELECTOR_PATTERN` gives: none where
/// nothing matched.
pub open spec fn selector_of_groups(found: Option<Seq<Option<Seq<char>>>>) -> Option<
    SelectorView,
> {
    match found {
        Some(groups) => selector_of_texts(captured(groups)),
        None => None,
    }
}

/// The selector that the argument `arg` is, if it is one.
pub open spec fn selector_of(arg: Seq<char>) -> Option<SelectorView> {
    selector_of_groups(regex_captures(SELECTOR_PATTERN@, arg))
}

/// Reads a selector from the outcome of a search for `SELECTOR_PATTERN`.
pub fn selector_from_groups(found: &Option<Vec<Option<String>>>) -> (selector: Option<Selector>)
    ensures
        selector.deep_view() == selector_of_groups(found.deep_view()),
{
    let groups = match found {
        Some(groups) => groups,
        None => {
            return None;
        },
    };
    let texts = captured_texts(groups);
    if texts.len() == 1 {
        return Some(Selector { prefix: texts[0].clone(), arch: None });
    }
    if texts.len() != 2 {
        return None;
    }
    let width = chars_of(texts[1].as_str());
    if width.len() != 2 {
        return None;
    }
    assert(width@ =~= seq![width@[0], width@[1]]);
    if width[0] == '3' && width[1] == '2' {
        Some(Selector { prefix: texts[0].clone(), arch: Some(Arch::Bits32) })
    } else if width[0] == '6' && width[1] == '4' {
        Some(Selector { prefix: texts[0].clone(), arch: Some(Arch::Bits64) })
    } else {
        None
    }
}

/// Reads the argument `arg` as a version selector. An argument that is
/// none, such as `-foo`, is no error: it is an argument for the
/// interpreter.
pub fn parse_selector(arg: &str) -> (selector: Option<Selector>)
    ensures
        selector.deep_view() == selector_of(arg@),
{
    let found = captures(SELECTOR_PATTERN, arg);
    selector_from_groups(&found)
}

/// The selector that the command line `args` (without the program's own
/// name) carries: its first argument, where that is one.
pub open spec fn selector_in(args: Seq<Seq<char>>) -> Option<SelectorView> {
    if args.len() > 0 {
        selector_of(args[0])
    } else {
        None
    }
}

/// The arguments that are handed on to the interpreter: all of `args`
/// where the first is no selector, all but the first where it is one.
pub open spec fn forwarded(args: Seq<Seq<char>>) -> Seq<Seq<char>> {
    if selector_in(args) is Some {
        args.subrange(1, args.len() as int)
    } else {
        args
    }
}

/// Splits the command line, without the program's own name, into the
/// selector, if the first argument is one, and the number of arguments that
/// the selector took up: those from that index on are the interpreter's.
pub fn split_arguments(args: &Vec<String>) -> (split: (Option<Selector>, usize))
    ensures
        split.0.deep_view() == selector_in(args.deep_view()),
        split.1 == (if split.0 is Some {
            1usize
        } else {
            0usize
        }),
        args.deep_view().subrange(split.1 as int, args.len() as int) == forwarded(
            args.deep_view(),
        ),
{
    if args.len() == 0 {
        assert(args.deep_view().subrange(0, 0) =~= args.deep_view());
        return (None, 0);
    }
    let selector = parse_selector(args[0].as_str());
    assert(args.deep_view()[0] == args@[0]@);
    match selector {
        Some(found) => (Some(found), 1),
        None => {
            assert(args.deep_view().subrange(0, args.len() as int) =~= args.deep_view());
            (None, 0)
        },
    }
}

} // verus!
