//! Strings as sequences of characters: copying a string's characters out,
//! prefixes and suffixes, ASCII case folding, ordering and decimal numbers.

use vstd::prelude::*;

verus! {

/// The characters of `s`, in order.
pub fn chars_of(s: &str) -> (out: Vec<char>)
    ensures
        out@ == s@,
{
    let mut out: Vec<char> = Vec::new();
    for c in it: s.chars()
        invariant
            out@ == it.seq().take(it.index() as int),
            it.seq() == s@,
    {
        out.push(c);
    }
    out
}

/// Whether `text` begins with `prefix`.
pub fn starts_with(text: &Vec<char>, prefix: &Vec<char>) -> (yes: bool)
    ensures
        yes == prefix@.is_prefix_of(text@),
{
    if prefix.len() > text.len() {
        return false;
    }
    let mut i: usize = 0;
    while i < prefix.len()
        invariant
            i <= prefix.len() <= text.len(),
            forall|k: int| 0 <= k < i ==> prefix@[k] == text@[k],
        decreases prefix.len() - i,
    {
        if prefix[i] != text[i] {
            assert(prefix@[i as int] != text@.subrange(0, prefix@.len() as int)[i as int]);
            return false;
        }
        i += 1;
    }
    assert(prefix@ =~= text@.subrange(0, prefix@.len() as int));
    true
}

/// Whether `text` ends with `suffix`.
pub fn ends_with(text: &Vec<char>, suffix: &Vec<char>) -> (yes: bool)
    ensures
        yes == suffix@.is_suffix_of(text@),
{
    if suffix.len() > text.len() {
        return false;
    }
    let shift: usize = text.len() - suffix.len();
    let mut i: usize = 0;
    while i < suffix.len()
        invariant
            i <= suffix.len() <= text.len(),
            shift == text.len() - suffix.len(),
            forall|k: int| 0 <= k < i ==> suffix@[k] == text@[shift + k],
        decreases suffix.len() - i,
    {
        if suffix[i] != text[shift + i] {
            assert(suffix@[i as int] != text@.subrange(shift as int, text@.len() as int)[i as int]);
            return false;
        }
        i += 1;
    }
    assert(suffix@ =~= text@.subrange(shift as int, text@.len() as int));
    true
}

/// `c` with an ASCII capital letter replaced by its small letter.
pub open spec fn fold_case(c: char) -> char {
    if 'A' <= c && c <= 'Z' {
        ((c as int) + 32) as char
    } else {
        c
    }
}

/// `s` with every ASCII capital letter replaced by its small letter.
pub open spec fn folded(s: Seq<char>) -> Seq<char> {
    Seq::new(s.len(), |i: int| fold_case(s[i]))
}

/// Whether `a` and `b` are the same character once ASCII case is ignored.
pub fn same_folded(a: char, b: char) -> (same: bool)
    ensures
        same == (fold_case(a) == fold_case(b)),
{
    let x: u32 = if 'A' <= a && a <= 'Z' {
        a as u32 + 32
    } else {
        a as u32
    };
    let y: u32 = if 'A' <= b && b <= 'Z' {
        b as u32 + 32
    } else {
        b as u32
    };
    x == y
}

/// Whether `text` ends with `suffix` once ASCII case is ignored in both.
pub fn ends_with_folded(text: &Vec<char>, suffix: &Vec<char>) -> (yes: bool)
    ensures
        yes == folded(suffix@).is_suffix_of(folded(text@)),
{
    if suffix.len() > text.len() {
        return false;
    }
    let shift: usize = text.len() - suffix.len();
    let ghost tail = folded(text@).subrange(shift as int, text@.len() as int);
    let mut i: usize = 0;
    while i < suffix.len()
        invariant
            i <= suffix.len() <= text.len(),
            shift == text.len() - suffix.len(),
            tail == folded(text@).subrange(shift as int, text@.len() as int),
            forall|k: int| 0 <= k < i ==> folded(suffix@)[k] == tail[k],
        decreases suffix.len() - i,
    {
        if !same_folded(suffix[i], text[shift + i]) {
            assert(folded(suffix@)[i as int] != tail[i as int]);
            return false;
        }
        i += 1;
    }
    assert(folded(suffix@) =~= tail);
    true
}

/// Dictionary order on character sequences, by code point: `a` comes before
/// `b` or is `b`.
pub open spec fn lex_le(a: Seq<char>, b: Seq<char>) -> bool
    decreases a.len(),
{
    if a.len() == 0 {
        true
    } else if b.len() == 0 {
        false
    } else if a[0] != b[0] {
        a[0] < b[0]
    } else {
        lex_le(a.drop_first(), b.drop_first())
    }
}

/// Every sequence is in dictionary order with itself.
pub proof fn lemma_lex_le_reflexive(a: Seq<char>)
    ensures
        lex_le(a, a),
    decreases a.len(),
{
    if a.len() > 0 {
        lemma_lex_le_reflexive(a.drop_first());
    }
}

/// Two sequences that are in dictionary order both ways are equal.
pub proof fn lemma_lex_le_antisymmetric(a: Seq<char>, b: Seq<char>)
    requires
        lex_le(a, b),
        lex_le(b, a),
    ensures
        a == b,
    decreases a.len(),
{
    if a.len() == 0 {
        assert(b.len() == 0);
        assert(a =~= b);
    } else {
        lemma_lex_le_antisymmetric(a.drop_first(), b.drop_first());
        assert(a =~= seq![a[0]] + a.drop_first());
        assert(b =~= seq![b[0]] + b.drop_first());
    }
}

/// Dictionary order is transitive.
pub proof fn lemma_lex_le_transitive(a: Seq<char>, b: Seq<char>, c: Seq<char>)
    requires
        lex_le(a, b),
        lex_le(b, c),
    ensures
        lex_le(a, c),
    decreases a.len(),
{
    if a.len() > 0 && a[0] == b[0] && b[0] == c[0] {
        lemma_lex_le_transitive(a.drop_first(), b.drop_first(), c.drop_first());
    }
}

/// Of any two sequences one is in dictionary order with the other.
pub proof fn lemma_lex_le_total(a: Seq<char>, b: Seq<char>)
    ensures
        lex_le(a, b) || lex_le(b, a),
    decreases a.len(),
{
    if a.len() > 0 && b.len() > 0 && a[0] == b[0] {
        lemma_lex_le_total(a.drop_first(), b.drop_first());
    }
}

proof fn lemma_lex_le_skip(a: Seq<char>, b: Seq<char>, i: int)
    requires
        0 <= i <= a.len(),
        i <= b.len(),
        a.take(i) == b.take(i),
    ensures
        lex_le(a, b) == lex_le(a.skip(i), b.skip(i)),
    decreases i,
{
    if i > 0 {
        assert(a[0] == a.take(i)[0] && b[0] == b.take(i)[0]);
        assert(lex_le(a, b) == lex_le(a.drop_first(), b.drop_first()));
        assert(a.drop_first().take(i - 1) =~= a.take(i).drop_first());
        assert(b.drop_first().take(i - 1) =~= b.take(i).drop_first());
        lemma_lex_le_skip(a.drop_first(), b.drop_first(), i - 1);
        assert(a.drop_first().skip(i - 1) =~= a.skip(i));
        assert(b.drop_first().skip(i - 1) =~= b.skip(i));
    } else {
        assert(a.skip(0) =~= a);
        assert(b.skip(0) =~= b);
    }
}

/// Whether `a` comes before `b` in dictionary order, or is `b`.
pub fn in_order(a: &Vec<char>, b: &Vec<char>) -> (yes: bool)
    ensures
        yes == lex_le(a@, b@),
{
    let mut i: usize = 0;
    while i < a.len() && i < b.len()
        invariant
            i <= a.len(),
            i <= b.len(),
            a@.take(i as int) == b@.take(i as int),
        decreases a.len() - i,
    {
        if a[i] != b[i] {
            proof {
                lemma_lex_le_skip(a@, b@, i as int);
            }
            return a[i] < b[i];
        }
        assert(a@.take(i + 1) =~= a@.take(i as int).push(a@[i as int]));
        assert(b@.take(i + 1) =~= b@.take(i as int).push(b@[i as int]));
        i += 1;
    }
    proof {
        lemma_lex_le_skip(a@, b@, i as int);
    }
    i == a.len()
}

/// Whether `c` is one of the ten ASCII digits.
pub open spec fn is_digit(c: char) -> bool {
    '0' <= c && c <= '9'
}

/// The number that the digit `c` stands for.
pub open spec fn digit_value(c: char) -> nat {
    (c as int - '0' as int) as nat
}

/// Whether `s` holds ASCII digits only.
pub open spec fn all_digits(s: Seq<char>) -> bool {
    forall|i: int| 0 <= i < s.len() ==> is_digit(#[trigger] s[i])
}

/// The number that `s` writes in base ten, most significant digit first.
pub open spec fn decimal_value(s: Seq<char>) -> nat
    decreases s.len(),
{
    if s.len() == 0 {
        0
    } else {
        decimal_value(s.drop_last()) * 10 + digit_value(s.last())
    }
}

/// What `s` reads as: the number it writes, where `s` is one or more ASCII
/// digits and the number fits in 32 bits; nothing otherwise.
pub open spec fn decimal_u32(s: Seq<char>) -> Option<u32> {
    if s.len() > 0 && all_digits(s) && decimal_value(s) <= u32::MAX {
        Some(decimal_value(s) as u32)
    } else {
        None
    }
}

proof fn lemma_decimal_value_grows(s: Seq<char>, i: int)
    requires
        0 <= i <= s.len(),
    ensures
        decimal_value(s.take(i)) <= decimal_value(s),
    decreases s.len(),
{
    if i < s.len() {
        assert(s.drop_last().take(i) =~= s.take(i));
        lemma_decimal_value_grows(s.drop_last(), i);
    } else {
        assert(s.take(i) =~= s);
    }
}

/// Reads a decimal number.
pub fn parse_decimal(s: &Vec<char>) -> (value: Option<u32>)
    ensures
        value == decimal_u32(s@),
{
    if s.len() == 0 {
        return None;
    }
    let mut total: u32 = 0;
    let mut i: usize = 0;
    while i < s.len()
        invariant
            i <= s.len(),
            all_digits(s@.take(i as int)),
            total == decimal_value(s@.take(i as int)),
        decreases s.len() - i,
    {
        let c: char = s[i];
        if !('0' <= c && c <= '9') {
            return None;
        }
        let digit: u32 = c as u32 - '0' as u32;
        proof {
            assert(s@.take(i + 1).drop_last() =~= s@.take(i as int));
            assert(s@.take(i + 1).last() == c);
            lemma_decimal_value_grows(s@, i + 1);
        }
        if total > (u32::MAX - digit) / 10 {
            return None;
        }
        total = total * 10 + digit;
        i += 1;
    }
    assert(s@.take(i as int) =~= s@);
    Some(total)
}

} // verus!
