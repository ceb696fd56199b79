//! Picking the first of a row that qualifies.

use vstd::prelude::*;

verus! {

/// The index of the first `true` in `flags` at `from` or behind it, if
/// there is one.
pub open spec fn first_hit_from(flags: Seq<bool>, from: int) -> Option<int>
    decreases flags.len() - from,
{
    if from < 0 || from >= flags.len() {
        None
    } else if flags[from] {
        Some(from)
    } else {
        first_hit_from(flags, from + 1)
    }
}

/// The index of the first `true` in `flags`, if there is one.
pub open spec fn first_hit(flags: Seq<bool>) -> Option<int> {
    first_hit_from(flags, 0)
}

/// `first_hit_from` gives the least index from `from` on that holds
/// `true`, and gives none exactly where every flag from there on is
/// `false`.
pub proof fn lemma_first_hit_from(flags: Seq<bool>, from: int)
    requires
        0 <= from,
    ensures
        match first_hit_from(flags, from) {
            Some(k) => from <= k < flags.len() && flags[k] && forall|j: int|
                from <= j < k ==> !flags[j],
            None => forall|j: int| from <= j < flags.len() ==> !flags[j],
        },
    decreases flags.len() - from,
{
    if from < flags.len() && !flags[from] {
        lemma_first_hit_from(flags, from + 1);
    }
}

/// `first_hit` gives the least index that holds `true`, and gives none
/// exactly where every flag is `false`.
pub proof fn lemma_first_hit(flags: Seq<bool>)
    ensures
        match first_hit(flags) {
            Some(k) => 0 <= k < flags.len() && flags[k] && forall|j: int| 0 <= j < k ==> !flags[j],
            None => forall|j: int| 0 <= j < flags.len() ==> !flags[j],
        },
{
    lemma_first_hit_from(flags, 0);
}

/// A search that has found nothing up to `from` goes on from there.
pub proof fn lemma_first_hit_skips(flags: Seq<bool>, from: int)
    requires
        0 <= from <= flags.len(),
        forall|j: int| 0 <= j < from ==> !flags[j],
    ensures
        first_hit(flags) == first_hit_from(flags, from),
    decreases from,
{
    if from > 0 {
        lemma_first_hit_skips(flags, from - 1);
    }
}

} // verus!
