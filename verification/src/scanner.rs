//! Ranking the interpreter directories that a scan of the version manager's
//! directory found: newest first, and the same whatever order the file
//! system listed them in.

use crate::candidate::{
    distinct_names, is_ranked, keys_descend, lemma_distinct_names_of_same_items,
    installed_view, lemma_ranked_keys_descend, lemma_ranking_unique, outranks, shim_view,
    Candidate, CandidateView, Entry, EntryView,
};
use crate::text::{chars_of, in_order, lemma_lex_le_total, lemma_lex_le_transitive, lex_le};
use crate::version::VersionKey;
use itertools::Itertools;
use vstd::prelude::*;
use vstd::seq_lib::*;

verus! {

/// Whether `ranked` is the ranking of the candidates `installed` and
/// `shim`: the installed ones, each once, ranked, and then the shim
/// directory.
pub open spec fn is_ranking_of(
    ranked: Seq<CandidateView>,
    installed: Seq<CandidateView>,
    shim: CandidateView,
) -> bool {
    &&& ranked.len() == installed.len() + 1
    &&& ranked.last() == shim
    &&& ranked.drop_last().to_multiset() == installed.to_multiset()
    &&& is_ranked(ranked.drop_last())
}

/// A ranking does not depend on the order in which the candidates are
/// listed: the same candidates, no name twice, have one ranking.
pub proof fn lemma_ranking_ignores_listing_order(
    first_listing: Seq<CandidateView>,
    second_listing: Seq<CandidateView>,
    shim: CandidateView,
    first_ranked: Seq<CandidateView>,
    second_ranked: Seq<CandidateView>,
)
    requires
        first_listing.to_multiset() == second_listing.to_multiset(),
        distinct_names(first_listing),
        is_ranking_of(first_ranked, first_listing, shim),
        is_ranking_of(second_ranked, second_listing, shim),
    ensures
        first_ranked == second_ranked,
{
    lemma_distinct_names_of_same_items(first_ranked.drop_last(), first_listing);
    lemma_ranking_unique(first_ranked.drop_last(), second_ranked.drop_last());
    assert(first_ranked =~= first_ranked.drop_last().push(shim));
    assert(second_ranked =~= second_ranked.drop_last().push(shim));
}

/// A ranking holds the candidates that were ranked, and no others.
pub proof fn lemma_ranking_keeps_candidates(
    ranked: Seq<CandidateView>,
    installed: Seq<CandidateView>,
    shim: CandidateView,
)
    requires
        is_ranking_of(ranked, installed, shim),
    ensures
        forall|candidate: CandidateView|
            ranked.contains(candidate) <==> installed.contains(candidate) || candidate == shim,
{
    broadcast use vstd::multiset::group_multiset_axioms;
    broadcast use group_to_multiset_ensures;

    let versions = ranked.drop_last();
    assert forall|candidate: CandidateView| ranked.contains(candidate) implies installed.contains(
        candidate,
    ) || candidate == shim by {
        let k = choose|k: int| 0 <= k < ranked.len() && ranked[k] == candidate;
        if k < versions.len() {
            assert(versions[k] == candidate);
            assert(versions.contains(candidate));
            assert(versions.to_multiset().count(candidate) > 0);
        }
    }
    assert forall|candidate: CandidateView|
        installed.contains(candidate) || candidate == shim implies ranked.contains(candidate) by {
        if installed.contains(candidate) {
            assert(installed.to_multiset().count(candidate) > 0);
            assert(versions.contains(candidate));
            let k = choose|k: int| 0 <= k < versions.len() && versions[k] == candidate;
            assert(ranked[k] == candidate);
        } else {
            assert(ranked[ranked.len() - 1] == candidate);
        }
    }
}

/// A ranking follows the numeric order of the version keys, the shim
/// directory, where it has the lowest key, included.
pub proof fn lemma_ranking_keys_descend(
    ranked: Seq<CandidateView>,
    installed: Seq<CandidateView>,
    shim: CandidateView,
)
    requires
        is_ranking_of(ranked, installed, shim),
        shim.key == VersionKey::zero(),
    ensures
        keys_descend(ranked),
{
    lemma_ranked_keys_descend(ranked.drop_last());
    assert forall|i: int, j: int| 0 <= i < j < ranked.len() implies ranked[j].key.le(
        ranked[i].key,
    ) by {
        if j < ranked.len() - 1 {
            assert(ranked[i] == ranked.drop_last()[i]);
            assert(ranked[j] == ranked.drop_last()[j]);
        }
    }
}

/// Order of the tuples that the directories are sorted by: that of the
/// first numbers, then of the second, then of the third.
spec fn triple_lt(a: (u32, u32, u32), b: (u32, u32, u32)) -> bool {
    a.0 < b.0 || (a.0 == b.0 && (a.1 < b.1 || (a.1 == b.1 && a.2 < b.2)))
}

/// Sorts with `Itertools::sorted_by_key`, each item by its first part. The
/// crate sorts in ascending order of the keys and keeps items with equal
/// keys in the order in which they came. Here each item's second part is
/// the place it came at, so equal keys stand by ascending second part.
#[verifier::external_body]
fn sort_by_key(items: Vec<((u32, u32, u32), usize)>) -> (sorted: Vec<((u32, u32, u32), usize)>)
    requires
        forall|i: int| 0 <= i < items.len() ==> (#[trigger] items[i]).1 == i,
    ensures
        sorted@.to_multiset() == items@.to_multiset(),
        forall|i: int, j: int|
            0 <= i < j < sorted.len() ==> triple_lt(
                (#[trigger] sorted[i]).0,
                (#[trigger] sorted[j]).0,
            ) || (sorted[i].0 == sorted[j].0 && sorted[i].1 < sorted[j].1),
{
    items.into_iter().sorted_by_key(|item| item.0).collect()
}

/// The indices `0..count`, in order.
spec fn indices(count: nat) -> Seq<usize> {
    Seq::new(count, |i: int| i as usize)
}

/// Mapping two sequences that hold the same items, each as often as the
/// other, gives two sequences that do so too.
pub proof fn lemma_map_keeps_multiset<A, B>(a: Seq<A>, b: Seq<A>, f: spec_fn(A) -> B)
    requires
        a.to_multiset() == b.to_multiset(),
    ensures
        a.map_values(f).to_multiset() == b.map_values(f).to_multiset(),
    decreases a.len(),
{
    broadcast use vstd::multiset::group_multiset_axioms;
    broadcast use group_to_multiset_ensures;

    if a.len() == 0 {
        assert(a.to_multiset().len() == a.len());
        assert(b.to_multiset().len() == b.len());
        assert(a.map_values(f) =~= b.map_values(f));
    } else {
        let x = a.last();
        assert(a =~= a.drop_last().push(x));
        assert(a.to_multiset().count(x) > 0);
        assert(b.contains(x));
        let j = choose|j: int| 0 <= j < b.len() && b[j] == x;
        assert(a.drop_last().to_multiset() =~= a.to_multiset().remove(x));
        assert(b.remove(j).to_multiset() =~= b.to_multiset().remove(x));
        lemma_map_keeps_multiset(a.drop_last(), b.remove(j), f);
        assert(a.map_values(f) =~= a.drop_last().map_values(f).push(f(x)));
        assert(b.remove(j).map_values(f) =~= b.map_values(f).remove(j));
        assert(b.map_values(f).remove(j).to_multiset() =~= b.map_values(f).to_multiset().remove(
            f(x),
        ));
        assert(b.map_values(f)[j] == f(x));
        assert(b.map_values(f).to_multiset().count(f(x)) > 0);
        assert(b.map_values(f).to_multiset() =~= b.map_values(f).to_multiset().remove(
            f(x),
        ).insert(f(x)));
    }
}

/// The indices of `names`, each once, so ordered that the names they point
/// at stand in dictionary order. Equal names keep the order they came in.
fn order_by_name(names: &Vec<Vec<char>>) -> (order: Vec<usize>)
    ensures
        order.len() == names.len(),
        order@.to_multiset() == indices(names.len() as nat).to_multiset(),
        forall|a: int| 0 <= a < order.len() ==> (#[trigger] order@[a]) < names.len(),
        forall|a: int, b: int|
            0 <= a < b < order.len() ==> lex_le(
                names@[(#[trigger] order@[a]) as int]@,
                names@[(#[trigger] order@[b]) as int]@,
            ),
{
    broadcast use vstd::multiset::group_multiset_axioms;
    broadcast use group_to_multiset_ensures;

    let mut order: Vec<usize> = Vec::new();
    let mut i: usize = 0;
    assert(order@ =~= indices(0));
    while i < names.len()
        invariant
            i <= names.len(),
            order.len() == i,
            order@.to_multiset() == indices(i as nat).to_multiset(),
            forall|a: int| 0 <= a < order.len() ==> (#[trigger] order@[a]) < i,
            forall|a: int, b: int|
                0 <= a < b < order.len() ==> lex_le(
                    names@[(#[trigger] order@[a]) as int]@,
                    names@[(#[trigger] order@[b]) as int]@,
                ),
        decreases names.len() - i,
    {
        let ghost new_name = names@[i as int]@;
        let mut at: usize = order.len();
        while at > 0 && !in_order(&names[order[at - 1]], &names[i])
            invariant
                at <= order.len(),
                order.len() == i,
                i < names.len(),
                new_name == names@[i as int]@,
                forall|a: int| 0 <= a < order.len() ==> (#[trigger] order@[a]) < i,
                forall|q: int|
                    at <= q < order.len() ==> !lex_le(
                        names@[(#[trigger] order@[q]) as int]@,
                        new_name,
                    ),
            decreases at,
        {
            at -= 1;
        }
        let ghost before = order@;
        order.insert(at, i);
        proof {
            assert(indices((i + 1) as nat) =~= indices(i as nat).push(i));
            to_multiset_insert(before, at as int, i);
            to_multiset_build(indices(i as nat), i);
            assert forall|a: int, b: int| 0 <= a < b < order.len() implies lex_le(
                names@[(#[trigger] order@[a]) as int]@,
                names@[(#[trigger] order@[b]) as int]@,
            ) by {
                if a == at {
                    let other = names@[before[b - 1] as int]@;
                    lemma_lex_le_total(other, new_name);
                } else if b == at {
                    let last = names@[before[at - 1] as int]@;
                    let other = names@[before[a] as int]@;
                    if a < at - 1 {
                        lemma_lex_le_transitive(other, last, new_name);
                    }
                } else {
                    let from_a = if a < at { a } else { a - 1 };
                    let from_b = if b < at { b } else { b - 1 };
                    assert(order@[a] == before[from_a]);
                    assert(order@[b] == before[from_b]);
                }
            }
        }
        i += 1;
    }
    order
}

/// What came out of a sort holds the items that went in: each sorted item
/// is the one that stood where its second part says.
proof fn lemma_sorted_items(
    items: Seq<((u32, u32, u32), usize)>,
    sorted: Seq<((u32, u32, u32), usize)>,
)
    requires
        forall|k: int| 0 <= k < items.len() ==> (#[trigger] items[k]).1 == k,
        sorted.to_multiset() == items.to_multiset(),
    ensures
        sorted.len() == items.len(),
        forall|k: int|
            0 <= k < sorted.len() ==> (#[trigger] sorted[k]).1 < items.len() && sorted[k]
                == items[sorted[k].1 as int],
{
    broadcast use vstd::multiset::group_multiset_axioms;
    broadcast use group_to_multiset_ensures;

    assert(sorted.to_multiset().len() == sorted.len());
    assert(items.to_multiset().len() == items.len());
    assert forall|k: int| 0 <= k < sorted.len() implies (#[trigger] sorted[k]).1 < items.len()
        && sorted[k] == items[sorted[k].1 as int] by {
        assert(sorted.contains(sorted[k]));
        assert(sorted.to_multiset().count(sorted[k]) > 0);
        assert(items.contains(sorted[k]));
        let j = choose|j: int| 0 <= j < items.len() && items[j] == sorted[k];
        assert(items[j].1 == j);
    }
}

/// The ranking that `rank_candidates` builds holds what was found, each
/// directory once, and is ranked. `by_name` orders the found directories by
/// name, `items` pairs each of them, in that order, with its key, `sorted`
/// is `items` sorted by key, and `out` takes the directories in the reverse
/// of that order.
proof fn lemma_ranking(
    found: Seq<CandidateView>,
    by_name: Seq<usize>,
    items: Seq<((u32, u32, u32), usize)>,
    sorted: Seq<((u32, u32, u32), usize)>,
    out: Seq<CandidateView>,
)
    requires
        found.len() <= usize::MAX,
        by_name.len() == found.len(),
        by_name.to_multiset() == indices(found.len()).to_multiset(),
        forall|a: int| 0 <= a < by_name.len() ==> (#[trigger] by_name[a]) < found.len(),
        forall|a: int, b: int|
            0 <= a < b < by_name.len() ==> lex_le(
                found[(#[trigger] by_name[a]) as int].name,
                found[(#[trigger] by_name[b]) as int].name,
            ),
        items.len() == found.len(),
        forall|k: int|
            0 <= k < items.len() ==> (#[trigger] items[k]) == (
                found[by_name[k] as int].key.triple(),
                k as usize,
            ),
        sorted.to_multiset() == items.to_multiset(),
        forall|i: int, j: int|
            0 <= i < j < sorted.len() ==> triple_lt(
                (#[trigger] sorted[i]).0,
                (#[trigger] sorted[j]).0,
            ) || (sorted[i].0 == sorted[j].0 && sorted[i].1 < sorted[j].1),
        out.len() == found.len(),
        sorted.len() == found.len(),
        forall|k: int|
            0 <= k < out.len() ==> (#[trigger] out[k]) == found[by_name[sorted[out.len() - 1
                - k].1 as int] as int],
    ensures
        out.to_multiset() == found.to_multiset(),
        is_ranked(out),
{
    let n = found.len() as int;
    lemma_sorted_items(items, sorted);
    // The found directories in the order of their names.
    let pick = |index: usize| found[index as int];
    let named = by_name.map_values(pick);
    lemma_map_keeps_multiset(by_name, indices(found.len()), pick);
    assert(indices(found.len()).map_values(pick) =~= found);
    // The same in the order of their keys.
    let slot = |item: ((u32, u32, u32), usize)| named[item.1 as int];
    let keyed = sorted.map_values(slot);
    lemma_map_keeps_multiset(sorted, items, slot);
    assert(items.map_values(slot) =~= named);
    assert(out =~= keyed.reverse());
    keyed.lemma_reverse_to_multiset();

    assert forall|i: int, j: int| 0 <= i < j < out.len() implies outranks(out[i], out[j]) by {
        let high = sorted[n - 1 - i];
        let low = sorted[n - 1 - j];
        assert(high == items[high.1 as int]);
        assert(low == items[low.1 as int]);
        assert(high.0 == out[i].key.triple());
        assert(low.0 == out[j].key.triple());
    }
}

/// Ranks candidates: `installed` holds the directories of the versions
/// directory, in any order, and `shim` is the shim directory. The ranking
/// holds the installed directories by descending version key, those with
/// equal keys by descending name, and the shim directory last.
pub fn rank_candidates(installed: &Vec<Candidate>, shim: &Candidate) -> (ranked: Vec<Candidate>)
    ensures
        is_ranking_of(ranked.deep_view(), installed.deep_view(), shim@),
{
    let ghost found = installed.deep_view();
    let n: usize = installed.len();
    let mut names: Vec<Vec<char>> = Vec::new();
    let mut keys: Vec<(u32, u32, u32)> = Vec::new();
    let mut i: usize = 0;
    while i < n
        invariant
            i <= n,
            n == installed.len(),
            found == installed.deep_view(),
            names.len() == i,
            keys.len() == i,
            forall|k: int| 0 <= k < i ==> (#[trigger] names@[k])@ == found[k].name,
            forall|k: int| 0 <= k < i ==> (#[trigger] keys@[k]) == found[k].key.triple(),
        decreases n - i,
    {
        let candidate = &installed[i];
        assert(found[i as int] == candidate@);
        names.push(chars_of(candidate.name.as_str()));
        keys.push((candidate.key.major, candidate.key.minor, candidate.key.patch));
        i += 1;
    }
    let by_name = order_by_name(&names);
    let mut items: Vec<((u32, u32, u32), usize)> = Vec::new();
    let mut t: usize = 0;
    while t < n
        invariant
            t <= n,
            n == by_name.len(),
            n == keys.len(),
            items.len() == t,
            forall|a: int| 0 <= a < by_name.len() ==> (#[trigger] by_name@[a]) < n,
            forall|k: int|
                0 <= k < t ==> (#[trigger] items@[k]) == (
                    keys@[by_name@[k] as int],
                    k as usize,
                ),
        decreases n - t,
    {
        items.push((keys[by_name[t]], t));
        t += 1;
    }
    let ghost unsorted = items@;
    let sorted = sort_by_key(items);
    proof {
        lemma_sorted_items(unsorted, sorted@);
    }
    let mut ranked: Vec<Candidate> = Vec::new();
    let mut left: usize = n;
    while left > 0
        invariant
            left <= n,
            n == installed.len(),
            n == sorted.len(),
            n == by_name.len(),
            found == installed.deep_view(),
            ranked.len() == n - left,
            forall|a: int| 0 <= a < by_name.len() ==> (#[trigger] by_name@[a]) < n,
            forall|k: int| 0 <= k < sorted.len() ==> (#[trigger] sorted@[k]).1 < n,
            forall|k: int|
                0 <= k < ranked.len() ==> (#[trigger] ranked@[k])@ == found[by_name@[sorted@[n - 1
                    - k].1 as int] as int],
        decreases left,
    {
        left -= 1;
        let slot: usize = sorted[left].1;
        let chosen = installed[by_name[slot]].clone();
        assert(chosen@ == found[by_name@[slot as int] as int]);
        ranked.push(chosen);
    }
    proof {
        lemma_ranking(found, by_name@, unsorted, sorted@, ranked.deep_view());
        assert(ranked.deep_view().push(shim@).drop_last() =~= ranked.deep_view());
    }
    let ghost versions = ranked.deep_view();
    ranked.push(shim.clone());
    assert(ranked.deep_view() =~= versions.push(shim@));
    ranked
}

/// The candidates that the entries of the versions directory are.
pub open spec fn candidates_of(entries: Seq<EntryView>) -> Seq<CandidateView> {
    Seq::new(entries.len(), |i: int| installed_view(entries[i]))
}

/// Whether `ranked` is what a scan hands out that found `entries` in the
/// versions directory: the ranking of the candidates that they and the shim
/// directory are.
pub open spec fn is_scan_of(
    ranked: Seq<CandidateView>,
    entries: Seq<EntryView>,
    shim: EntryView,
) -> bool {
    is_ranking_of(ranked, candidates_of(entries), shim_view(shim))
}

/// Ranks what a scan of the version manager's directories found: `entries`
/// holds the directories of the versions directory, in the order in which
/// the file system listed them, and `shim` is the shim directory. Each
/// directory gets the version key of its name. The ranking holds the
/// directories by descending version key, those with equal keys by
/// descending name, and the shim directory last.
pub fn scan_candidates(entries: &Vec<Entry>, shim: &Entry) -> (ranked: Vec<Candidate>)
    ensures
        is_scan_of(ranked.deep_view(), entries.deep_view(), shim@),
{
    let ghost listed = entries.deep_view();
    let mut installed: Vec<Candidate> = Vec::new();
    let mut i: usize = 0;
    while i < entries.len()
        invariant
            i <= entries.len(),
            listed == entries.deep_view(),
            installed.len() == i,
            forall|k: int| 0 <= k < i ==> (#[trigger] installed@[k])@ == installed_view(listed[k]),
        decreases entries.len() - i,
    {
        installed.push(Candidate::installed(&entries[i]));
        i += 1;
    }
    assert(installed.deep_view() =~= candidates_of(listed));
    rank_candidates(&installed, &Candidate::shim(shim))
}

/// The outcome of a scan does not depend on the order in which the file
/// system lists the directories: two scans that found the same
/// directories, no name twice, hand out the same ranking.
pub proof fn lemma_scan_ignores_listing_order(
    first_listing: Seq<EntryView>,
    second_listing: Seq<EntryView>,
    shim: EntryView,
    first_ranked: Seq<CandidateView>,
    second_ranked: Seq<CandidateView>,
)
    requires
        first_listing.to_multiset() == second_listing.to_multiset(),
        forall|i: int, j: int|
            0 <= i < j < first_listing.len() ==> first_listing[i].name != first_listing[j].name,
        is_scan_of(first_ranked, first_listing, shim),
        is_scan_of(second_ranked, second_listing, shim),
    ensures
        first_ranked == second_ranked,
{
    let keyed = |entry: EntryView| installed_view(entry);
    lemma_map_keeps_multiset(first_listing, second_listing, keyed);
    assert(first_listing.map_values(keyed) =~= candidates_of(first_listing));
    assert(second_listing.map_values(keyed) =~= candidates_of(second_listing));
    lemma_ranking_ignores_listing_order(
        candidates_of(first_listing),
        candidates_of(second_listing),
        shim_view(shim),
        first_ranked,
        second_ranked,
    );
}

/// The outcome of a scan follows the numeric order of the version keys:
/// no candidate has a higher key than one that stands before it.
pub proof fn lemma_scan_keys_descend(
    ranked: Seq<CandidateView>,
    entries: Seq<EntryView>,
    shim: EntryView,
)
    requires
        is_scan_of(ranked, entries, shim),
    ensures
        keys_descend(ranked),
{
    lemma_ranking_keys_descend(ranked, candidates_of(entries), shim_view(shim));
}

/// A scan hands out a candidate for each directory that it found and, in
/// the last place, one for the shim directory, and no others.
pub proof fn lemma_scan_keeps_entries(
    ranked: Seq<CandidateView>,
    entries: Seq<EntryView>,
    shim: EntryView,
)
    requires
        is_scan_of(ranked, entries, shim),
    ensures
        forall|k: int|
            0 <= k < entries.len() ==> ranked.contains(installed_view(#[trigger] entries[k])),
        ranked.last() == shim_view(shim),
        forall|j: int|
            0 <= j < ranked.len() - 1 ==> candidates_of(entries).contains(#[trigger] ranked[j]),
{
    broadcast use vstd::multiset::group_multiset_axioms;
    broadcast use group_to_multiset_ensures;

    let found = candidates_of(entries);
    lemma_ranking_keeps_candidates(ranked, found, shim_view(shim));
    assert forall|k: int| 0 <= k < entries.len() implies ranked.contains(
        installed_view(#[trigger] entries[k]),
    ) by {
        assert(found[k] == installed_view(entries[k]));
        assert(found.contains(found[k]));
    }
    let versions = ranked.drop_last();
    assert forall|j: int| 0 <= j < ranked.len() - 1 implies found.contains(
        #[trigger] ranked[j],
    ) by {
        assert(versions[j] == ranked[j]);
        assert(versions.contains(versions[j]));
        assert(versions.to_multiset().count(versions[j]) > 0);
    }
}

} // verus!
