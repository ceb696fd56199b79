//! Candidates: the directories in which an interpreter may be, and the
//! order in which they are ranked.

use crate::text::{
    lemma_lex_le_antisymmetric, lemma_lex_le_reflexive, lemma_lex_le_total,
    lemma_lex_le_transitive, lex_le,
};
use crate::version::{version_key, version_key_of, VersionKey};
use vstd::prelude::*;
use vstd::seq_lib::*;

verus! {

/// A directory as a listing gives it: by name and path.
#[derive(Debug, PartialEq, Eq)]
pub struct Entry {
    pub name: String,
    pub path: String,
}

/// An entry as contracts speak of it.
pub struct EntryView {
    pub name: Seq<char>,
    pub path: Seq<char>,
}

impl View for Entry {
    type V = EntryView;

    open spec fn view(&self) -> EntryView {
        EntryView { name: self.name@, path: self.path@ }
    }
}

impl DeepView for Entry {
    type V = EntryView;

    open spec fn deep_view(&self) -> EntryView {
        self@
    }
}

impl Clone for Entry {
    fn clone(&self) -> (copy: Entry)
        ensures
            copy == *self,
    {
        Entry { name: self.name.clone(), path: self.path.clone() }
    }
}

/// One place where an interpreter may be: a directory, by name and path,
/// with the version key by which it is ranked. The shim directory, through
/// which the version manager starts its own default, is marked.
#[derive(Debug, PartialEq, Eq)]
pub struct Candidate {
    pub name: String,
    pub path: String,
    pub key: VersionKey,
    pub is_shim: bool,
}

/// A candidate as contracts speak of it.
pub struct CandidateView {
    pub name: Seq<char>,
    pub path: Seq<char>,
    pub key: VersionKey,
    pub is_shim: bool,
}

impl View for Candidate {
    type V = CandidateView;

    open spec fn view(&self) -> CandidateView {
        CandidateView {
            name: self.name@,
            path: self.path@,
            key: self.key,
            is_shim: self.is_shim,
        }
    }
}

impl CandidateView {
    /// Whether the candidate carries the key that belongs to it: for a
    /// directory of an installed version, the version that its name starts
    /// with; for the shim directory, the zero key.
    pub open spec fn well_keyed(self) -> bool {
        self.key == (if self.is_shim {
            VersionKey::zero()
        } else {
            version_key_of(self.name)
        })
    }
}

impl DeepView for Candidate {
    type V = CandidateView;

    open spec fn deep_view(&self) -> CandidateView {
        self@
    }
}

impl Clone for Candidate {
    fn clone(&self) -> (copy: Candidate)
        ensures
            copy == *self,
    {
        Candidate {
            name: self.name.clone(),
            path: self.path.clone(),
            key: self.key,
            is_shim: self.is_shim,
        }
    }
}

/// The candidate that a directory of the versions directory is: its key
/// is the version that its name starts with.
pub open spec fn installed_view(entry: EntryView) -> CandidateView {
    CandidateView {
        name: entry.name,
        path: entry.path,
        key: version_key_of(entry.name),
        is_shim: false,
    }
}

/// The candidate that the shim directory is: its key is the zero key, the
/// lowest.
pub open spec fn shim_view(entry: EntryView) -> CandidateView {
    CandidateView { name: entry.name, path: entry.path, key: VersionKey::zero(), is_shim: true }
}

impl Candidate {
    /// The candidate that a directory of the version manager's versions
    /// directory is.
    pub fn installed(entry: &Entry) -> (candidate: Candidate)
        ensures
            candidate@ == installed_view(entry@),
            candidate@.well_keyed(),
    {
        let key = version_key(entry.name.as_str());
        Candidate { name: entry.name.clone(), path: entry.path.clone(), key, is_shim: false }
    }

    /// The candidate that the version manager's shim directory is.
    pub fn shim(entry: &Entry) -> (candidate: Candidate)
        ensures
            candidate@ == shim_view(entry@),
            candidate@.well_keyed(),
    {
        Candidate {
            name: entry.name.clone(),
            path: entry.path.clone(),
            key: VersionKey { major: 0, minor: 0, patch: 0 },
            is_shim: true,
        }
    }
}

/// Whether `a` may stand before `b` in a ranking: its key is the higher
/// one, or the keys are equal and its name is not the earlier one in
/// dictionary order.
pub open spec fn outranks(a: CandidateView, b: CandidateView) -> bool {
    if a.key == b.key {
        lex_le(b.name, a.name)
    } else {
        b.key.le(a.key)
    }
}

/// Whether `list` is ranked: each candidate may stand before all that
/// follow it.
pub open spec fn is_ranked(list: Seq<CandidateView>) -> bool {
    forall|i: int, j: int| 0 <= i < j < list.len() ==> outranks(list[i], list[j])
}

/// Whether the keys of `list` never rise from one candidate to the next.
pub open spec fn keys_descend(list: Seq<CandidateView>) -> bool {
    forall|i: int, j: int| 0 <= i < j < list.len() ==> list[j].key.le(list[i].key)
}

/// Whether no two candidates of `list` have the same name.
pub open spec fn distinct_names(list: Seq<CandidateView>) -> bool {
    forall|i: int, j: int| 0 <= i < j < list.len() ==> list[i].name != list[j].name
}

/// Of any two candidates one may stand before the other.
pub proof fn lemma_outranks_total(a: CandidateView, b: CandidateView)
    ensures
        outranks(a, b) || outranks(b, a),
{
    lemma_lex_le_total(a.name, b.name);
}

/// A candidate may stand before itself.
pub proof fn lemma_outranks_reflexive(a: CandidateView)
    ensures
        outranks(a, a),
{
    lemma_lex_le_reflexive(a.name);
}

/// Where `a` may stand before `b` and `b` before `c`, `a` may stand before
/// `c`.
pub proof fn lemma_outranks_transitive(a: CandidateView, b: CandidateView, c: CandidateView)
    requires
        outranks(a, b),
        outranks(b, c),
    ensures
        outranks(a, c),
{
    if a.key == b.key && b.key == c.key {
        lemma_lex_le_transitive(c.name, b.name, a.name);
    }
}

/// Two candidates of which each may stand before the other have the same
/// key and the same name.
pub proof fn lemma_outranks_antisymmetric(a: CandidateView, b: CandidateView)
    requires
        outranks(a, b),
        outranks(b, a),
    ensures
        a.key == b.key,
        a.name == b.name,
{
    if a.key == b.key {
        lemma_lex_le_antisymmetric(a.name, b.name);
    }
}

/// The ranking follows the numeric order of the version keys: in a ranked
/// list no candidate has a higher key than one that stands before it.
pub proof fn lemma_ranked_keys_descend(list: Seq<CandidateView>)
    requires
        is_ranked(list),
    ensures
        keys_descend(list),
{
    assert forall|i: int, j: int| 0 <= i < j < list.len() implies list[j].key.le(
        list[i].key,
    ) by {
        assert(outranks(list[i], list[j]));
    }
}

/// A list that holds the items of a list with distinct names, each as
/// often, has distinct names too.
pub proof fn lemma_distinct_names_of_same_items(a: Seq<CandidateView>, b: Seq<CandidateView>)
    requires
        a.to_multiset() == b.to_multiset(),
        distinct_names(b),
    ensures
        distinct_names(a),
{
    broadcast use vstd::multiset::group_multiset_axioms;
    broadcast use group_to_multiset_ensures;

    assert(b.no_duplicates());
    b.lemma_multiset_has_no_duplicates();
    a.lemma_multiset_has_no_duplicates_conv();
    assert forall|i: int, j: int| 0 <= i < j < a.len() implies a[i].name != a[j].name by {
        assert(a.contains(a[i]));
        assert(a.contains(a[j]));
        assert(a.to_multiset().count(a[i]) > 0);
        assert(a.to_multiset().count(a[j]) > 0);
        assert(b.contains(a[i]));
        assert(b.contains(a[j]));
        let p = choose|p: int| 0 <= p < b.len() && b[p] == a[i];
        let q = choose|q: int| 0 <= q < b.len() && b[q] == a[j];
        assert(a[i] != a[j]);
        assert(p != q);
        if p < q {
            assert(b[p].name != b[q].name);
        } else {
            assert(b[q].name != b[p].name);
        }
    }
}

/// There is one ranking only: two ranked lists that hold the same
/// candidates, each as often, and no name twice, are the same list.
pub proof fn lemma_ranking_unique(a: Seq<CandidateView>, b: Seq<CandidateView>)
    requires
        a.to_multiset() == b.to_multiset(),
        is_ranked(a),
        is_ranked(b),
        distinct_names(a),
    ensures
        a == b,
    decreases a.len(),
{
    broadcast use vstd::multiset::group_multiset_axioms;
    broadcast use group_to_multiset_ensures;

    assert(a.to_multiset().len() == a.len());
    assert(b.to_multiset().len() == b.len());
    if a.len() == 0 {
        assert(a =~= b);
    } else {
        assert(a.contains(a[0]));
        assert(b.contains(b[0]));
        assert(b.to_multiset().count(a[0]) > 0);
        assert(a.to_multiset().count(b[0]) > 0);
        assert(b.contains(a[0]));
        assert(a.contains(b[0]));
        let i = choose|i: int| 0 <= i < b.len() && b[i] == a[0];
        let j = choose|j: int| 0 <= j < a.len() && a[j] == b[0];
        if j > 0 {
            assert(outranks(a[0], a[j]));
            if i > 0 {
                assert(outranks(b[0], b[i]));
            } else {
                lemma_outranks_reflexive(a[0]);
            }
            lemma_outranks_antisymmetric(a[0], b[0]);
            assert(a[0].name != a[j].name);
        }
        assert(a[0] == b[0]);
        assert(a.drop_first() =~= a.remove(0));
        assert(b.drop_first() =~= b.remove(0));
        to_multiset_remove(a, 0);
        to_multiset_remove(b, 0);
        lemma_ranking_unique(a.drop_first(), b.drop_first());
        assert(a =~= seq![a[0]] + a.drop_first());
        assert(b =~= seq![b[0]] + b.drop_first());
    }
}

} // verus!
