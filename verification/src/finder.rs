//! Finding an executable by name: which file names are tried in which
//! directory, in what order, and which of them is the one found.
//!
//! The library touches no file system. It lists the places to try; the
//! caller says which of them are regular files; the library picks.

use crate::pick::{first_hit, lemma_first_hit, lemma_first_hit_from, lemma_first_hit_skips};
use crate::text::{chars_of, ends_with_folded, folded};
use vstd::prelude::*;
use vstd::string::StringExecFns;

verus! {

/// Whether `binary` ends with one of `suffixes`, ASCII case ignored.
pub open spec fn has_listed_suffix(binary: Seq<char>, suffixes: Seq<Seq<char>>) -> bool {
    exists|i: int|
        0 <= i < suffixes.len() && folded(#[trigger] suffixes[i]).is_suffix_of(folded(binary))
}

/// The file names under which the executable `binary` may be stored.
/// Where the platform has no list of executable suffixes (`None`): the name
/// itself. Where it has one: the name itself if it ends with a listed
/// suffix already, else the name with each suffix appended, in the list's
/// order.
pub open spec fn name_variants(binary: Seq<char>, suffixes: Option<Seq<Seq<char>>>) -> Seq<
    Seq<char>,
> {
    match suffixes {
        None => seq![binary],
        Some(list) => if has_listed_suffix(binary, list) {
            seq![binary]
        } else {
            Seq::new(list.len(), |i: int| binary + list[i])
        },
    }
}

/// The file names under which the executable `binary` may be stored, given
/// the platform's list of executable suffixes.
pub fn with_exec_extension(binary: &str, suffixes: &Option<Vec<String>>) -> (names: Vec<String>)
    ensures
        names.deep_view() == name_variants(binary@, suffixes.deep_view()),
{
    let mut names: Vec<String> = Vec::new();
    let list = match suffixes {
        Some(list) => list,
        None => {
            names.push(String::from_str(binary));
            assert(names.deep_view() =~= seq![binary@]);
            return names;
        },
    };
    let ghost listed = list.deep_view();
    let letters = chars_of(binary);
    let mut i: usize = 0;
    while i < list.len()
        invariant
            i <= list.len(),
            letters@ == binary@,
            listed == list.deep_view(),
            suffixes.deep_view() == Some(listed),
            names@.len() == 0,
            forall|k: int|
                0 <= k < i ==> !folded(#[trigger] listed[k]).is_suffix_of(folded(binary@)),
        decreases list.len() - i,
    {
        let suffix = chars_of(list[i].as_str());
        if ends_with_folded(&letters, &suffix) {
            assert(folded(listed[i as int]).is_suffix_of(folded(binary@)));
            names.push(String::from_str(binary));
            assert(names.deep_view() =~= seq![binary@]);
            return names;
        }
        i += 1;
    }
    i = 0;
    while i < list.len()
        invariant
            i <= list.len(),
            listed == list.deep_view(),
            names@.len() == i,
            forall|k: int| 0 <= k < i ==> (#[trigger] names@[k])@ == binary@ + listed[k],
        decreases list.len() - i,
    {
        names.push(String::from_str(binary).concat(list[i].as_str()));
        i += 1;
    }
    assert(names.deep_view() =~= Seq::new(listed.len(), |k: int| binary@ + listed[k]));
    names
}

/// One place to look for an executable: a directory, by its index in the
/// search path, and a file name in it.
#[derive(Debug, PartialEq, Eq)]
pub struct Probe {
    pub dir: usize,
    pub file_name: String,
}

/// A probe as contracts speak of it.
pub struct ProbeView {
    pub dir: int,
    pub file_name: Seq<char>,
}

impl View for Probe {
    type V = ProbeView;

    open spec fn view(&self) -> ProbeView {
        ProbeView { dir: self.dir as int, file_name: self.file_name@ }
    }
}

impl DeepView for Probe {
    type V = ProbeView;

    open spec fn deep_view(&self) -> ProbeView {
        self@
    }
}

impl Clone for Probe {
    fn clone(&self) -> (copy: Probe)
        ensures
            copy == *self,
    {
        Probe { dir: self.dir, file_name: self.file_name.clone() }
    }
}

/// The probes of one directory: each of `names` in it, in order.
pub open spec fn probes_in(dir: int, names: Seq<Seq<char>>) -> Seq<ProbeView> {
    Seq::new(names.len(), |j: int| ProbeView { dir: dir, file_name: names[j] })
}

/// The probes of a search path of `dirs` directories, in the order in which
/// they are tried: directory by directory, and in each directory name by
/// name, `names` being the names to try.
pub open spec fn probes_of(dirs: nat, names: Seq<Seq<char>>) -> Seq<ProbeView>
    decreases dirs,
{
    if dirs == 0 {
        Seq::empty()
    } else {
        probes_of((dirs - 1) as nat, names) + probes_in(dirs - 1, names)
    }
}

/// The places where the executable `binary` is looked for on a search path
/// of `paths.len()` directories, in the order in which they are tried.
pub fn search_order(binary: &str, paths: &Vec<String>, suffixes: &Option<Vec<String>>) -> (order:
    Vec<Probe>)
    ensures
        order.deep_view() == probes_of(
            paths.len() as nat,
            name_variants(binary@, suffixes.deep_view()),
        ),
{
    let names = with_exec_extension(binary, suffixes);
    let ghost spelled = names.deep_view();
    let mut order: Vec<Probe> = Vec::new();
    let mut dir: usize = 0;
    assert(order.deep_view() =~= probes_of(0, spelled));
    while dir < paths.len()
        invariant
            dir <= paths.len(),
            spelled == names.deep_view(),
            order.deep_view() == probes_of(dir as nat, spelled),
        decreases paths.len() - dir,
    {
        let ghost before = order.deep_view();
        let mut j: usize = 0;
        assert(order.deep_view() =~= before + probes_in(dir as int, spelled).take(0));
        while j < names.len()
            invariant
                j <= names.len(),
                spelled == names.deep_view(),
                order.deep_view() == before + probes_in(dir as int, spelled).take(j as int),
            decreases names.len() - j,
        {
            let ghost so_far = order.deep_view();
            order.push(Probe { dir: dir, file_name: names[j].clone() });
            assert(order.deep_view() =~= so_far.push(
                ProbeView { dir: dir as int, file_name: spelled[j as int] },
            ));
            assert(order.deep_view() =~= before + probes_in(dir as int, spelled).take(j + 1));
            j += 1;
        }
        assert(probes_in(dir as int, spelled).take(j as int) =~= probes_in(dir as int, spelled));
        dir += 1;
    }
    order
}

/// The probe that finds the executable: the first of `probes` that is a
/// regular file, `is_file[k]` saying whether `probes[k]` is one. A probe
/// without a flag counts as no file, and a flag without a probe counts for
/// nothing.
pub open spec fn found_probe(probes: Seq<ProbeView>, is_file: Seq<bool>) -> Option<ProbeView> {
    match first_hit(is_file) {
        Some(k) => if k < probes.len() {
            Some(probes[k])
        } else {
            None
        },
        None => None,
    }
}

/// Picks the first place on the search path where the executable `binary`
/// is stored. `is_file` holds, for each probe of
/// `search_order(binary, paths, suffixes)`, whether a regular file is
/// there.
pub fn find_binary_on_paths(
    binary: &str,
    paths: &Vec<String>,
    suffixes: &Option<Vec<String>>,
    is_file: &Vec<bool>,
) -> (found: Option<Probe>)
    ensures
        found.deep_view() == found_probe(
            probes_of(paths.len() as nat, name_variants(binary@, suffixes.deep_view())),
            is_file@,
        ),
{
    let order = search_order(binary, paths, suffixes);
    let ghost probes = order.deep_view();
    let mut k: usize = 0;
    while k < is_file.len() && k < order.len()
        invariant
            k <= is_file.len(),
            k <= order.len(),
            probes == order.deep_view(),
            probes == probes_of(paths.len() as nat, name_variants(binary@, suffixes.deep_view())),
            forall|j: int| 0 <= j < k ==> !is_file@[j],
        decreases order.len() - k,
    {
        if is_file[k] {
            proof {
                lemma_first_hit_skips(is_file@, k as int);
                assert(probes[k as int] == order@[k as int]@);
            }
            return Some(order[k].clone());
        }
        k += 1;
    }
    proof {
        lemma_first_hit_skips(is_file@, k as int);
        lemma_first_hit_from(is_file@, k as int);
    }
    None
}

/// The executable is found at the first probe that is a regular file, and
/// nowhere exactly where no probe is one.
pub proof fn lemma_found_probe(probes: Seq<ProbeView>, is_file: Seq<bool>)
    ensures
        match found_probe(probes, is_file) {
            Some(probe) => exists|k: int|
                {
                    &&& 0 <= k < probes.len()
                    &&& k < is_file.len()
                    &&& is_file[k]
                    &&& #[trigger] probes[k] == probe
                    &&& forall|j: int| 0 <= j < k ==> !is_file[j]
                },
            None => forall|k: int| 0 <= k < probes.len() && k < is_file.len() ==> !is_file[k],
        },
{
    lemma_first_hit(is_file);
    if let Some(k) = first_hit(is_file) {
        if k < probes.len() {
            assert(probes[k] == found_probe(probes, is_file)->0);
        }
    }
}

} // verus!
