//! Resolving a selector: which of the ranked candidates is the interpreter
//! that was asked for.

use crate::candidate::{
    installed_view, keys_descend, shim_view, Candidate, CandidateView, EntryView,
};
use crate::pick::{first_hit, lemma_first_hit, lemma_first_hit_skips};
use crate::scanner::{
    candidates_of, is_scan_of, lemma_scan_keeps_entries, lemma_scan_keys_descend,
};
use crate::version::version_key_of;
use crate::selector::{Arch, Selector, SelectorView};
use crate::text::{chars_of, ends_with, starts_with};
use vstd::prelude::*;

verus! {

/// Why no candidate was chosen.
#[derive(Clone, Copy, Debug, PartialEq, Eq, Structural)]
pub enum ResolveError {
    /// No selector was given and the candidates hold no shim directory.
    NoShimConfigured,
    /// No candidate satisfies the selector.
    VersionNotFound,
    /// The selector names a width, and the host's is neither 32 nor 64
    /// bits.
    ArchitectureUndetermined,
}

/// The mark at the end of the name of a directory that holds an
/// interpreter of the given width: `win32` or `amd64`. A name without a
/// mark stands for the host's own width.
pub open spec fn marker(arch: Arch) -> Seq<char> {
    match arch {
        Arch::Bits32 => seq!['w', 'i', 'n', '3', '2'],
        Arch::Bits64 => seq!['a', 'm', 'd', '6', '4'],
    }
}

/// The other of the two widths.
pub open spec fn other_width(arch: Arch) -> Arch {
    match arch {
        Arch::Bits32 => Arch::Bits64,
        Arch::Bits64 => Arch::Bits32,
    }
}

/// Whether a directory called `name` holds what `selector` asks for, on a
/// host whose pointers are `width` bits wide. The name starts with the
/// selector's prefix. Where the selector names the host's own width, the
/// name does not end with the other width's mark; where it names the other
/// width, the name ends with that width's mark.
pub open spec fn satisfies(name: Seq<char>, selector: SelectorView, width: int) -> bool {
    selector.prefix.is_prefix_of(name) && match selector.arch {
        None => true,
        Some(arch) => if arch.bits() == width {
            !marker(other_width(arch)).is_suffix_of(name)
        } else {
            marker(arch).is_suffix_of(name)
        },
    }
}

/// Whether `candidate` may be chosen: with a selector, if its name
/// satisfies it; without one, if it is the shim directory.
pub open spec fn eligible(
    candidate: CandidateView,
    selector: Option<SelectorView>,
    width: int,
) -> bool {
    match selector {
        Some(wanted) => satisfies(candidate.name, wanted, width),
        None => candidate.is_shim,
    }
}

/// For each candidate, whether it may be chosen.
pub open spec fn eligibility(
    candidates: Seq<CandidateView>,
    selector: Option<SelectorView>,
    width: int,
) -> Seq<bool> {
    Seq::new(candidates.len(), |i: int| eligible(candidates[i], selector, width))
}

/// Whether the selector names a width on a host whose own width is neither
/// 32 nor 64 bits.
pub open spec fn width_unknown(selector: Option<SelectorView>, width: int) -> bool {
    selector matches Some(wanted) && wanted.arch is Some && width != 32 && width != 64
}

/// How the selector resolves: to the index of the first candidate that may
/// be chosen, or why to none. A selector that names a width cannot be
/// resolved on a host of another width than 32 or 64 bits; a selector that
/// no candidate satisfies finds no version; and without a selector,
/// candidates without a shim directory have no shim configured.
pub open spec fn resolution(
    selector: Option<SelectorView>,
    candidates: Seq<CandidateView>,
    width: int,
) -> Result<int, ResolveError> {
    if width_unknown(selector, width) {
        Err(ResolveError::ArchitectureUndetermined)
    } else {
        match first_hit(eligibility(candidates, selector, width)) {
            Some(index) => Ok(index),
            None => if selector is Some {
                Err(ResolveError::VersionNotFound)
            } else {
                Err(ResolveError::NoShimConfigured)
            },
        }
    }
}

/// The characters of a width's mark.
fn marker_chars(arch: Arch) -> (mark: Vec<char>)
    ensures
        mark@ == marker(arch),
{
    let mark = match arch {
        Arch::Bits32 => vec!['w', 'i', 'n', '3', '2'],
        Arch::Bits64 => vec!['a', 'm', 'd', '6', '4'],
    };
    assert(mark@ =~= marker(arch));
    mark
}

/// Whether the directory called `name` holds what `selector` asks for on a
/// host whose pointers are `pointer_width` bits wide.
pub fn name_satisfies(name: &str, selector: &Selector, pointer_width: u32) -> (yes: bool)
    ensures
        yes == satisfies(name@, selector@, pointer_width as int),
{
    let letters = chars_of(name);
    let prefix = chars_of(selector.prefix.as_str());
    if !starts_with(&letters, &prefix) {
        return false;
    }
    match selector.arch {
        None => true,
        Some(arch) => {
            if arch.width() == pointer_width {
                let foreign = match arch {
                    Arch::Bits32 => Arch::Bits64,
                    Arch::Bits64 => Arch::Bits32,
                };
                !ends_with(&letters, &marker_chars(foreign))
            } else {
                ends_with(&letters, &marker_chars(arch))
            }
        },
    }
}

/// Chooses the interpreter: the first of `candidates`, which come ranked,
/// that satisfies `selector` on a host whose pointers are `pointer_width`
/// bits wide; without a selector, the shim directory. The candidate is
/// given by its index.
pub fn resolve(
    selector: &Option<Selector>,
    candidates: &Vec<Candidate>,
    pointer_width: u32,
) -> (outcome: Result<usize, ResolveError>)
    ensures
        match outcome {
            Ok(index) => resolution(
                selector.deep_view(),
                candidates.deep_view(),
                pointer_width as int,
            ) == Ok::<int, ResolveError>(index as int) && index < candidates.len(),
            Err(error) => resolution(
                selector.deep_view(),
                candidates.deep_view(),
                pointer_width as int,
            ) == Err::<int, ResolveError>(error),
        },
{
    if let Some(wanted) = selector {
        if wanted.arch.is_some() && pointer_width != 32 && pointer_width != 64 {
            return Err(ResolveError::ArchitectureUndetermined);
        }
    }
    let ghost flags = eligibility(
        candidates.deep_view(),
        selector.deep_view(),
        pointer_width as int,
    );
    let mut i: usize = 0;
    while i < candidates.len()
        invariant
            i <= candidates.len(),
            flags == eligibility(
                candidates.deep_view(),
                selector.deep_view(),
                pointer_width as int,
            ),
            !width_unknown(selector.deep_view(), pointer_width as int),
            forall|j: int| 0 <= j < i ==> !flags[j],
        decreases candidates.len() - i,
    {
        let candidate = &candidates[i];
        assert(candidates.deep_view()[i as int] == candidate@);
        let hit = match selector {
            Some(wanted) => name_satisfies(candidate.name.as_str(), wanted, pointer_width),
            None => candidate.is_shim,
        };
        assert(hit == flags[i as int]);
        if hit {
            proof {
                lemma_first_hit_skips(flags, i as int);
            }
            return Ok(i);
        }
        i += 1;
    }
    proof {
        lemma_first_hit_skips(flags, i as int);
    }
    if selector.is_some() {
        Err(ResolveError::VersionNotFound)
    } else {
        Err(ResolveError::NoShimConfigured)
    }
}

/// A resolution picks the first candidate that may be chosen, and fails
/// only where the host's width is unknown or no candidate may be chosen.
pub proof fn lemma_resolution_is_first_eligible(
    selector: Option<SelectorView>,
    candidates: Seq<CandidateView>,
    width: int,
)
    ensures
        match resolution(selector, candidates, width) {
            Ok(index) => {
                &&& !width_unknown(selector, width)
                &&& 0 <= index < candidates.len()
                &&& eligible(candidates[index], selector, width)
                &&& forall|j: int|
                    0 <= j < index ==> !eligible(#[trigger] candidates[j], selector, width)
            },
            Err(ResolveError::ArchitectureUndetermined) => width_unknown(selector, width),
            Err(ResolveError::VersionNotFound) => {
                &&& !width_unknown(selector, width)
                &&& selector is Some
                &&& forall|j: int|
                    0 <= j < candidates.len() ==> !eligible(
                        #[trigger] candidates[j],
                        selector,
                        width,
                    )
            },
            Err(ResolveError::NoShimConfigured) => {
                &&& selector is None
                &&& forall|j: int| 0 <= j < candidates.len() ==> !(#[trigger] candidates[j]).is_shim
            },
        },
{
    let flags = eligibility(candidates, selector, width);
    lemma_first_hit(flags);
    assert forall|j: int| 0 <= j < candidates.len() implies flags[j] == eligible(
        #[trigger] candidates[j],
        selector,
        width,
    ) by {}
}

/// Among the candidates that satisfy a selector the one with the highest
/// version key is chosen, whatever the order of their names: in a list
/// whose keys descend, no candidate that satisfies the selector has a
/// higher key than the chosen one.
pub proof fn lemma_resolve_picks_highest_key(
    wanted: SelectorView,
    candidates: Seq<CandidateView>,
    width: int,
)
    requires
        keys_descend(candidates),
        resolution(Some(wanted), candidates, width) is Ok,
    ensures
        forall|j: int|
            0 <= j < candidates.len() && satisfies(
                (#[trigger] candidates[j]).name,
                wanted,
                width,
            ) ==> candidates[j].key.le(
                candidates[resolution(Some(wanted), candidates, width)->Ok_0].key,
            ),
{
    lemma_resolution_is_first_eligible(Some(wanted), candidates, width);
}

/// Without a selector the shim directory is chosen, whatever else is
/// installed: the resolution gives a shim directory where the candidates
/// hold one, and fails only where they hold none.
pub proof fn lemma_no_selector_picks_shim(candidates: Seq<CandidateView>, width: int)
    ensures
        match resolution(None, candidates, width) {
            Ok(index) => 0 <= index < candidates.len() && candidates[index].is_shim,
            Err(error) => error == ResolveError::NoShimConfigured && forall|j: int|
                0 <= j < candidates.len() ==> !(#[trigger] candidates[j]).is_shim,
        },
{
    lemma_resolution_is_first_eligible(None, candidates, width);
}

/// After a scan, a selector chooses the highest of the installed versions
/// that satisfy it: no directory whose name satisfies the selector has a
/// version above that of the chosen candidate.
pub proof fn lemma_scan_resolves_to_highest_key(
    ranked: Seq<CandidateView>,
    entries: Seq<EntryView>,
    shim: EntryView,
    wanted: SelectorView,
    width: int,
)
    requires
        is_scan_of(ranked, entries, shim),
        resolution(Some(wanted), ranked, width) is Ok,
    ensures
        forall|k: int|
            0 <= k < entries.len() && satisfies(
                (#[trigger] entries[k]).name,
                wanted,
                width,
            ) ==> version_key_of(entries[k].name).le(
                ranked[resolution(Some(wanted), ranked, width)->Ok_0].key,
            ),
{
    lemma_scan_keys_descend(ranked, entries, shim);
    lemma_scan_keeps_entries(ranked, entries, shim);
    lemma_resolve_picks_highest_key(wanted, ranked, width);
    let chosen = resolution(Some(wanted), ranked, width)->Ok_0;
    assert forall|k: int|
        0 <= k < entries.len() && satisfies(
            (#[trigger] entries[k]).name,
            wanted,
            width,
        ) implies version_key_of(entries[k].name).le(ranked[chosen].key) by {
        let candidate = installed_view(entries[k]);
        assert(ranked.contains(candidate));
        let j = choose|j: int| 0 <= j < ranked.len() && ranked[j] == candidate;
        assert(satisfies(ranked[j].name, wanted, width));
    }
}

/// After a scan, a command line without a selector starts the shim
/// directory, whatever versions are installed: the resolution without a
/// selector gives the last candidate, the shim directory.
pub proof fn lemma_scan_resolves_to_shim(
    ranked: Seq<CandidateView>,
    entries: Seq<EntryView>,
    shim: EntryView,
    width: int,
)
    requires
        is_scan_of(ranked, entries, shim),
    ensures
        resolution(None, ranked, width) == Ok::<int, ResolveError>(ranked.len() - 1),
        ranked[ranked.len() - 1] == shim_view(shim),
{
    lemma_resolution_is_first_eligible(None, ranked, width);
    lemma_scan_keeps_entries(ranked, entries, shim);
    let last = ranked.len() - 1;
    assert(ranked[last].is_shim);
    let found = candidates_of(entries);
    assert forall|j: int| 0 <= j < last implies !(#[trigger] ranked[j]).is_shim by {
        assert(found.contains(ranked[j]));
        let k = choose|k: int| 0 <= k < found.len() && found[k] == ranked[j];
        assert(found[k] == installed_view(entries[k]));
    }
}

} // verus!
