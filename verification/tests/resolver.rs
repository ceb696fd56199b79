use py_launcher::candidate::{Candidate, Entry};
use py_launcher::resolver::{name_satisfies, resolve, ResolveError};
use py_launcher::scanner::scan_candidates;
use py_launcher::selector::{Arch, Selector};

fn entry(name: &str) -> Entry {
    Entry { name: name.to_string(), path: format!("/root/versions/{}", name) }
}

fn ranked(names: &[&str]) -> Vec<Candidate> {
    let installed: Vec<Entry> = names.iter().map(|name| entry(name)).collect();
    let shim = Entry { name: "shims".to_string(), path: "/root/shims".to_string() };
    scan_candidates(&installed, &shim)
}

fn selector(prefix: &str, arch: Option<Arch>) -> Option<Selector> {
    Some(Selector { prefix: prefix.to_string(), arch })
}

fn chosen(selector: &Option<Selector>, candidates: &[Candidate], width: u32) -> String {
    let index = resolve(selector, &candidates.to_vec(), width).unwrap();
    candidates[index].name.clone()
}

#[test]
fn highest_version_with_the_prefix_is_chosen() {
    let candidates = ranked(&["3.9.1", "3.11.4", "2.7.18", "3.10.0"]);
    assert_eq!(chosen(&selector("3", None), &candidates, 64), "3.11.4");
    assert_eq!(chosen(&selector("3.9", None), &candidates, 64), "3.9.1");
    assert_eq!(chosen(&selector("3.1", None), &candidates, 64), "3.11.4");
    assert_eq!(chosen(&selector("2", None), &candidates, 64), "2.7.18");
    assert_eq!(chosen(&selector("3.10.0", None), &candidates, 64), "3.10.0");
}

#[test]
fn own_width_takes_the_directory_without_the_other_mark() {
    let candidates = ranked(&["3.9.1", "3.9.1-win32"]);
    assert_eq!(chosen(&selector("3.9", Some(Arch::Bits64)), &candidates, 64), "3.9.1");
}

#[test]
fn other_width_takes_the_directory_with_its_mark() {
    let candidates = ranked(&["3.9.1", "3.9.1-win32"]);
    assert_eq!(chosen(&selector("3.9", Some(Arch::Bits32)), &candidates, 64), "3.9.1-win32");
}

#[test]
fn widths_change_places_on_a_host_of_32_bits() {
    let candidates = ranked(&["3.9.1", "3.9.1-amd64"]);
    assert_eq!(chosen(&selector("3.9", Some(Arch::Bits32)), &candidates, 32), "3.9.1");
    assert_eq!(chosen(&selector("3.9", Some(Arch::Bits64)), &candidates, 32), "3.9.1-amd64");
}

#[test]
fn own_width_takes_a_directory_with_its_own_mark() {
    let candidates = ranked(&["3.9.1-amd64", "3.9.1-win32"]);
    assert_eq!(chosen(&selector("3", Some(Arch::Bits64)), &candidates, 64), "3.9.1-amd64");
    assert_eq!(chosen(&selector("3", Some(Arch::Bits32)), &candidates, 32), "3.9.1-win32");
}

#[test]
fn width_does_not_outweigh_the_version() {
    let candidates = ranked(&["3.9.1-win32", "3.11.4", "3.8.0-win32"]);
    assert_eq!(chosen(&selector("3", Some(Arch::Bits32)), &candidates, 64), "3.9.1-win32");
    assert_eq!(chosen(&selector("3", Some(Arch::Bits64)), &candidates, 64), "3.11.4");
}

#[test]
fn selector_without_a_match_finds_no_version() {
    let candidates = ranked(&["3.9.1", "3.11.4"]);
    assert_eq!(resolve(&selector("2", None), &candidates, 64), Err(ResolveError::VersionNotFound));
    assert_eq!(
        resolve(&selector("3.9", Some(Arch::Bits32)), &candidates, 64),
        Err(ResolveError::VersionNotFound)
    );
    assert_eq!(
        resolve(&selector("3", None), &Vec::new(), 64),
        Err(ResolveError::VersionNotFound)
    );
}

#[test]
fn width_on_a_host_of_unknown_width_cannot_be_resolved() {
    let candidates = ranked(&["3.9.1", "3.9.1-win32"]);
    assert_eq!(
        resolve(&selector("3.9", Some(Arch::Bits32)), &candidates, 16),
        Err(ResolveError::ArchitectureUndetermined)
    );
    assert_eq!(
        resolve(&selector("2", Some(Arch::Bits64)), &candidates, 128),
        Err(ResolveError::ArchitectureUndetermined)
    );
    assert_eq!(chosen(&selector("3.9", None), &candidates, 16), "3.9.1-win32");
}

#[test]
fn no_selector_takes_the_shim_directory() {
    let candidates = ranked(&["3.9.1", "3.11.4", "pypy3.9"]);
    let index = resolve(&None, &candidates, 64).unwrap();
    assert_eq!(index, 3);
    assert!(candidates[index].is_shim);
    assert_eq!(candidates[index].path, "/root/shims");
    assert_eq!(chosen(&None, &ranked(&[]), 64), "shims");
    assert_eq!(chosen(&None, &candidates, 16), "shims");
}

#[test]
fn no_selector_and_no_shim_directory_is_an_error() {
    let mut candidates = ranked(&["3.9.1", "3.11.4"]);
    candidates.pop();
    assert_eq!(resolve(&None, &candidates, 64), Err(ResolveError::NoShimConfigured));
    assert_eq!(resolve(&None, &Vec::new(), 64), Err(ResolveError::NoShimConfigured));
}

#[test]
fn shim_directory_is_chosen_by_prefix_only_where_its_name_has_it() {
    let candidates = ranked(&["3.9.1"]);
    assert_eq!(resolve(&selector("s", None), &candidates, 64), Ok(1));
    assert_eq!(resolve(&selector("4", None), &candidates, 64), Err(ResolveError::VersionNotFound));
}

#[test]
fn first_of_the_candidates_that_satisfy_is_chosen() {
    let plain = |name: &str| Candidate::installed(&entry(name));
    let unranked = vec![plain("3.9.1"), plain("3.11.4"), plain("3.9.7")];
    assert_eq!(resolve(&selector("3", None), &unranked, 64), Ok(0));
    assert_eq!(resolve(&selector("3.11", None), &unranked, 64), Ok(1));
    assert_eq!(resolve(&selector("3.9.7", None), &unranked, 64), Ok(2));
}

#[test]
fn name_satisfies_a_selector_by_prefix_and_mark() {
    let wanted = |prefix: &str, arch| Selector { prefix: prefix.to_string(), arch };
    assert!(name_satisfies("3.9.1", &wanted("3.9", None), 64));
    assert!(name_satisfies("3.9.1-win32", &wanted("3.9", None), 64));
    assert!(!name_satisfies("3.9.1", &wanted("3.8", None), 64));
    assert!(!name_satisfies("13.9.1", &wanted("3.9", None), 64));
    assert!(name_satisfies("3.9.1", &wanted("3.9", Some(Arch::Bits64)), 64));
    assert!(name_satisfies("3.9.1-amd64", &wanted("3.9", Some(Arch::Bits64)), 64));
    assert!(!name_satisfies("3.9.1-win32", &wanted("3.9", Some(Arch::Bits64)), 64));
    assert!(name_satisfies("3.9.1-win32", &wanted("3.9", Some(Arch::Bits32)), 64));
    assert!(!name_satisfies("3.9.1", &wanted("3.9", Some(Arch::Bits32)), 64));
    assert!(!name_satisfies("3.9.1-amd64", &wanted("3.9", Some(Arch::Bits32)), 64));
    assert!(!name_satisfies("3.8.1-win32", &wanted("3.9", Some(Arch::Bits32)), 64));
}
