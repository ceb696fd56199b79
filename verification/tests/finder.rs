use py_launcher::finder::{find_binary_on_paths, search_order, with_exec_extension, Probe};

fn strings(items: &[&str]) -> Vec<String> {
    items.iter().map(|s| s.to_string()).collect()
}

#[test]
fn name_is_kept_without_suffix_list() {
    assert_eq!(with_exec_extension("python", &None), strings(&["python"]));
}

#[test]
fn every_listed_suffix_is_appended_in_order() {
    let suffixes = Some(strings(&[".COM", ".EXE", ".BAT"]));
    assert_eq!(
        with_exec_extension("python", &suffixes),
        strings(&["python.COM", "python.EXE", "python.BAT"])
    );
}

#[test]
fn name_with_listed_suffix_is_kept() {
    let suffixes = Some(strings(&[".COM", ".EXE", ".BAT"]));
    assert_eq!(with_exec_extension("pyenv.bat", &suffixes), strings(&["pyenv.bat"]));
    assert_eq!(with_exec_extension("PYTHON.Exe", &suffixes), strings(&["PYTHON.Exe"]));
}

#[test]
fn empty_suffix_list_gives_no_name() {
    assert_eq!(with_exec_extension("python", &Some(Vec::new())), Vec::<String>::new());
}

#[test]
fn probes_go_directory_by_directory() {
    let paths = strings(&["/a", "/b"]);
    let suffixes = Some(strings(&[".exe", ".bat"]));
    let order = search_order("py", &paths, &suffixes);
    let expected = vec![
        Probe { dir: 0, file_name: "py.exe".to_string() },
        Probe { dir: 0, file_name: "py.bat".to_string() },
        Probe { dir: 1, file_name: "py.exe".to_string() },
        Probe { dir: 1, file_name: "py.bat".to_string() },
    ];
    assert_eq!(order, expected);
}

#[test]
fn first_regular_file_is_found() {
    let paths = strings(&["/a", "/b"]);
    let suffixes = Some(strings(&[".exe", ".bat"]));
    let found = find_binary_on_paths("py", &paths, &suffixes, &vec![false, false, true, true]);
    assert_eq!(found, Some(Probe { dir: 1, file_name: "py.exe".to_string() }));
}

#[test]
fn nothing_is_found_where_no_probe_is_a_file() {
    let paths = strings(&["/a", "/b"]);
    let found = find_binary_on_paths("pyenv", &paths, &None, &vec![false, false]);
    assert_eq!(found, None);
}

#[test]
fn flags_beyond_the_probes_count_for_nothing() {
    let paths = strings(&["/a"]);
    let found = find_binary_on_paths("pyenv", &paths, &None, &vec![false, true, true]);
    assert_eq!(found, None);
}

#[test]
fn probes_without_a_flag_count_as_no_file() {
    let paths = strings(&["/a", "/b", "/c"]);
    assert_eq!(find_binary_on_paths("pyenv", &paths, &None, &Vec::new()), None);
    let found = find_binary_on_paths("pyenv", &paths, &None, &vec![false, true]);
    assert_eq!(found, Some(Probe { dir: 1, file_name: "pyenv".to_string() }));
}
