use py_launcher::candidate::{Candidate, Entry};
use py_launcher::finder::Probe;
use py_launcher::launcher::{
    choose_interpreter, exit_status, locate_interpreter, locate_manager, Choice, LaunchError,
    Missing, FAILURE, INTERPRETER, MANAGER,
};
use py_launcher::scanner::scan_candidates;

fn strings(items: &[&str]) -> Vec<String> {
    items.iter().map(|s| s.to_string()).collect()
}

fn entry(name: &str) -> Entry {
    Entry { name: name.to_string(), path: format!("/root/versions/{}", name) }
}

fn ranked(names: &[&str]) -> Vec<Candidate> {
    let installed: Vec<Entry> = names.iter().map(|name| entry(name)).collect();
    let shim = Entry { name: "shims".to_string(), path: "/root/shims".to_string() };
    scan_candidates(&installed, &shim)
}

#[test]
fn status_of_the_interpreter_is_handed_on() {
    assert_eq!(exit_status(Some(7), None), 7);
    assert_eq!(exit_status(Some(0), None), 0);
    assert_eq!(exit_status(Some(-1), None), -1);
    assert_eq!(exit_status(Some(3), Some(9)), 3);
}

#[test]
fn signal_that_ended_the_interpreter_is_handed_on() {
    assert_eq!(exit_status(None, Some(9)), 9);
    assert_eq!(exit_status(None, Some(15)), 15);
}

#[test]
fn interpreter_without_status_and_signal_is_a_failure() {
    assert_eq!(exit_status(None, None), 1);
    assert_eq!(FAILURE, 1);
}

#[test]
fn selector_in_front_chooses_the_version_and_is_taken_off() {
    let candidates = ranked(&["3.9.1", "3.11.4"]);
    let args = strings(&["-3.9", "script.py", "-3.11"]);
    let choice = choose_interpreter(&args, &candidates, 64).unwrap();
    assert_eq!(choice, Choice { candidate: 1, first_argument: 1 });
    assert_eq!(candidates[choice.candidate].name, "3.9.1");
    assert_eq!(args[choice.first_argument..], strings(&["script.py", "-3.11"])[..]);
}

#[test]
fn command_line_without_selector_starts_the_shim_with_all_arguments() {
    let candidates = ranked(&["3.9.1", "3.11.4"]);
    let args = strings(&["foo", "-3.9"]);
    let choice = choose_interpreter(&args, &candidates, 64).unwrap();
    assert_eq!(choice, Choice { candidate: 2, first_argument: 0 });
    assert!(candidates[choice.candidate].is_shim);
    assert_eq!(args[choice.first_argument..], strings(&["foo", "-3.9"])[..]);
    let choice = choose_interpreter(&strings(&["-foo"]), &candidates, 64).unwrap();
    assert_eq!(choice, Choice { candidate: 2, first_argument: 0 });
    let choice = choose_interpreter(&Vec::new(), &candidates, 64).unwrap();
    assert_eq!(choice, Choice { candidate: 2, first_argument: 0 });
}

#[test]
fn failed_resolution_is_reported() {
    let candidates = ranked(&["3.9.1"]);
    assert_eq!(
        choose_interpreter(&strings(&["-2"]), &candidates, 64),
        Err(LaunchError::VersionNotFound)
    );
    assert_eq!(
        choose_interpreter(&strings(&["-3-32"]), &candidates, 8),
        Err(LaunchError::ArchitectureUndetermined)
    );
    assert_eq!(
        choose_interpreter(&strings(&["script.py"]), &Vec::new(), 64),
        Err(LaunchError::NoShimConfigured)
    );
}

#[test]
fn version_manager_is_found_on_the_search_path() {
    let paths = strings(&["/usr/bin", "/opt/pyenv/bin"]);
    let found = locate_manager(&paths, &None, &vec![false, true]);
    assert_eq!(found, Ok(Probe { dir: 1, file_name: "pyenv".to_string() }));
    let suffixes = Some(strings(&[".EXE", ".BAT"]));
    let found = locate_manager(&paths, &suffixes, &vec![false, false, false, true]);
    assert_eq!(found, Ok(Probe { dir: 1, file_name: "pyenv.BAT".to_string() }));
}

#[test]
fn missing_version_manager_is_a_discovery_error() {
    let paths = strings(&["/usr/bin", "/opt/pyenv/bin"]);
    assert_eq!(
        locate_manager(&paths, &None, &vec![false, false]),
        Err(LaunchError::Discovery(Missing::Manager))
    );
    assert_eq!(
        locate_manager(&Vec::new(), &None, &Vec::new()),
        Err(LaunchError::Discovery(Missing::Manager))
    );
}

#[test]
fn interpreter_is_found_in_the_chosen_directory() {
    let chosen = Candidate::installed(&entry("3.9.1"));
    assert_eq!(locate_interpreter(&chosen, &None, &vec![true]), Ok("python".to_string()));
    let suffixes = Some(strings(&[".COM", ".EXE"]));
    assert_eq!(
        locate_interpreter(&chosen, &suffixes, &vec![false, true]),
        Ok("python.EXE".to_string())
    );
    assert_eq!(
        locate_interpreter(&chosen, &suffixes, &vec![true, true]),
        Ok("python.COM".to_string())
    );
}

#[test]
fn directory_without_interpreter_is_a_damaged_installation() {
    let chosen = Candidate::installed(&entry("3.9.1"));
    let damaged = Err(LaunchError::DamagedInstallation { version: "3.9.1".to_string() });
    assert_eq!(locate_interpreter(&chosen, &None, &vec![false]), damaged);
    assert_eq!(locate_interpreter(&chosen, &None, &Vec::new()), damaged);
    let suffixes = Some(strings(&[".COM", ".EXE"]));
    assert_eq!(locate_interpreter(&chosen, &suffixes, &vec![false, false]), damaged);
    assert_eq!(locate_interpreter(&chosen, &Some(Vec::new()), &vec![true]), damaged);
}

#[test]
fn every_error_has_its_message() {
    assert_eq!(LaunchError::Discovery(Missing::Manager).message(), "Unable to find pyenv");
    assert_eq!(
        LaunchError::Discovery(Missing::VersionsDirectory).message(),
        "Unable to read the versions directory"
    );
    assert_eq!(LaunchError::VersionNotFound.message(), "Unable to find specified version");
    assert_eq!(LaunchError::NoShimConfigured.message(), "Unable to find specified version");
    assert_eq!(
        LaunchError::ArchitectureUndetermined.message(),
        "Unable to determine the architecture of this machine"
    );
    assert_eq!(
        LaunchError::DamagedInstallation { version: "3.9.1".to_string() }.message(),
        "Unable to find python binary: 3.9.1"
    );
    assert_eq!(LaunchError::SpawnFailure.message(), "Unable to execute the binary");
}

#[test]
fn executables_are_called_pyenv_and_python() {
    assert_eq!(MANAGER, "pyenv");
    assert_eq!(INTERPRETER, "python");
}
