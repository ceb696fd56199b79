//! The launcher's decisions: which interpreter is started with which
//! arguments, what is reported when none can be, and with what status the
//! launcher ends.

use crate::candidate::{shim_view, Candidate, CandidateView, EntryView};
use crate::finder::{find_binary_on_paths, found_probe, name_variants, probes_of, Probe};
use crate::resolver::{lemma_scan_resolves_to_shim, resolution, resolve, ResolveError};
use crate::scanner::is_scan_of;
use crate::selector::{forwarded, selector_in, split_arguments};
use vstd::prelude::*;
use vstd::string::StringExecFns;

verus! {

/// The name of the version manager's executable.
pub const MANAGER: &'static str = "pyenv";

/// The name of the interpreter's executable.
pub const INTERPRETER: &'static str = "python";

/// The status with which the launcher ends when it could not start the
/// interpreter.
pub const FAILURE: i32 = 1;

/// What a discovery did not find.
#[derive(Clone, Copy, Debug, PartialEq, Eq, Structural)]
pub enum Missing {
    /// The version manager's executable is not on the search path.
    Manager,
    /// The version manager's versions directory cannot be read.
    VersionsDirectory,
}

/// Why the interpreter was not started.
#[derive(Debug, PartialEq, Eq)]
pub enum LaunchError {
    /// The version manager or its versions directory is missing.
    Discovery(Missing),
    /// No installed version satisfies the selector.
    VersionNotFound,
    /// No selector was given and there is no shim directory.
    NoShimConfigured,
    /// The selector names a width and the host's own is unknown.
    ArchitectureUndetermined,
    /// The chosen directory holds no interpreter.
    DamagedInstallation { version: String },
    /// The interpreter could not be started.
    SpawnFailure,
}

/// A launch error as contracts speak of it.
pub enum LaunchErrorView {
    Discovery(Missing),
    VersionNotFound,
    NoShimConfigured,
    ArchitectureUndetermined,
    DamagedInstallation { version: Seq<char> },
    SpawnFailure,
}

impl View for LaunchError {
    type V = LaunchErrorView;

    open spec fn view(&self) -> LaunchErrorView {
        match self {
            LaunchError::Discovery(missing) => LaunchErrorView::Discovery(*missing),
            LaunchError::VersionNotFound => LaunchErrorView::VersionNotFound,
            LaunchError::NoShimConfigured => LaunchErrorView::NoShimConfigured,
            LaunchError::ArchitectureUndetermined => LaunchErrorView::ArchitectureUndetermined,
            LaunchError::DamagedInstallation { version } => LaunchErrorView::DamagedInstallation {
                version: version@,
            },
            LaunchError::SpawnFailure => LaunchErrorView::SpawnFailure,
        }
    }
}

impl DeepView for LaunchError {
    type V = LaunchErrorView;

    open spec fn deep_view(&self) -> LaunchErrorView {
        self@
    }
}

impl LaunchErrorView {
    /// The line that tells the user of the error.
    pub open spec fn message(self) -> Seq<char> {
        match self {
            LaunchErrorView::Discovery(Missing::Manager) => "Unable to find pyenv"@,
            LaunchErrorView::Discovery(Missing::VersionsDirectory) =>
                "Unable to read the versions directory"@,
            LaunchErrorView::VersionNotFound => "Unable to find specified version"@,
            LaunchErrorView::NoShimConfigured => "Unable to find specified version"@,
            LaunchErrorView::ArchitectureUndetermined =>
                "Unable to determine the architecture of this machine"@,
            LaunchErrorView::DamagedInstallation { version } => "Unable to find python binary: "@
                + version,
            LaunchErrorView::SpawnFailure => "Unable to execute the binary"@,
        }
    }
}

impl LaunchError {
    /// The line that tells the user of the error. A damaged installation is
    /// reported with the name of its directory.
    pub fn message(&self) -> (line: String)
        ensures
            line@ == self@.message(),
    {
        match self {
            LaunchError::Discovery(Missing::Manager) => String::from_str("Unable to find pyenv"),
            LaunchError::Discovery(Missing::VersionsDirectory) => String::from_str(
                "Unable to read the versions directory",
            ),
            LaunchError::VersionNotFound => String::from_str("Unable to find specified version"),
            LaunchError::NoShimConfigured => String::from_str("Unable to find specified version"),
            LaunchError::ArchitectureUndetermined => String::from_str(
                "Unable to determine the architecture of this machine",
            ),
            LaunchError::DamagedInstallation { version } => String::from_str(
                "Unable to find python binary: ",
            ).concat(version.as_str()),
            LaunchError::SpawnFailure => String::from_str("Unable to execute the binary"),
        }
    }
}

/// The launch error that a failed resolution is reported as.
pub open spec fn launch_error_of(error: ResolveError) -> LaunchErrorView {
    match error {
        ResolveError::NoShimConfigured => LaunchErrorView::NoShimConfigured,
        ResolveError::VersionNotFound => LaunchErrorView::VersionNotFound,
        ResolveError::ArchitectureUndetermined => LaunchErrorView::ArchitectureUndetermined,
    }
}

/// What is started: a candidate, by its index among the candidates, and
/// the index in the command line from which on the arguments are the
/// interpreter's.
#[derive(Clone, Copy, Debug, PartialEq, Eq, Structural)]
pub struct Choice {
    pub candidate: usize,
    pub first_argument: usize,
}

/// Decides what is started: the candidate that the command line `args`
/// (without the program's own name) asks for, and the arguments that are
/// the interpreter's. Without a selector in front, that is the shim
/// directory and all of `args`.
pub fn choose_interpreter(
    args: &Vec<String>,
    candidates: &Vec<Candidate>,
    pointer_width: u32,
) -> (outcome: Result<Choice, LaunchError>)
    ensures
        match outcome {
            Ok(choice) => {
                &&& resolution(
                    selector_in(args.deep_view()),
                    candidates.deep_view(),
                    pointer_width as int,
                ) == Ok::<int, ResolveError>(choice.candidate as int)
                &&& choice.candidate < candidates.len()
                &&& choice.first_argument == (if selector_in(args.deep_view()) is Some {
                    1usize
                } else {
                    0usize
                })
            },
            Err(error) => resolution(
                selector_in(args.deep_view()),
                candidates.deep_view(),
                pointer_width as int,
            ) matches Err(reason) && error@ == launch_error_of(reason),
        },
{
    let (selector, skipped) = split_arguments(args);
    match resolve(&selector, candidates, pointer_width) {
        Ok(index) => Ok(Choice { candidate: index, first_argument: skipped }),
        Err(ResolveError::NoShimConfigured) => Err(LaunchError::NoShimConfigured),
        Err(ResolveError::VersionNotFound) => Err(LaunchError::VersionNotFound),
        Err(ResolveError::ArchitectureUndetermined) => Err(LaunchError::ArchitectureUndetermined),
    }
}

/// A command line without a selector in front starts the shim directory
/// with all its arguments, whatever versions a scan found installed.
pub proof fn lemma_no_selector_starts_shim(
    args: Seq<Seq<char>>,
    ranked: Seq<CandidateView>,
    entries: Seq<EntryView>,
    shim: EntryView,
    width: int,
)
    requires
        selector_in(args) is None,
        is_scan_of(ranked, entries, shim),
    ensures
        resolution(selector_in(args), ranked, width) == Ok::<int, ResolveError>(ranked.len() - 1),
        ranked[ranked.len() - 1] == shim_view(shim),
        forwarded(args) == args,
{
    lemma_scan_resolves_to_shim(ranked, entries, shim, width);
}

/// Finds the version manager on the search path `paths`. `is_file` holds,
/// for each probe of `search_order(MANAGER, paths, suffixes)`, whether a
/// regular file is there.
pub fn locate_manager(
    paths: &Vec<String>,
    suffixes: &Option<Vec<String>>,
    is_file: &Vec<bool>,
) -> (outcome: Result<Probe, LaunchError>)
    ensures
        match found_probe(
            probes_of(paths.len() as nat, name_variants(MANAGER@, suffixes.deep_view())),
            is_file@,
        ) {
            Some(probe) => outcome matches Ok(found) && found@ == probe,
            None => outcome matches Err(error) && error@ == LaunchErrorView::Discovery(
                Missing::Manager,
            ),
        },
{
    match find_binary_on_paths(MANAGER, paths, suffixes, is_file) {
        Some(found) => Ok(found),
        None => Err(LaunchError::Discovery(Missing::Manager)),
    }
}

/// Finds the interpreter in the directory of the chosen candidate, and
/// gives the name of its file. `is_file` holds, for each of
/// `with_exec_extension(INTERPRETER, suffixes)`, whether the directory
/// holds a regular file of that name. A directory without one is a damaged
/// installation.
pub fn locate_interpreter(
    chosen: &Candidate,
    suffixes: &Option<Vec<String>>,
    is_file: &Vec<bool>,
) -> (outcome: Result<String, LaunchError>)
    ensures
        match found_probe(
            probes_of(1, name_variants(INTERPRETER@, suffixes.deep_view())),
            is_file@,
        ) {
            Some(probe) => outcome matches Ok(file_name) && file_name@ == probe.file_name,
            None => outcome matches Err(error) && error@ == (LaunchErrorView::DamagedInstallation {
                version: chosen@.name,
            }),
        },
{
    let mut paths: Vec<String> = Vec::new();
    paths.push(chosen.path.clone());
    match find_binary_on_paths(INTERPRETER, &paths, suffixes, is_file) {
        Some(found) => Ok(found.file_name),
        None => Err(LaunchError::DamagedInstallation { version: chosen.name.clone() }),
    }
}

/// The status with which the launcher ends after the interpreter has: the
/// interpreter's own status where it ended with one, else the number of the
/// signal that ended it, else `FAILURE`.
pub open spec fn exit_status_of(code: Option<i32>, signal: Option<i32>) -> i32 {
    match code {
        Some(status) => status,
        None => match signal {
            Some(number) => number,
            None => FAILURE,
        },
    }
}

/// The status with which the launcher ends after the interpreter has.
/// `code` is the interpreter's exit status, `signal` the signal that ended
/// it, each where there is one.
pub fn exit_status(code: Option<i32>, signal: Option<i32>) -> (status: i32)
    ensures
        status == exit_status_of(code, signal),
{
    match code {
        Some(status) => status,
        None => match signal {
            Some(number) => number,
            None => FAILURE,
        },
    }
}

} // verus!
