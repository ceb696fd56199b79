//! Version resolution for a Python launcher.
//!
//! Given the first command-line argument and the names of the interpreter
//! directories that a version manager keeps, the library decides which
//! interpreter a launcher starts: it reads a version selector such as `-3.9`
//! or `-3-64`, ranks the installed versions, matches the selector against
//! them, and works out where the interpreter's executable is looked for.
//! Reading directories, starting the interpreter and leaving the process are
//! left to the caller.

pub mod candidate;
pub mod finder;
pub mod launcher;
pub mod pattern;
pub mod pick;
pub mod resolver;
pub mod scanner;
pub mod selector;
pub mod text;
pub mod version;
