//! Application settings.
//!
//! Sources layer in this order of precedence: `config/default`, an optional
//! `config/<RUN_MODE>` override, whose run mode defaults to `development`, and
//! then environment variables whose parts are separated by two underscores.

use std::path::PathBuf;
use vstd::prelude::*;
use vstd::string::StringExecFns;

verus! {

/// Makes `std::path::PathBuf` known as an opaque type.
#[verifier::external_type_specification]
#[verifier::external_body]
pub struct ExPathBuf(PathBuf);

/// `PathBuf::clone`, which the copies of the settings go through. Claims nothing
/// of the copy.
pub assume_specification[ <PathBuf as Clone>::clone ](path: &PathBuf) -> (copy: PathBuf);

/// Logging settings.
#[derive(Clone, Debug)]
pub struct Logger {
    pub level: String,
}

/// Where per-run experiment logs are written.
#[derive(Clone, Debug)]
pub struct Output {
    pub dir: PathBuf,
}

/// The seed of the reproducible runs.
#[derive(Clone, Debug)]
pub struct Rng {
    pub seed: u64,
}

/// The settings of the application.
#[derive(Clone, Debug)]
pub struct Settings {
    pub environment: String,
    pub logger: Logger,
    pub output: Output,
    pub rng: Rng,
}

/// The run mode: the configured one, and `development` where none is.
pub open spec fn effective_mode(run_mode: Option<String>) -> Seq<char> {
    match run_mode {
        Some(mode) => mode@,
        None => "development"@,
    }
}

/// The name of the source that every configuration starts from.
pub fn default_source() -> (name: String)
    ensures
        name@ == "config/default"@,
{
    String::from_str("config/default")
}

/// The name of the optional source that overrides the default one.
pub fn override_source(run_mode: Option<String>) -> (name: String)
    ensures
        name@ == "config/"@ + effective_mode(run_mode),
{
    let mut name: String = String::from_str("config/");
    match run_mode {
        Some(mode) => {
            name.append(mode.as_str());
        },
        None => {
            name.append("development");
        },
    }
    name
}

/// What separates the parts of an environment variable's name.
pub fn environment_separator() -> (separator: String)
    ensures
        separator@ == "__"@,
{
    String::from_str("__")
}

/// The run mode is the configured text as it stands, and `development` only where
/// none is configured.
pub proof fn run_modes_are_taken_as_they_stand(run_mode: Option<String>)
    ensures
        run_mode matches Some(mode) ==> effective_mode(run_mode) == mode@,
        run_mode is None ==> effective_mode(run_mode) == "development"@,
{
}

} // verus!
