//! The command surface: what a command line asks for.
//!
//! The types here mirror the command line one for one. `dispatch` decides
//! what a parsed command line means; carrying it out is the caller's work.

use std::path::PathBuf;
use vstd::prelude::*;

verus! {

/// `std::path::PathBuf`, carried through as it is.
#[verifier::external_type_specification]
#[verifier::external_body]
pub struct ExPathBuf(PathBuf);

/// The top level command.
#[derive(Debug, PartialEq, Eq)]
pub enum Dotrain {
    /// Compose a .rain file to rainlang.
    Compose(Compose),
}

/// The options of the compose command.
#[derive(Debug, PartialEq, Eq)]
pub struct Compose {
    /// Input .rain file path.
    pub input: PathBuf,
    /// Entrypoints.
    pub entrypoints: Vec<String>,
    /// Path to the rainconfig file.
    pub config: Option<PathBuf>,
    /// Force compile by ignoring all erroneous paths and contents specified
    /// in rainconfig.
    pub force: Option<bool>,
    /// Only use local meta specified in rainconfig and do not search for
    /// them in subgraphs.
    pub local_data_only: Option<bool>,
    pub subcmd: Option<SubCommands>,
}

/// The subcommands of the compose command.
#[derive(Clone, Copy, Debug, PartialEq, Eq)]
pub enum SubCommands {
    /// Prints rainconfig info and description.
    RainconfigInfo(RainconfigInfo),
}

/// What to print about rainconfig.
#[derive(Clone, Copy, Debug, PartialEq, Eq, Structural)]
pub enum RainconfigInfo {
    /// General info about rainconfig.
    Info,
    /// All known rainconfig field names.
    PrintAll,
    /// Info about the `include` field.
    Include,
    /// Info about the `subgraphs` field.
    Subgraphs,
}

/// A composition to carry out, with its flags settled.
#[derive(Debug, PartialEq, Eq)]
pub struct Job {
    pub input: PathBuf,
    pub config: Option<PathBuf>,
    pub entrypoints: Vec<String>,
    pub force: bool,
    pub local_data_only: bool,
}

/// What a command line asks for.
#[derive(Debug, PartialEq, Eq)]
pub enum Command {
    /// Print the description of a rainconfig topic.
    Describe(RainconfigInfo),
    /// Compose.
    Compose(Job),
}

/// What `dispatch` makes of a command line: a subcommand wins over the
/// composition, and a flag that was not given is off.
pub open spec fn dispatched(cli: Compose) -> Command {
    match cli.subcmd {
        Some(SubCommands::RainconfigInfo(topic)) => Command::Describe(topic),
        None => Command::Compose(
            Job {
                input: cli.input,
                config: cli.config,
                entrypoints: cli.entrypoints,
                force: cli.force == Some(true),
                local_data_only: cli.local_data_only == Some(true),
            },
        ),
    }
}

/// Decides what the given options and commands ask for.
pub fn dispatch(cli: Compose) -> (command: Command)
    ensures
        command == dispatched(cli),
{
    match cli.subcmd {
        Some(SubCommands::RainconfigInfo(topic)) => Command::Describe(topic),
        None => {
            let force = match cli.force {
                Some(flag) => flag,
                None => false,
            };
            let local_data_only = match cli.local_data_only {
                Some(flag) => flag,
                None => false,
            };
            Command::Compose(
                Job {
                    input: cli.input,
                    config: cli.config,
                    entrypoints: cli.entrypoints,
                    force,
                    local_data_only,
                },
            )
        },
    }
}

} // verus!
