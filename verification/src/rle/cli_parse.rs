//! The command line of the run-length module, once it has been split into
//! words: what was asked for, and whether the named paths can be used.

use crate::file_facts::{path_problem, OutputParent, PathProblem, PathStatus};
use vstd::prelude::*;

verus! {

/// Which run-length format to use.
#[derive(Debug, Clone, Copy, PartialEq, Eq, Structural)]
pub enum Version {
    /// Pairs of count and byte: best for data with many long runs.
    One,
    /// Literals mixed with escaped runs: best for data with few, short runs.
    Two,
    /// Let the data decide.
    Auto,
}

impl Version {
    /// The word that selects this version on the command line.
    pub fn name(&self) -> (word: &'static str)
        ensures
            word@ == (match self {
                Version::One => "1"@,
                Version::Two => "2"@,
                Version::Auto => "auto"@,
            }),
    {
        match self {
            Version::One => "1",
            Version::Two => "2",
            Version::Auto => "auto",
        }
    }
}

/// What the run-length module can be asked to do.
#[derive(Debug)]
pub enum Commands {
    /// Compress the input file to the output path.
    Compress { input_file: String, output_file: String },
    /// Decompress the input file to the output path.
    Decompress { input_file: String, output_file: String },
}

/// The arguments of the run-length module.
#[derive(Debug)]
pub struct CliArgs {
    pub command: Commands,
    /// Whether statistics are shown.
    pub stats: bool,
    /// The format to use; `Auto` unless one is asked for.
    pub rle_version: Version,
}

/// Why the arguments cannot be used.
#[derive(Debug)]
pub enum CliError {
    /// The input file does not exist.
    InputFileNotFound(String),
    /// The input path exists, but is no file.
    InputNotFile(String),
    /// The directory of the output file does not exist.
    OutputParentDirNotFound(String),
    /// The parent of the output file exists, but is no directory.
    OutputParentNotDir(String),
    /// The command line could not be parsed; this is the parser's report.
    ClapError(String),
}

impl Commands {
    /// The path of the input file.
    pub open spec fn input(self) -> String {
        match self {
            Commands::Compress { input_file, output_file } => input_file,
            Commands::Decompress { input_file, output_file } => input_file,
        }
    }

    /// The path of the output file.
    pub open spec fn output(self) -> String {
        match self {
            Commands::Compress { input_file, output_file } => output_file,
            Commands::Decompress { input_file, output_file } => output_file,
        }
    }
}

/// Whether `r` is the outcome of checking the paths `input_file` and the
/// directory of the output file against what is known of them.
pub open spec fn is_validation_of(
    r: Result<(), CliError>,
    input_file: Seq<char>,
    input: PathStatus,
    output_parent: Option<OutputParent>,
) -> bool {
    match path_problem(input, output_parent) {
        None => r.is_ok(),
        Some(PathProblem::InputFileNotFound) => r matches Err(CliError::InputFileNotFound(path))
            && path@ == input_file,
        Some(PathProblem::InputNotFile) => r matches Err(CliError::InputNotFile(path)) && path@
            == input_file,
        Some(PathProblem::OutputParentDirNotFound) => r matches Err(
            CliError::OutputParentDirNotFound(path),
        ) && path@ == output_parent.unwrap().path@,
        Some(PathProblem::OutputParentNotDir) => r matches Err(CliError::OutputParentNotDir(path))
            && path@ == output_parent.unwrap().path@,
    }
}

impl CliArgs {
    /// The path of the input file.
    pub fn input_file(&self) -> (path: &String)
        ensures
            *path == self.command.input(),
    {
        match &self.command {
            Commands::Compress { input_file, output_file } => input_file,
            Commands::Decompress { input_file, output_file } => input_file,
        }
    }

    /// The path of the output file.
    pub fn output_file(&self) -> (path: &String)
        ensures
            *path == self.command.output(),
    {
        match &self.command {
            Commands::Compress { input_file, output_file } => output_file,
            Commands::Decompress { input_file, output_file } => output_file,
        }
    }

    /// Checks the paths of the arguments against what is known of them:
    /// `input` of the input file, and `output_parent` of the directory of
    /// the output file, if its path names one.
    pub fn validate(&self, input: PathStatus, output_parent: Option<OutputParent>) -> (r: Result<
        (),
        CliError,
    >)
        ensures
            is_validation_of(r, self.command.input()@, input, output_parent),
    {
        let in_path = self.input_file();
        if !input.exists {
            return Err(CliError::InputFileNotFound(in_path.clone()));
        }
        if !input.is_file {
            return Err(CliError::InputNotFile(in_path.clone()));
        }
        match output_parent {
            Some(parent) => {
                if !parent.status.exists {
                    return Err(CliError::OutputParentDirNotFound(parent.path));
                }
                if !parent.status.is_dir {
                    return Err(CliError::OutputParentNotDir(parent.path));
                }
            },
            None => {},
        }
        Ok(())
    }
}

/// Turns the outcome of parsing into arguments that can be used: the report
/// of a parse error is handed on, and parsed arguments are checked against
/// what is known of their paths. The facts are not looked at after a parse
/// error.
pub fn parse_args(
    parsed: Result<CliArgs, String>,
    input: PathStatus,
    output_parent: Option<OutputParent>,
) -> (r: Result<CliArgs, CliError>)
    ensures
        match parsed {
            Err(e) => r matches Err(CliError::ClapError(report)) && report == e,
            Ok(args) => match path_problem(input, output_parent) {
                None => r matches Ok(same) && same == args,
                Some(_) => r.is_err() && is_validation_of(
                    Err(r->Err_0),
                    args.command.input()@,
                    input,
                    output_parent,
                ),
            },
        },
{
    match parsed {
        Err(e) => Err(CliError::ClapError(e)),
        Ok(args) => match args.validate(input, output_parent) {
            Ok(()) => Ok(args),
            Err(e) => Err(e),
        },
    }
}

} // verus!
