//! What a caller has found out about paths on disk. The library decides on
//! these facts; it does not look at the disk itself.

use vstd::prelude::*;
use vstd::string::StringExecFns;

verus! {

/// What is known of one path.
#[derive(Debug, Clone, Copy, PartialEq, Eq, Structural)]
pub struct PathStatus {
    /// Whether anything exists at the path.
    pub exists: bool,
    /// Whether a regular file exists at the path.
    pub is_file: bool,
    /// Whether a directory exists at the path.
    pub is_dir: bool,
}

/// The directory that an output file is to be written to, and what is known
/// of it.
#[derive(Debug, Clone, PartialEq, Eq)]
pub struct OutputParent {
    /// The path of the directory.
    pub path: String,
    /// What is known of it.
    pub status: PathStatus,
}

/// Why a pair of an input and an output path cannot be used.
pub enum PathProblem {
    /// Nothing exists at the input path.
    InputFileNotFound,
    /// What exists at the input path is no regular file.
    InputNotFile,
    /// Nothing exists at the directory of the output file.
    OutputParentDirNotFound,
    /// What exists at the directory of the output file is no directory.
    OutputParentNotDir,
}

/// The first problem with an input file and the directory of an output
/// file, if there is one: the input must exist and be a regular file, and
/// the directory, if the output path names one, must exist and be a
/// directory.
pub open spec fn path_problem(input: PathStatus, output_parent: Option<OutputParent>) -> Option<
    PathProblem,
> {
    if !input.exists {
        Some(PathProblem::InputFileNotFound)
    } else if !input.is_file {
        Some(PathProblem::InputNotFile)
    } else {
        match output_parent {
            Some(parent) => if !parent.status.exists {
                Some(PathProblem::OutputParentDirNotFound)
            } else if !parent.status.is_dir {
                Some(PathProblem::OutputParentNotDir)
            } else {
                None
            },
            None => None,
        }
    }
}

/// The position of the dot that separates stem and extension: the last dot
/// of the name that is not its first character.
pub open spec fn last_dot(name: Seq<char>) -> Option<int>
    decreases name.len(),
{
    if name.len() <= 1 {
        None
    } else if name.last() == '.' {
        Some(name.len() - 1)
    } else {
        last_dot(name.drop_last())
    }
}

/// The extension of a file name: what follows its separating dot.
pub open spec fn extension_of(name: Seq<char>) -> Option<Seq<char>> {
    match last_dot(name) {
        Some(dot) => Some(name.skip(dot + 1)),
        None => None,
    }
}

/// The stem of a file name: what precedes its separating dot, or all of it.
pub open spec fn stem_of(name: Seq<char>) -> Seq<char> {
    match last_dot(name) {
        Some(dot) => name.take(dot),
        None => name,
    }
}

/// Finds the dot that separates stem and extension.
pub fn find_last_dot(name: &str) -> (dot: Option<usize>)
    ensures
        match dot {
            Some(i) => last_dot(name@) == Some(i as int) && 0 < i < name@.len(),
            None => last_dot(name@).is_none(),
        },
{
    let mut end = name.unicode_len();
    proof {
        assert(name@.take(end as int) =~= name@);
    }
    while end > 1
        invariant
            end <= name@.len(),
            last_dot(name@) == last_dot(name@.take(end as int)),
        decreases end,
    {
        if name.get_char(end - 1) == '.' {
            return Some(end - 1);
        }
        proof {
            assert(name@.take(end as int).drop_last() =~= name@.take(end - 1));
        }
        end -= 1;
    }
    None
}

/// The extension of a container file, with its dot.
pub const FILE_EXTENSION: &'static str = ".ppcb";

/// Whether `path` ends in `.ppcb`, in any mix of upper and lower case.
pub open spec fn ends_in_container_extension(path: Seq<char>) -> bool {
    let n = path.len() as int;
    &&& n >= 5
    &&& path[n - 5] == '.'
    &&& (path[n - 4] == 'p' || path[n - 4] == 'P')
    &&& (path[n - 3] == 'p' || path[n - 3] == 'P')
    &&& (path[n - 2] == 'c' || path[n - 2] == 'C')
    &&& (path[n - 1] == 'b' || path[n - 1] == 'B')
}

/// Whether `path` names a container file: it ends in `.ppcb`, in any mix of
/// upper and lower case.
pub fn has_container_extension(path: &str) -> (b: bool)
    ensures
        b == ends_in_container_extension(path@),
{
    let n = path.unicode_len();
    if n < 5 {
        return false;
    }
    let dot = path.get_char(n - 5);
    let c1 = path.get_char(n - 4);
    let c2 = path.get_char(n - 3);
    let c3 = path.get_char(n - 2);
    let c4 = path.get_char(n - 1);
    dot == '.' && (c1 == 'p' || c1 == 'P') && (c2 == 'p' || c2 == 'P') && (c3 == 'c' || c3 == 'C')
        && (c4 == 'b' || c4 == 'B')
}

/// The name under which an encoder writes its output: a file name without
/// an extension gets the extension `.ppcb`, any other name stays.
pub fn output_file_name(file_name: &str) -> (name: String)
    ensures
        name@ == if extension_of(file_name@).is_none() {
            file_name@ + FILE_EXTENSION@
        } else {
            file_name@
        },
{
    match find_last_dot(file_name) {
        Some(_) => String::from_str(file_name),
        None => String::from_str(file_name).concat(FILE_EXTENSION),
    }
}

} // verus!
