//! Which entries of the module directory are modules, and under what name.

use crate::file_facts::{extension_of, find_last_dot, stem_of};
use crate::host::error::{module_not_found, no_modules_found, ModuleError};
use vstd::prelude::*;
use vstd::string::StringExecFns;

verus! {

/// The operating system whose shared libraries the host loads.
#[derive(Debug, Clone, Copy, PartialEq, Eq, Structural)]
pub enum Platform {
    /// Libraries are named `lib<name>.so`.
    Linux,
    /// Libraries are named `<name>.dll`.
    Windows,
}

/// What the host has read of one entry of the module directory.
pub struct DirectoryEntry {
    /// The name of the entry, without the directory.
    pub file_name: String,
    /// Whether the entry is a regular file.
    pub is_file: bool,
}

/// Whether `extension` is the extension of a shared library on `platform`,
/// in any mix of upper and lower case.
pub open spec fn is_library_extension(extension: Seq<char>, platform: Platform) -> bool {
    match platform {
        Platform::Linux => {
            &&& extension.len() == 2
            &&& (extension[0] == 's' || extension[0] == 'S')
            &&& (extension[1] == 'o' || extension[1] == 'O')
        },
        Platform::Windows => {
            &&& extension.len() == 3
            &&& (extension[0] == 'd' || extension[0] == 'D')
            &&& (extension[1] == 'l' || extension[1] == 'L')
            &&& (extension[2] == 'l' || extension[2] == 'L')
        },
    }
}

/// Whether `stem` starts with `lib`.
pub open spec fn has_lib_prefix(stem: Seq<char>) -> bool {
    stem.len() >= 3 && stem[0] == 'l' && stem[1] == 'i' && stem[2] == 'b'
}

/// The name under which the file `file_name` is a module on `platform`, if
/// it is one: a regular file with the extension of a shared library, and on
/// Linux with a stem that starts with `lib`, which is not part of the name.
pub open spec fn module_name_of(file_name: Seq<char>, is_file: bool, platform: Platform) -> Option<
    Seq<char>,
> {
    if !is_file {
        None
    } else {
        match extension_of(file_name) {
            None => None,
            Some(extension) => if !is_library_extension(extension, platform) {
                None
            } else {
                match platform {
                    Platform::Windows => Some(stem_of(file_name)),
                    Platform::Linux => if has_lib_prefix(stem_of(file_name)) {
                        Some(stem_of(file_name).skip(3))
                    } else {
                        None
                    },
                }
            },
        }
    }
}

/// The module name of a directory entry.
pub open spec fn entry_module_name(entry: DirectoryEntry, platform: Platform) -> Option<Seq<char>> {
    module_name_of(entry.file_name@, entry.is_file, platform)
}

/// The positions of the modules among `entries`, in the order of the listing.
pub open spec fn module_positions(entries: Seq<DirectoryEntry>, platform: Platform) -> Seq<usize>
    decreases entries.len(),
{
    if entries.len() == 0 {
        Seq::empty()
    } else {
        let before = module_positions(entries.drop_last(), platform);
        if entry_module_name(entries.last(), platform).is_some() {
            before.push((entries.len() - 1) as usize)
        } else {
            before
        }
    }
}

/// Decides whether a directory entry is a module and under what name.
pub fn module_identifier(entry: &DirectoryEntry, platform: Platform) -> (name: Option<String>)
    ensures
        match name {
            Some(name) => entry_module_name(*entry, platform) == Some(name@),
            None => entry_module_name(*entry, platform).is_none(),
        },
{
    if !entry.is_file {
        return None;
    }
    let file_name = entry.file_name.as_str();
    let length = file_name.unicode_len();
    let dot = match find_last_dot(file_name) {
        Some(dot) => dot,
        None => {
            return None;
        },
    };
    let extension = file_name.substring_char(dot + 1, length);
    let stem = file_name.substring_char(0, dot);
    assert(extension@ =~= file_name@.skip(dot + 1));
    assert(stem@ =~= file_name@.take(dot as int));
    match platform {
        Platform::Linux => {
            if length - dot - 1 != 2 {
                return None;
            }
            let c0 = extension.get_char(0);
            let c1 = extension.get_char(1);
            if !((c0 == 's' || c0 == 'S') && (c1 == 'o' || c1 == 'O')) {
                return None;
            }
            if dot < 3 {
                return None;
            }
            if stem.get_char(0) == 'l' && stem.get_char(1) == 'i' && stem.get_char(2) == 'b' {
                let name = String::from_str(stem.substring_char(3, dot));
                assert(name@ =~= stem@.skip(3));
                Some(name)
            } else {
                None
            }
        },
        Platform::Windows => {
            if length - dot - 1 != 3 {
                return None;
            }
            let c0 = extension.get_char(0);
            let c1 = extension.get_char(1);
            let c2 = extension.get_char(2);
            if !((c0 == 'd' || c0 == 'D') && (c1 == 'l' || c1 == 'L') && (c2 == 'l' || c2 == 'L')) {
                return None;
            }
            Some(String::from_str(stem))
        },
    }
}

/// Finds the module `module_name` in a listing of the module directory: the
/// first entry that is a module of that name. Without one, the module is
/// reported as not found.
pub fn find_module(entries: &Vec<DirectoryEntry>, module_name: &String, platform: Platform) -> (r:
    Result<usize, ModuleError>)
    ensures
        match r {
            Ok(position) => {
                &&& position < entries@.len()
                &&& entry_module_name(entries@[position as int], platform) == Some(module_name@)
                &&& forall|j: int|
                    0 <= j < position ==> entry_module_name(#[trigger] entries@[j], platform)
                        != Some(module_name@)
            },
            Err(e) => {
                &&& forall|j: int|
                    0 <= j < entries@.len() ==> entry_module_name(#[trigger] entries@[j], platform)
                        != Some(module_name@)
                &&& e is LoadError
                &&& e.text() == "Module "@ + module_name@ + " not found!"@
            },
        },
{
    let mut i: usize = 0;
    while i < entries.len()
        invariant
            0 <= i <= entries@.len(),
            forall|j: int|
                0 <= j < i ==> entry_module_name(#[trigger] entries@[j], platform) != Some(
                    module_name@,
                ),
        decreases entries@.len() - i,
    {
        match module_identifier(&entries[i], platform) {
            Some(name) => {
                if name == *module_name {
                    return Ok(i);
                }
            },
            None => {},
        }
        i += 1;
    }
    Err(module_not_found(module_name.as_str()))
}

/// Lists the positions of the modules in a listing of the module directory,
/// in the order of the listing. A directory without modules is an error.
pub fn discover_modules(entries: &Vec<DirectoryEntry>, platform: Platform) -> (r: Result<
    Vec<usize>,
    ModuleError,
>)
    ensures
        match r {
            Ok(positions) => positions@ == module_positions(entries@, platform) && positions@.len()
                > 0,
            Err(e) => {
                &&& module_positions(entries@, platform).len() == 0
                &&& e is LoadError
                &&& e.text() == "Found no modules!"@
            },
        },
{
    let mut positions: Vec<usize> = Vec::new();
    let mut i: usize = 0;
    while i < entries.len()
        invariant
            0 <= i <= entries@.len(),
            positions@ == module_positions(entries@.take(i as int), platform),
        decreases entries@.len() - i,
    {
        proof {
            assert(entries@.take(i + 1).drop_last() =~= entries@.take(i as int));
            assert(entries@.take(i + 1).last() == entries@[i as int]);
        }
        if module_identifier(&entries[i], platform).is_some() {
            positions.push(i);
        }
        i += 1;
    }
    proof {
        assert(entries@.take(entries@.len() as int) =~= entries@);
    }
    if positions.len() == 0 {
        Err(no_modules_found())
    } else {
        Ok(positions)
    }
}

} // verus!
