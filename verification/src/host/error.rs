//! What the host reports when a module cannot be loaded or unloaded.

use vstd::prelude::*;
use vstd::string::StringExecFns;

verus! {

/// A failure of the host to load or to unload modules.
#[derive(Debug, PartialEq, Eq)]
pub enum ModuleError {
    /// A module, or the module directory, could not be loaded.
    LoadError(String),
    /// A module could not be shut down or released.
    UnloadError(String),
}

impl ModuleError {
    /// The text of the report.
    pub open spec fn text(self) -> Seq<char> {
        match self {
            ModuleError::LoadError(msg) => msg@,
            ModuleError::UnloadError(msg) => msg@,
        }
    }

    /// The text of the report.
    pub fn message(&self) -> (msg: String)
        ensures
            msg@ == self.text(),
    {
        match self {
            ModuleError::LoadError(msg) => msg.clone(),
            ModuleError::UnloadError(msg) => msg.clone(),
        }
    }
}

/// The report for a module directory that could not be read and has been
/// created instead.
pub fn module_folder_created() -> (e: ModuleError)
    ensures
        e is LoadError,
        e.text() == "module folder was missing and has been created"@,
{
    ModuleError::LoadError(String::from_str("module folder was missing and has been created"))
}

/// The report for a module directory without any module in it.
pub fn no_modules_found() -> (e: ModuleError)
    ensures
        e is LoadError,
        e.text() == "Found no modules!"@,
{
    ModuleError::LoadError(String::from_str("Found no modules!"))
}

/// The report for a module that is asked for and not in the directory.
pub fn module_not_found(module_name: &str) -> (e: ModuleError)
    ensures
        e is LoadError,
        e.text() == "Module "@ + module_name@ + " not found!"@,
{
    let msg = String::from_str("Module ").concat(module_name).concat(" not found!");
    ModuleError::LoadError(msg)
}

/// The report for a library without the entry point `module_startup`.
pub fn startup_missing(module_name: &str) -> (e: ModuleError)
    ensures
        e is LoadError,
        e.text() == "Failed to find module_startup function in "@ + module_name@,
{
    ModuleError::LoadError(
        String::from_str("Failed to find module_startup function in ").concat(module_name),
    )
}

/// The report for a library without the entry point `module_shutdown`.
pub fn shutdown_missing(module_name: &str) -> (e: ModuleError)
    ensures
        e is UnloadError,
        e.text() == "Failed to find module_shutdown function in "@ + module_name@,
{
    ModuleError::UnloadError(
        String::from_str("Failed to find module_shutdown function in ").concat(module_name),
    )
}

/// The report for a pass in which no module could be unloaded.
pub fn all_modules_failed_to_unload() -> (e: ModuleError)
    ensures
        e is UnloadError,
        e.text() == "All modules failed to unload"@,
{
    ModuleError::UnloadError(String::from_str("All modules failed to unload"))
}

} // verus!
