//! The decisions of the module host: how a command line is routed to
//! modules, which files of the module directory are modules, and how a
//! module moves through its lifecycle. Loading and calling the shared
//! libraries is left to the caller, which reports back what happened.

pub mod arguments;
pub mod discovery;
pub mod error;
pub mod lifecycle;
pub mod pass;
pub mod plan;
