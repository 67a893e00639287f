//! `fa10`: pack files and directories into one larger, fully reversible
//! `.fa10` archive and recover them byte for byte.
//!
//! This crate holds the archive format, the size parser, the safety rules and
//! the planning logic, each with a contract checked by Verus. Reading and
//! writing files is left to the caller.
use vstd::prelude::*;

pub mod error;
pub mod archive;
pub mod cli;
pub mod digest;
pub mod format;
pub mod grow;
pub mod info;
pub mod paths;
pub mod progress;
pub mod restore;
pub mod safety;
pub mod size;
pub mod text;

pub use error::Fa10Error;
pub use format::DEFAULT_PATTERN;
pub use grow::GrowOutcome;
pub use info::Fa10Info;
pub use progress::{NoProgress, Progress};
pub use restore::{RestoreOptions, RestoreOutcome};
pub use size::parse_size;

verus! {

} // verus!
