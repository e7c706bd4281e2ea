//! The failures a command can end in.
use vstd::prelude::*;

verus! {

/// Why a command failed. Outside failures (file system, data format) carry the
/// message their source gave.
#[derive(Debug, Clone, PartialEq, Eq)]
pub enum TuppError {
    Io(String),
    Serialization(String),
    ConfigDirNotFound,
    Interrupted,
    Validation(String),
    Duplicate(String),
    Other(String),
}

} // verus!
