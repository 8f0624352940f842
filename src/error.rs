//! The errors that a command can end with.

use vstd::prelude::*;

verus! {

/// Why a command was refused. Each carries what its message needs.
#[derive(Debug)]
pub enum KitError {
    /// The interval is not a non-negative integer.
    InvalidInterval,
    /// The date is neither `now` nor a `YEAR-MONTH-DAY` calendar day.
    InvalidDateFormat,
    /// The name is already taken.
    DuplicateName(String),
    /// No entry has the name.
    NameNotFound(String),
    /// The entry with the name is not suspended.
    NotSuspended(String),
    /// The field to modify is none of `name`, `interval` and `last`.
    InvalidField(String),
    /// The stored table breaks the table's rules.
    CorruptStore,
}

} // verus!
