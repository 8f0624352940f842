//! Keep track of the people you want to stay in touch with: each contact has
//! a desired interval in days and the date of the last conversation, and the
//! table reports how many days remain before the next one is due.

mod commands;
mod date;
mod entry;
mod error;
mod order;
mod parse;
mod table;

pub use commands::{
    add, just_talked_to, modify, remove, resume, suspend, view, view_active, view_filtered,
    view_inactive,
};
pub use date::{Date, DateView, MAX_YEAR, MIN_YEAR};
pub use entry::{header_text, urgency, Entry, EntryView, Style, COLUMN_WIDTH};
pub use error::KitError;
pub use order::{name_less, EntryVec};
pub use parse::{parse_date, parse_date_at, parse_interval, parse_unsigned, same_text, ParseError};
pub use table::{
    ExistingEntry, Filter, Line, MissingEntry, StoredTable, Table, TableError, TableView,
    UnsuspendedEntry,
};
