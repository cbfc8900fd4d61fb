//! Verified core of `nls`, an `ls` look-alike that prints modification dates
//! with numeric months.
//!
//! The library holds the decisions the program makes: which entries of a
//! directory are kept, which names are shown and in which order, how a
//! permission string and a long-format line are built, how the columns of a
//! directory listing are aligned, and whether every date to show can be
//! computed.  Reading the file system, printing, and stopping where a date
//! cannot be computed stay with the caller, which hands the library plain
//! values.

pub mod text;
pub mod mode;
pub mod order;
pub mod long;
pub mod listing;
