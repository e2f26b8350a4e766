//! A streaming line-deduplication filter over delimited-field records.
//!
//! Records are lines of bytes; a key is the concatenation of a selected
//! set of fields of the line. The engine keeps only the first record with
//! each key, either by remembering every key seen (unsorted mode) or by
//! comparing against the previous record's key (sorted mode, which is
//! correct when equal-keyed records are contiguous).

pub mod config;
pub mod records;
pub mod tsvfirst;
