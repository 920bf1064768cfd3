//! Delimiter scanning over buffered byte streams.
//!
//! A scan takes the bytes that a buffered source currently holds, looks for
//! the first occurrence of one of a set of byte-string delimiters, and says
//! how many bytes the caller may take: everything up to and including the
//! delimiter, or, when none occurs, as much of the buffer as can no longer
//! be part of one.

pub mod delimiter;
pub mod laws;
pub mod reader;
pub mod scan;
pub mod source;
