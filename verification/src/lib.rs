//! Retention tool for game save folders.
//!
//! A save folder's name encodes a character, a save category and a sequence
//! number.  The library parses such names, groups the resulting records per
//! character and category, sorts each group by sequence number descending,
//! and selects every entry beyond a preserve count as a deletion candidate.
//! All I/O (directory listing, confirmation prompt, the deletions themselves)
//! stays with the caller; the library only decides.

pub mod program_errors;
pub mod save_type;
pub mod save_information;
pub mod saves;
pub mod parser;
pub mod sorting;
pub mod grouping;
pub mod seq_facts;
pub mod selection;
pub mod confirm;
