//! Duplicate-directory detection by content fingerprints.
//!
//! Every file and directory of a tree receives a 128-bit fingerprint that
//! depends on its content alone: a file's on its bytes, a directory's on the
//! fingerprints of its children, folded in path order. Directories whose
//! fingerprint has been seen before are reported as duplicates of the first
//! directory that produced it.

pub mod digest;
pub mod order;
pub mod registry;
pub mod walk;
