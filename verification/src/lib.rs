//! Finds files with identical content.
//!
//! Files are first sorted into buckets by exact size ([`buckets`]); only a
//! bucket of two or more files can hold duplicates. The files of such a
//! bucket are hashed and grouped by equal hash ([`hashing`]), and every
//! group of two or more is put in a deterministic order ([`sorting`],
//! [`sort`]), counted ([`report`]) and written out ([`render`]).
//!
//! The library touches neither the file system nor the clock: what a walk
//! found and what reading a file gave are handed to it as values.

pub mod buckets;
pub mod hashing;
pub mod options;
pub mod order;
pub mod paths;
pub mod render;
pub mod report;
pub mod seqs;
pub mod sort;
pub mod sorting;
pub mod types;
