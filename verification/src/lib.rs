//! A Burrows–Wheeler transform and FM-index library for exact substring
//! search over a fixed, sentinel-terminated text.
//!
//! The library builds a suffix array by sorting suffixes, derives the BWT
//! string from it (and, independently, from sorted rotations), can invert a
//! BWT string back to the text, and answers substring queries by backward
//! search over cumulative and per-position symbol-count tables.

pub mod order;
pub mod text;
pub mod suffix;
pub mod bwt;
pub mod fm;
