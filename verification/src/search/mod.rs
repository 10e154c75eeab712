//! Pattern preprocessing, the scanner, and the ordered map.

pub mod pattern;
pub mod report;
pub mod search;
pub mod shift;
pub mod tree;
