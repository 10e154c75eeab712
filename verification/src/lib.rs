//! Exact substring search with the Boyer-Moore skip rules, and an ordered
//! key/value map kept as an unbalanced binary search tree.
//!
//! Every function carries a contract over `Seq<char>` views of patterns and
//! texts, or over the `Map` view of a tree, and is proved against it.

pub mod search;
