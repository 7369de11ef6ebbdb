//! Searches a hierarchical note tree for the first leaf note matching a
//! key/value or key/substring criterion, or produces a truncated summary of
//! the whole tree. The argument interpreter turns a raw argument list into a
//! command; the tree matcher walks an already-parsed document.

pub mod args;
pub mod notes;
pub mod strings;
