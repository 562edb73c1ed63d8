//! Turns a flat directory of generated package fragments, named by dotted
//! package path (`a.b.c.rs`), into nested `pub mod` declarations whose leaves
//! splice in the matching fragment.
pub mod order;
pub mod segments;
pub mod tree;
pub mod builder;
pub mod emit;
pub mod laws;
