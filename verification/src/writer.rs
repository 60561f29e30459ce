//! Building a tree: the walk over its blocks, and the passes that follow it.

pub mod backend;
pub mod fold;
pub mod folding;
pub mod plan;
pub mod script;
pub mod traverse;
pub mod two_pass;
