//! Ready-made places to build a tree in.

pub mod in_memory;
