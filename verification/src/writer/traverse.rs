//! Drivers that run the passes one after the other.

pub mod sequential;
