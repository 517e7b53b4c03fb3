//! Operators that own their input and output handles, and the stream operations that create them.

pub mod binary;
pub mod branch;
pub mod broadcast;
pub mod concat;
pub mod exchange;
pub mod feedback;
pub mod gather;
