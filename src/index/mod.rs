//! The staging index: the files staged for the next commit.
pub mod index;
