//! A small content-addressed version-control engine: the object codec
//! (blobs, trees, commits), the staging index, the tree builder, the commit
//! chain and the status engine.

pub mod builder;
pub mod commands;
pub mod config;
pub mod determinism;
pub mod error;
pub mod hash;
pub mod index;
pub mod objects;
pub mod store;
pub mod text;
