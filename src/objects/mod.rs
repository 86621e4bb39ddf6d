//! The three object kinds and their canonical encodings.
use vstd::prelude::*;

use crate::error::VcsError;

pub mod blob;
pub mod commit;
pub mod tree;

verus! {

/// An object that has a canonical byte encoding.
pub trait ObjectDump {
    /// The canonical encoding: header and body.
    fn convert_to_bytes(&self) -> Result<Vec<u8>, VcsError>;
}

/// An object that can be read back from its canonical encoding.
pub trait ObjectPump: Sized {
    /// Decodes an encoding, rejecting malformed or truncated input.
    fn from_raw_data(data: &[u8]) -> Result<Self, VcsError>;
}

} // verus!
