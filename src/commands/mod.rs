//! The repository operations, as decisions over values that the caller
//! reads from and writes to storage.
pub mod add;
pub mod commit;
pub mod reset;
pub mod status;
pub mod traverse;
