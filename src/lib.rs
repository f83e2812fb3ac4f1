//! Photo collection management: an index of photos with their content hashes,
//! reconciliation of that index with the files found on disk, duplicate and
//! integrity checks, and canonical file names derived from photo metadata.

pub mod checks;
pub mod collection;
pub mod hashing;
pub mod index;
pub mod naming;
pub mod order;
pub mod reconcile;
pub mod text;
pub mod thumbcat;
