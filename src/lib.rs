//! Signed metadata documents: building, signing, parsing and threshold
//! verification, together with the path wrappers that keep document and
//! target names from escaping their directory.

pub mod error;
pub mod path;
pub mod crypto;
pub mod interchange;
pub mod signers;
pub mod metadata;
pub mod link;
