//! A content-addressed version-control engine: object codecs, the object
//! envelope, tree diffing and reference parsing, with their contracts.
pub mod bytes;
pub mod error;
pub mod hydrator;
pub mod indexer;
pub mod object_store;
pub mod objects;
pub mod ref_store;
pub mod repo;
pub mod text;
pub mod wrappers;

pub use error::{JogenError, Result};
pub use repo::find_root;
