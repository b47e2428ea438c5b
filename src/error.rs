use vstd::prelude::*;

verus! {

/// The standard I/O error, carried opaquely by [`JogenError::Io`].
#[verifier::external_type_specification]
#[verifier::external_body]
pub struct ExIoError(std::io::Error);

/// The TOML serializer's error, carried opaquely by [`JogenError::Config`].
#[verifier::external_type_specification]
#[verifier::external_body]
pub struct ExTomlSerError(toml::ser::Error);

/// Every failure the engine reports.
#[derive(Debug)]
pub enum JogenError {
    /// Initialization found an existing control directory at this path.
    ProjectAlreadyExists(String),
    /// No ancestor of the starting directory holds a control directory.
    ProjectRootNotFound,
    /// No object is stored under this hash.
    ObjectNotFound(String),
    /// Stored or encoded data is malformed; the text says how.
    ObjectCorrupt(String),
    /// A raw entry-mode tag outside the recognised set.
    InvalidEntryMode(u8),
    /// A filesystem or stream failure.
    Io(std::io::Error),
    /// The configuration file could not be produced.
    Config(toml::ser::Error),
}

pub type Result<T> = core::result::Result<T, JogenError>;

} // verus!
