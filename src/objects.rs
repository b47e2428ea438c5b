//! The three object kinds and their payload codecs.
pub mod blob;
pub mod directory;
pub mod snapshot;

use std::borrow::Cow;

use vstd::prelude::*;

use crate::error::{JogenError, Result};
use crate::object_store::ObjectType;

verus! {

/// A value that is stored as an object: it declares its kind and encodes
/// its payload.
pub trait JogenObject {
    /// The kind this value is stored as.
    spec fn spec_kind(&self) -> ObjectType;

    /// Whether the payload can be encoded.
    spec fn spec_encodes(&self) -> bool;

    /// The payload, where it can be encoded.
    spec fn spec_payload(&self) -> Seq<u8>;

    fn object_type(&self) -> (r: ObjectType)
        ensures
            r == self.spec_kind(),
    ;

    fn serialize(&self) -> (r: Result<Cow<'_, [u8]>>)
        ensures
            r is Ok <==> self.spec_encodes(),
            r matches Ok(v) ==> v@ == self.spec_payload(),
            r is Err ==> r matches Err(JogenError::ObjectCorrupt(_)),
    ;
}

} // verus!
