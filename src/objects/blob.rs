use std::borrow::Cow;

use vstd::prelude::*;

use crate::error::Result;
use crate::object_store::ObjectType;
use crate::objects::JogenObject;

verus! {

/// A file's contents, stored verbatim.
pub struct Blob {
    pub data: Vec<u8>,
}

impl Blob {
    pub fn new(data: Vec<u8>) -> (r: Self)
        ensures
            r.data@ == data@,
    {
        Blob { data }
    }
}

impl JogenObject for Blob {
    open spec fn spec_kind(&self) -> ObjectType {
        ObjectType::Blob
    }

    open spec fn spec_encodes(&self) -> bool {
        true
    }

    open spec fn spec_payload(&self) -> Seq<u8> {
        self.data@
    }

    fn object_type(&self) -> (r: ObjectType) {
        ObjectType::Blob
    }

    fn serialize(&self) -> (r: Result<Cow<'_, [u8]>>) {
        Ok(Cow::Borrowed(self.data.as_slice()))
    }
}

} // verus!
