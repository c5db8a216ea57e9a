//! File metadata carried by the root index block.

use vstd::prelude::*;

verus! {

/// Name and size of the encoded file. The name is kept as bytes; how it is
/// rendered is the caller's business.
#[derive(Debug, PartialEq)]
pub struct MetaData {
    pub file_name: Vec<u8>,
    pub file_size: u64,
}

impl Clone for MetaData {
    fn clone(&self) -> (r: Self)
        ensures
            r@ == self@,
    {
        MetaData {
            file_name: vstd::slice::slice_to_vec(self.file_name.as_slice()),
            file_size: self.file_size,
        }
    }
}

/// Mathematical view of [`MetaData`].
#[verifier::ext_equal]
pub struct MetaDataV {
    pub file_name: Seq<u8>,
    pub file_size: u64,
}

impl View for MetaData {
    type V = MetaDataV;

    open spec fn view(&self) -> MetaDataV {
        MetaDataV { file_name: self.file_name@, file_size: self.file_size }
    }
}

impl DeepView for MetaData {
    type V = MetaDataV;

    open spec fn deep_view(&self) -> MetaDataV {
        self@
    }
}

} // verus!
