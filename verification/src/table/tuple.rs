use vstd::prelude::*;

verus! {

/// An owned, arbitrary-length byte record. Once written into a slotted page
/// it is addressed by slot index, not by a standalone identity.
#[derive(Debug)]
pub struct Tuple {
    pub data: Vec<u8>,
}

impl Tuple {
    /// Length in bytes of the record.
    pub fn len(&self) -> (r: usize)
        ensures
            r == self.data@.len(),
    {
        self.data.len()
    }
}

} // verus!
