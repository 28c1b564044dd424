use vstd::prelude::*;

verus! {

/// Identity of a logical page. `-1` (`INVALID_PAGE_ID`) denotes "no page".
pub type PageId = i32;

/// Index of an in-memory slot of the buffer pool; never persisted.
pub type FrameId = usize;

/// Size in bytes of every page.
pub const PAGE_SIZE: usize = 4096;

/// The `PageId` that denotes the absence of a page.
pub const INVALID_PAGE_ID: PageId = -1;

/// A page of all-zero bytes, the content of any page never written.
pub open spec fn zero_page() -> Seq<u8> {
    Seq::new(PAGE_SIZE as nat, |i: int| 0u8)
}

/// A fixed-size in-memory page buffer plus the cache metadata the buffer
/// pool keeps per frame: the logical identity currently held, a dirty flag,
/// and a pin (reference) count that prevents eviction while positive.
pub struct Page {
    pub id: PageId,
    pub data: Vec<u8>,
    pub dirty: bool,
    pub pin_count: i32,
}

impl Page {
    /// The buffer always spans exactly one page and the pin count is a
    /// reference count, never negative.
    pub open spec fn wf(self) -> bool {
        &&& self.data@.len() == PAGE_SIZE
        &&& self.pin_count >= 0
    }

    /// A fresh, unowned frame buffer: no identity, zeroed bytes, clean,
    /// unpinned.
    pub fn new() -> (r: Page)
        ensures
            r.wf(),
            r.id == INVALID_PAGE_ID,
            r.data@ == zero_page(),
            !r.dirty,
            r.pin_count == 0,
    {
        Page { id: INVALID_PAGE_ID, data: zeroed_page_data(), dirty: false, pin_count: 0 }
    }
}

/// A byte-for-byte copy of a page buffer.
pub fn clone_page_data(src: &Vec<u8>) -> (r: Vec<u8>)
    ensures
        r@ == src@,
{
    let mut data: Vec<u8> = Vec::new();
    let mut i: usize = 0;
    while i < src.len()
        invariant
            i <= src@.len(),
            data@.len() == i,
            forall|k: int| 0 <= k < i ==> data@[k] == src@[k],
        decreases src@.len() - i,
    {
        let b = src[i];
        data.push(b);
        i = i + 1;
    }
    proof {
        assert(data@ =~= src@);
    }
    data
}

/// A freshly allocated all-zero page buffer.
pub fn zeroed_page_data() -> (r: Vec<u8>)
    ensures
        r@ == zero_page(),
{
    let mut data: Vec<u8> = Vec::new();
    let mut i: usize = 0;
    while i < PAGE_SIZE
        invariant
            i <= PAGE_SIZE,
            data@.len() == i,
            forall|k: int| 0 <= k < i ==> data@[k] == 0u8,
        decreases PAGE_SIZE - i,
    {
        data.push(0u8);
        i = i + 1;
    }
    proof {
        assert(data@ =~= zero_page());
    }
    data
}

} // verus!
