use vstd::prelude::*;

use crate::errors::StorageError;
use crate::storage::page::{Page, PageId, PAGE_SIZE};
use crate::table::tuple::Tuple;

verus! {

/// Size in bytes of the slotted page header: `next_page_id` (bytes 0..4)
/// then `num_tuples` (bytes 4..8), both big-endian 32-bit values.
pub const TABLE_PAGE_HEADER_SIZE: usize = 8;

/// The big-endian 32-bit unsigned value stored at bytes `i .. i + 4`.
pub open spec fn be32_at(data: Seq<u8>, i: int) -> int {
    (data[i] as int) * 0x1000000 + (data[i + 1] as int) * 0x10000 + (data[i + 2] as int) * 0x100
        + (data[i + 3] as int)
}

/// The signed reading of a 32-bit value: two's complement.
pub open spec fn be32_signed(v: int) -> int {
    if v < 0x80000000 {
        v
    } else {
        v - 0x100000000
    }
}

/// The offset stored in slot `j`: where tuple `j`'s bytes begin.
pub open spec fn slot_offset(data: Seq<u8>, j: int) -> int {
    be32_at(data, 8 + 4 * j)
}

/// Where tuple `j`'s bytes end: the page end for the first tuple, the
/// previous tuple's start after that — tuple lengths are recovered by
/// adjacent-offset subtraction, so the tuple heap tiles the high end of the
/// page without gaps.
pub open spec fn tuple_end(data: Seq<u8>, j: int) -> int {
    if j == 0 {
        PAGE_SIZE as int
    } else {
        slot_offset(data, j - 1)
    }
}

/// Tuple `j`'s bytes.
pub open spec fn tuple_bytes(data: Seq<u8>, j: int) -> Seq<u8> {
    data.subrange(slot_offset(data, j), tuple_end(data, j))
}

/// The slot layout invariant of a page holding `n` tuples: each tuple starts
/// at or before the previous one's start (strictly before whenever it is
/// non-empty), and the lowest tuple start stays at or above the end of the
/// slot array, so slots and tuples never overlap.
pub open spec fn slots_wf(data: Seq<u8>, n: int) -> bool {
    &&& data.len() == PAGE_SIZE
    &&& 0 <= n
    &&& 8 + 4 * n <= PAGE_SIZE
    &&& (n > 0 ==> slot_offset(data, 0) <= PAGE_SIZE)
    &&& (n > 0 ==> slot_offset(data, n - 1) >= 8 + 4 * n)
    &&& forall|j1: int, j2: int|
        0 <= j1 < j2 < n ==> #[trigger] slot_offset(data, j2) <= #[trigger] slot_offset(data, j1)
}

/// Raw page bytes form a slotted page exactly when the tuple count in the
/// header obeys the slot layout invariant.
pub open spec fn parses(data: Seq<u8>) -> bool {
    &&& data.len() == PAGE_SIZE
    &&& slots_wf(data, be32_at(data, 4))
}

/// Sum of the lengths of a sequence of tuples.
pub open spec fn total_len(ts: Seq<Seq<u8>>) -> int
    decreases ts.len(),
{
    if ts.len() == 0 {
        0
    } else {
        total_len(ts.drop_last()) + ts.last().len()
    }
}

/// Under the layout invariant, every tuple's byte range lies inside the page
/// and above the slot array.
pub proof fn lemma_tuple_range(data: Seq<u8>, n: int, j: int)
    requires
        slots_wf(data, n),
        0 <= j < n,
    ensures
        8 + 4 * n <= slot_offset(data, j) <= tuple_end(data, j) <= PAGE_SIZE,
{
    if j < n - 1 {
        assert(slot_offset(data, n - 1) <= slot_offset(data, j));
    }
    if j > 0 {
        assert(slot_offset(data, j) <= slot_offset(data, j - 1));
        assert(slot_offset(data, j - 1) <= slot_offset(data, 0));
        if j - 1 < n - 1 {
            assert(slot_offset(data, n - 1) <= slot_offset(data, j - 1));
        }
    } else {
        assert(slot_offset(data, j) <= slot_offset(data, 0));
    }
}

/// Under the layout invariant, the tuples' total length is exactly the span
/// from the lowest tuple start to the page end: the heap is gapless.
pub proof fn lemma_total_len(data: Seq<u8>, n: int)
    requires
        slots_wf(data, n),
    ensures
        total_len(Seq::new(n as nat, |j: int| tuple_bytes(data, j))) == PAGE_SIZE - (
        if n == 0 {
            PAGE_SIZE as int
        } else {
            slot_offset(data, n - 1)
        }),
    decreases n,
{
    let ts = Seq::new(n as nat, |j: int| tuple_bytes(data, j));
    if n == 0 {
        assert(ts.len() == 0);
    } else {
        assert(slots_wf(data, n - 1)) by {
            if n - 1 > 0 {
                assert(slot_offset(data, n - 1) <= slot_offset(data, n - 2));
                assert(slot_offset(data, n - 1) >= 8 + 4 * n);
            }
        }
        lemma_total_len(data, n - 1);
        let prev = Seq::new((n - 1) as nat, |j: int| tuple_bytes(data, j));
        assert(ts.drop_last() =~= prev);
        lemma_tuple_range(data, n, n - 1);
        assert(ts.last() == tuple_bytes(data, n - 1));
        assert(ts.last().len() == tuple_end(data, n - 1) - slot_offset(data, n - 1));
    }
}

/// The big-endian 32-bit unsigned value at bytes `i .. i + 4`.
fn read_be32(data: &Vec<u8>, i: usize) -> (r: u32)
    requires
        i + 4 <= data@.len() <= PAGE_SIZE,
    ensures
        r as int == be32_at(data@, i as int),
{
    (data[i] as u32) * 0x1000000 + (data[i + 1] as u32) * 0x10000 + (data[i + 2] as u32) * 0x100
        + (data[i + 3] as u32)
}

/// Stores `v` big-endian at bytes `i .. i + 4`; the page layout never stores
/// values past 16 bits there (offsets and counts are at most the page size).
fn write_be32(data: &mut Vec<u8>, i: usize, v: u32)
    requires
        i + 4 <= old(data)@.len() <= PAGE_SIZE,
        v < 0x10000,
    ensures
        final(data)@.len() == old(data)@.len(),
        be32_at(final(data)@, i as int) == v as int,
        forall|j: int|
            0 <= j < old(data)@.len() && !(i <= j < i + 4) ==> final(data)@[j] == old(data)@[j],
{
    data[i] = 0u8;
    data[i + 1] = 0u8;
    data[i + 2] = (v / 0x100) as u8;
    data[i + 3] = (v % 0x100) as u8;
    proof {
        assert(v == 0x100 * (v as int / 0x100) + v as int % 0x100) by {
            vstd::arithmetic::div_mod::lemma_fundamental_div_mod(v as int, 0x100);
        }
    }
}

/// The signed page id encoded by a raw 32-bit value.
fn decode_page_id(v: u32) -> (r: i32)
    ensures
        r as int == be32_signed(v as int),
{
    if v >= 0x80000000 {
        let down = u32::MAX - v;
        -(down as i32) - 1
    } else {
        v as i32
    }
}

/// A slotted page: an interpretation of one `Page`'s bytes as a header, a
/// slot array growing upward from byte 8, and a heap of variable-length
/// tuples growing downward from the page end (see the layout spec functions
/// above). Constructed over a copy of the page bytes; `page_data` is written
/// back to the pool by the caller when it changes.
pub struct TablePage {
    pub next_page_id: PageId,
    pub num_tuples: i32,
    pub page_data: Vec<u8>,
}

impl TablePage {
    /// The cached header fields agree with the header bytes and the slot
    /// layout invariant holds.
    pub open spec fn wf(self) -> bool {
        &&& slots_wf(self.page_data@, self.num_tuples as int)
        &&& be32_at(self.page_data@, 4) == self.num_tuples as int
        &&& be32_signed(be32_at(self.page_data@, 0)) == self.next_page_id as int
    }

    /// The tuples held by this page, in slot order.
    pub open spec fn tuples(self) -> Seq<Seq<u8>> {
        Seq::new(self.num_tuples as nat, |j: int| tuple_bytes(self.page_data@, j))
    }

    /// Where the next tuple's bytes would end: the current lowest tuple
    /// start, or the page end when the page is empty.
    pub open spec fn low_offset(self) -> int {
        if self.num_tuples == 0 {
            PAGE_SIZE as int
        } else {
            slot_offset(self.page_data@, self.num_tuples - 1)
        }
    }

    /// Whether a tuple of `len` bytes fits: its slot must not collide with
    /// its own bytes.
    pub open spec fn fits(self, len: int) -> bool {
        self.low_offset() - len >= 8 + 4 * (self.num_tuples as int + 1)
    }

    /// Reads a `Page`'s bytes as a slotted page, or `None` when the header
    /// and slots do not satisfy the slot layout invariant.
    pub fn try_from(page: &Page) -> (r: Option<TablePage>)
        requires
            page.data@.len() == PAGE_SIZE,
        ensures
            match r {
                Some(tp) => {
                    &&& parses(page.data@)
                    &&& tp.wf()
                    &&& tp.page_data@ == page.data@
                    &&& tp.num_tuples as int == be32_at(page.data@, 4)
                    &&& tp.next_page_id as int == be32_signed(be32_at(page.data@, 0))
                },
                None => !parses(page.data@),
            },
    {
        let n_raw = read_be32(&page.data, 4);
        if n_raw > (PAGE_SIZE as u32 - TABLE_PAGE_HEADER_SIZE as u32) / 4 {
            return None;
        }
        let n = n_raw as usize;
        let ghost d = page.data@;
        let mut j: usize = 0;
        while j < n
            invariant
                n == be32_at(d, 4),
                8 + 4 * n <= PAGE_SIZE,
                d == page.data@,
                d.len() == PAGE_SIZE,
                j <= n,
                j > 0 ==> slot_offset(d, 0) <= PAGE_SIZE,
                forall|k1: int, k2: int|
                    0 <= k1 < k2 < j ==> #[trigger] slot_offset(d, k2) <= #[trigger] slot_offset(
                        d,
                        k1,
                    ),
            decreases n - j,
        {
            let off = read_be32(&page.data, 8 + 4 * j);
            let end: u32 = if j == 0 {
                PAGE_SIZE as u32
            } else {
                read_be32(&page.data, 8 + 4 * (j - 1))
            };
            if off > end {
                proof {
                    if parses(d) {
                        if j > 0 {
                            assert(slot_offset(d, j as int) <= slot_offset(d, j as int - 1));
                        } else {
                            assert(slot_offset(d, 0) <= PAGE_SIZE);
                        }
                    }
                }
                return None;
            }
            proof {
                if j > 0 {
                    assert forall|k1: int| 0 <= k1 < j implies slot_offset(d, j as int)
                        <= #[trigger] slot_offset(d, k1) by {
                        if k1 < j as int - 1 {
                            assert(slot_offset(d, j as int - 1) <= slot_offset(d, k1));
                        }
                    }
                }
            }
            j = j + 1;
        }
        if n > 0 {
            let lowest = read_be32(&page.data, 8 + 4 * (n - 1));
            if (lowest as usize) < 8 + 4 * n {
                return None;
            }
        }
        proof {
            assert(slots_wf(d, n as int));
        }
        let tp = TablePage {
            next_page_id: decode_page_id(read_be32(&page.data, 0)),
            num_tuples: n as i32,
            page_data: crate::storage::page::clone_page_data(&page.data),
        };
        Some(tp)
    }

    /// Reads a `Page`'s bytes, known to form a valid slotted page, as a
    /// `TablePage`.
    pub fn from(page: &Page) -> (r: TablePage)
        requires
            page.data@.len() == PAGE_SIZE,
            parses(page.data@),
        ensures
            r.wf(),
            r.page_data@ == page.data@,
            r.num_tuples as int == be32_at(page.data@, 4),
            r.next_page_id as int == be32_signed(be32_at(page.data@, 0)),
    {
        let r = Self::try_from(page);
        r.unwrap()
    }

    /// Inserts `t` at the next free offset — the current lowest tuple start
    /// (page end when empty) minus the tuple's length — appends a slot
    /// holding that offset, increments `num_tuples` and rewrites the header;
    /// returns the offset. Fails with `PageFull`, leaving the page unchanged,
    /// exactly when the new slot would collide with the new tuple's bytes.
    pub fn insert_tuple(&mut self, t: &Tuple) -> (r: Result<usize, StorageError>)
        requires
            old(self).wf(),
        ensures
            final(self).wf(),
            final(self).next_page_id == old(self).next_page_id,
            match r {
                Ok(off) => {
                    &&& old(self).fits(t.data@.len() as int)
                    &&& final(self).num_tuples == old(self).num_tuples + 1
                    &&& final(self).tuples() == old(self).tuples().push(t.data@)
                    &&& off == old(self).low_offset() - t.data@.len()
                    &&& off as int == PAGE_SIZE - total_len(final(self).tuples())
                },
                Err(e) => {
                    &&& e == StorageError::PageFull
                    &&& !old(self).fits(t.data@.len() as int)
                    &&& final(self).num_tuples == old(self).num_tuples
                    &&& final(self).page_data@ == old(self).page_data@
                    &&& final(self).tuples() == old(self).tuples()
                },
            },
    {
        let n = self.num_tuples as usize;
        let low: usize = if n == 0 {
            PAGE_SIZE
        } else {
            proof {
                lemma_tuple_range(self.page_data@, n as int, n as int - 1);
            }
            read_be32(&self.page_data, 8 + 4 * (n - 1)) as usize
        };
        let len = t.data.len();
        if len > low {
            return Err(StorageError::PageFull);
        }
        let tuple_offset = low - len;
        let slotset_size = TABLE_PAGE_HEADER_SIZE + 4 * (n + 1);
        if slotset_size > tuple_offset {
            return Err(StorageError::PageFull);
        }
        let ghost pre = *self;
        // tuple bytes, downward heap
        let mut k: usize = 0;
        while k < len
            invariant
                k <= len,
                tuple_offset + len <= PAGE_SIZE,
                t.data@.len() == len,
                self.page_data@.len() == PAGE_SIZE,
                self.num_tuples == pre.num_tuples,
                self.next_page_id == pre.next_page_id,
                forall|j: int|
                    tuple_offset <= j < tuple_offset + k ==> self.page_data@[j] == t.data@[j
                        - tuple_offset],
                forall|j: int|
                    0 <= j < PAGE_SIZE && !(tuple_offset <= j < tuple_offset + k)
                        ==> self.page_data@[j] == pre.page_data@[j],
            decreases len - k,
        {
            let b = t.data[k];
            self.page_data[tuple_offset + k] = b;
            k = k + 1;
        }
        // the new slot, then the header's tuple count
        write_be32(&mut self.page_data, 8 + 4 * n, tuple_offset as u32);
        self.num_tuples = self.num_tuples + 1;
        write_be32(&mut self.page_data, 4, (n + 1) as u32);
        proof {
            self.lemma_insert_shape(pre, t.data@, tuple_offset as int);
        }
        Ok(tuple_offset)
    }

    /// After the three writes of a successful insert, the page again
    /// satisfies the layout invariant and holds exactly the old tuples plus
    /// the new one.
    proof fn lemma_insert_shape(self, pre: Self, t: Seq<u8>, off: int)
        requires
            pre.wf(),
            pre.fits(t.len() as int),
            off == pre.low_offset() - t.len(),
            self.num_tuples == pre.num_tuples + 1,
            self.next_page_id == pre.next_page_id,
            self.page_data@.len() == PAGE_SIZE,
            be32_at(self.page_data@, 4) == pre.num_tuples + 1,
            slot_offset(self.page_data@, pre.num_tuples as int) == off,
            forall|j: int| off <= j < pre.low_offset() ==> self.page_data@[j] == t[j - off],
            forall|j: int|
                0 <= j < PAGE_SIZE && !(off <= j < off + t.len()) && !(8 + 4 * pre.num_tuples <= j
                    < 8 + 4 * pre.num_tuples + 4) && !(4 <= j < 8) ==> self.page_data@[j]
                    == pre.page_data@[j],
        ensures
            self.wf(),
            self.tuples() == pre.tuples().push(t),
            off == PAGE_SIZE - total_len(self.tuples()),
    {
        let n = pre.num_tuples as int;
        let d0 = pre.page_data@;
        let d = self.page_data@;
        // untouched slots decode unchanged
        assert forall|j: int| 0 <= j < n implies #[trigger] slot_offset(d, j) == slot_offset(
            d0,
            j,
        ) by {
            lemma_tuple_range(d0, n, j);
        }
        // header bytes 0..4 untouched
        assert(be32_at(d, 0) == be32_at(d0, 0));
        // layout invariant with one more slot
        assert forall|j1: int, j2: int|
            0 <= j1 < j2 < n + 1 implies #[trigger] slot_offset(d, j2) <= #[trigger] slot_offset(
            d,
            j1,
        ) by {
            if j2 < n {
                assert(slot_offset(d0, j2) <= slot_offset(d0, j1));
            } else {
                if j1 < n - 1 {
                    assert(slot_offset(d0, n - 1) <= slot_offset(d0, j1));
                }
            }
        }
        assert(slot_offset(d, 0) <= PAGE_SIZE) by {
            if n > 0 {
                assert(slot_offset(d0, 0) <= PAGE_SIZE);
                if n > 1 {
                    assert(slot_offset(d0, n - 1) <= slot_offset(d0, 0));
                }
            }
        }
        assert(slot_offset(d, n) >= 8 + 4 * (n + 1));
        assert(slots_wf(d, n + 1));
        // old tuple bytes untouched
        assert forall|j: int| 0 <= j < n implies #[trigger] tuple_bytes(d, j) == tuple_bytes(
            d0,
            j,
        ) by {
            lemma_tuple_range(d0, n, j);
            if j < n - 1 {
                assert(slot_offset(d0, n - 1) <= slot_offset(d0, j));
            }
            if 0 < j && j - 1 < n - 1 {
                assert(slot_offset(d0, n - 1) <= slot_offset(d0, j - 1));
            }
            assert forall|b: int|
                slot_offset(d0, j) <= b < tuple_end(d0, j) implies d[b] == d0[b] by {}
            assert(tuple_bytes(d, j) =~= tuple_bytes(d0, j));
        }
        // the new tuple reads back exactly
        assert(tuple_end(d, n) == pre.low_offset());
        assert(tuple_bytes(d, n) =~= t);
        assert(self.tuples() =~= pre.tuples().push(t));
        lemma_total_len(d, n + 1);
    }

    /// The tuple in slot `slot_id`, its length recovered by adjacent-offset
    /// subtraction. Fails with `InvalidSlot` exactly when `slot_id` is at or
    /// past `num_tuples`.
    pub fn get_tuple(&self, slot_id: usize) -> (r: Result<Tuple, StorageError>)
        requires
            self.wf(),
        ensures
            match r {
                Ok(t) => slot_id < self.num_tuples && t.data@ == self.tuples()[slot_id as int],
                Err(e) => e == StorageError::InvalidSlot && slot_id >= self.num_tuples,
            },
    {
        let n = self.num_tuples as usize;
        if slot_id >= n {
            return Err(StorageError::InvalidSlot);
        }
        proof {
            lemma_tuple_range(self.page_data@, n as int, slot_id as int);
        }
        let off = read_be32(&self.page_data, 8 + 4 * slot_id) as usize;
        let end: usize = if slot_id == 0 {
            PAGE_SIZE
        } else {
            proof {
                lemma_tuple_range(self.page_data@, n as int, slot_id as int - 1);
            }
            read_be32(&self.page_data, 8 + 4 * (slot_id - 1)) as usize
        };
        let mut data: Vec<u8> = Vec::new();
        let mut k: usize = off;
        while k < end
            invariant
                off <= k <= end || (end < off && k == off),
                end <= PAGE_SIZE,
                self.page_data@.len() == PAGE_SIZE,
                data@.len() == k - off,
                forall|j: int| off <= j < k ==> data@[j - off] == self.page_data@[j],
            decreases end - k,
        {
            let b = self.page_data[k];
            data.push(b);
            k = k + 1;
        }
        proof {
            assert(data@ =~= tuple_bytes(self.page_data@, slot_id as int));
        }
        Ok(Tuple { data })
    }

    /// Law: among non-empty tuples, insertion offsets are strictly
    /// decreasing in slot order (an empty tuple shares its start with the
    /// tuple before it, which is why strictness needs the length premise).
    pub proof fn lemma_offsets_strictly_decreasing(self)
        requires
            self.wf(),
            forall|j: int| 0 <= j < self.num_tuples ==> (#[trigger] self.tuples()[j]).len() > 0,
        ensures
            forall|j: int|
                0 < j < self.num_tuples ==> #[trigger] slot_offset(self.page_data@, j)
                    < slot_offset(self.page_data@, j - 1),
    {
        let n = self.num_tuples as int;
        assert forall|j: int| 0 < j < n implies #[trigger] slot_offset(self.page_data@, j)
            < slot_offset(self.page_data@, j - 1) by {
            lemma_tuple_range(self.page_data@, n, j);
            assert(self.tuples()[j].len() > 0);
            assert(self.tuples()[j] == tuple_bytes(self.page_data@, j));
        }
    }
}

} // verus!
