use vstd::prelude::*;

use crate::errors::StorageError;
use crate::storage::page::PAGE_SIZE;

verus! {

/// The bytes of page `page_id` as a reader of the backing store sees them:
/// bytes past the end of the store read as zero, so a page never written is
/// all zeros and the store may grow sparsely.
pub open spec fn page_at(file: Seq<u8>, page_id: int) -> Seq<u8> {
    Seq::new(
        PAGE_SIZE as nat,
        |k: int|
            if page_id * PAGE_SIZE + k < file.len() {
                file[page_id * PAGE_SIZE + k]
            } else {
                0u8
            },
    )
}

/// The backing store after writing `bytes` verbatim at the byte range of
/// page `page_id`, zero-filling any gap between the old end of the store and
/// that range.
pub open spec fn write_file(file: Seq<u8>, page_id: int, bytes: Seq<u8>) -> Seq<u8> {
    let start = page_id * PAGE_SIZE;
    let end = start + PAGE_SIZE;
    let len = if file.len() >= end { file.len() as int } else { end };
    Seq::new(
        len as nat,
        |i: int|
            if start <= i < end {
                bytes[i - start]
            } else if i < file.len() {
                file[i]
            } else {
                0u8
            },
    )
}

/// Performs page-addressed random reads and writes against one backing
/// store. Page `p` occupies the byte range `[p * PAGE_SIZE, (p+1) * PAGE_SIZE)`;
/// the mapping from page id to offset is a pure multiply, so no allocation
/// table is needed. The store is held in memory; an embedder that wants the
/// bytes on disk persists `backing_bytes` at the path given to `new`.
pub struct DiskManager {
    db_file: String,
    file: Vec<u8>,
}

impl DiskManager {
    /// The current contents of the backing store.
    pub closed spec fn contents(self) -> Seq<u8> {
        self.file@
    }

    /// The path this store stands for, as handed to `new`.
    pub closed spec fn spec_db_file(self) -> Seq<char> {
        self.db_file@
    }

    /// A fresh database: the backing store starts empty, so every page reads
    /// as zeros. `db_file` is the path the embedder associates with it.
    pub fn new(db_file: String) -> (r: DiskManager)
        ensures
            r.contents() == Seq::<u8>::empty(),
            r.spec_db_file() == db_file@,
    {
        DiskManager { db_file, file: Vec::new() }
    }

    /// A database over existing backing bytes, e.g. loaded from a file.
    pub fn with_contents(db_file: String, contents: Vec<u8>) -> (r: DiskManager)
        ensures
            r.contents() == contents@,
            r.spec_db_file() == db_file@,
    {
        DiskManager { db_file, file: contents }
    }

    /// The raw backing bytes, for an embedder that persists them.
    pub fn backing_bytes(&self) -> (r: &Vec<u8>)
        ensures
            r@ == self.contents(),
    {
        &self.file
    }

    /// The path this store stands for.
    pub fn db_file(&self) -> (r: &String)
        ensures
            r@ == self.spec_db_file(),
    {
        &self.db_file
    }

    /// Writes `page` verbatim at byte offset `page_id * PAGE_SIZE`, extending
    /// the store (zero-filling the gap) if that range lies beyond its current
    /// end. Returns the number of bytes written.
    pub fn write_page(&mut self, page_id: u64, page: &Vec<u8>) -> (r: Result<usize, StorageError>)
        requires
            page@.len() == PAGE_SIZE,
            (page_id as int + 1) * PAGE_SIZE <= usize::MAX,
        ensures
            final(self).contents() == write_file(old(self).contents(), page_id as int, page@),
            final(self).spec_db_file() == old(self).spec_db_file(),
            r == Ok::<usize, StorageError>(PAGE_SIZE),
    {
        let start: usize = (page_id as usize) * PAGE_SIZE;
        let end: usize = start + PAGE_SIZE;
        while self.file.len() < end
            invariant
                end <= usize::MAX,
                self.file@.len() <= end || self.file@.len() == old(self).file@.len(),
                self.file@.len() >= old(self).file@.len(),
                self.file@.subrange(0, old(self).file@.len() as int) == old(self).file@,
                forall|i: int|
                    old(self).file@.len() <= i < self.file@.len() ==> self.file@[i] == 0u8,
                self.db_file == old(self).db_file,
            decreases end - self.file.len(),
        {
            self.file.push(0u8);
            proof {
                assert(self.file@.subrange(0, old(self).file@.len() as int) =~= old(
                    self,
                ).file@);
            }
        }
        let ghost padded = self.file@;
        let ghost old_len = old(self).file@.len() as int;
        let mut k: usize = 0;
        while k < PAGE_SIZE
            invariant
                k <= PAGE_SIZE,
                start == page_id as int * PAGE_SIZE,
                end == start + PAGE_SIZE,
                end <= usize::MAX,
                start + PAGE_SIZE <= padded.len(),
                page@.len() == PAGE_SIZE,
                old_len == old(self).file@.len(),
                padded.len() == if old_len >= end { old_len } else { end as int },
                padded.subrange(0, old_len) == old(self).file@,
                forall|i: int| old_len <= i < padded.len() ==> padded[i] == 0u8,
                self.file@.len() == padded.len(),
                forall|i: int| start <= i < start + k ==> self.file@[i] == page@[i - start],
                forall|i: int|
                    0 <= i < self.file@.len() && !(start <= i < start + k) ==> self.file@[i]
                        == padded[i],
                self.db_file == old(self).db_file,
            decreases PAGE_SIZE - k,
        {
            self.file[start + k] = page[k];
            k = k + 1;
        }
        proof {
            assert forall|i: int| 0 <= i < old_len implies padded[i] == old(self).file@[i] by {
                assert(padded.subrange(0, old_len)[i] == padded[i]);
            }
            let target = write_file(old(self).contents(), page_id as int, page@);
            assert(self.file@.len() == target.len());
            assert forall|i: int| 0 <= i < target.len() implies self.file@[i] == target[i] by {
                if start <= i < start + PAGE_SIZE {
                    assert(self.file@[i] == page@[i - start]);
                } else {
                    assert(self.file@[i] == padded[i]);
                }
            }
            assert(self.file@ =~= target);
        }
        Ok(PAGE_SIZE)
    }

    /// Reads the `PAGE_SIZE` bytes of page `page_id` into `buf`. Reading a
    /// page never written succeeds and yields a zero-filled buffer.
    /// Returns the number of bytes read.
    pub fn read_page(&self, page_id: u64, buf: &mut Vec<u8>) -> (r: Result<usize, StorageError>)
        requires
            old(buf)@.len() == PAGE_SIZE,
            (page_id as int + 1) * PAGE_SIZE <= usize::MAX,
        ensures
            final(buf)@ == page_at(self.contents(), page_id as int),
            r == Ok::<usize, StorageError>(PAGE_SIZE),
    {
        let start: usize = (page_id as usize) * PAGE_SIZE;
        let mut k: usize = 0;
        while k < PAGE_SIZE
            invariant
                k <= PAGE_SIZE,
                buf@.len() == PAGE_SIZE,
                start == page_id as int * PAGE_SIZE,
                start + PAGE_SIZE <= usize::MAX,
                forall|i: int| 0 <= i < k ==> buf@[i] == page_at(self.contents(), page_id as int)[i],
            decreases PAGE_SIZE - k,
        {
            let byte: u8 = if start + k < self.file.len() {
                self.file[start + k]
            } else {
                0u8
            };
            buf[k] = byte;
            k = k + 1;
        }
        proof {
            assert(final(buf)@ =~= page_at(self.contents(), page_id as int));
        }
        Ok(PAGE_SIZE)
    }

    /// Removes the backing store entirely; used only for teardown. Afterwards
    /// every page reads as zeros again.
    pub fn drop_database(&mut self) -> (r: Result<(), StorageError>)
        ensures
            final(self).contents() == Seq::<u8>::empty(),
            final(self).spec_db_file() == old(self).spec_db_file(),
            r == Ok::<(), StorageError>(()),
    {
        self.file.clear();
        Ok(())
    }
}

/// Round trip: after writing bytes `b` as page `p`, reading page `p` yields
/// exactly `b`, for any store, any `p`, and any `b` of page size.
pub proof fn lemma_write_read_round_trip(file: Seq<u8>, page_id: int, b: Seq<u8>)
    requires
        0 <= page_id,
        b.len() == PAGE_SIZE,
    ensures
        page_at(write_file(file, page_id, b), page_id) == b,
{
    assert(page_at(write_file(file, page_id, b), page_id) =~= b);
}

/// Writing one page leaves every other page's bytes unchanged; together with
/// `lemma_fresh_page_reads_zero` this gives that a page id never written
/// reads as all zeros, whatever was written elsewhere.
pub proof fn lemma_write_preserves_other_pages(file: Seq<u8>, page_id: int, b: Seq<u8>, other: int)
    requires
        0 <= page_id,
        0 <= other,
        other != page_id,
        b.len() == PAGE_SIZE,
    ensures
        page_at(write_file(file, page_id, b), other) == page_at(file, other),
{
    let written = write_file(file, page_id, b);
    assert forall|k: int| 0 <= k < PAGE_SIZE implies page_at(written, other)[k] == page_at(
        file,
        other,
    )[k] by {
        let i = other * PAGE_SIZE + k;
        if other < page_id {
            assert((other + 1) * PAGE_SIZE <= page_id * PAGE_SIZE) by (nonlinear_arith)
                requires
                    other < page_id,
            ;
        } else {
            assert((page_id + 1) * PAGE_SIZE <= other * PAGE_SIZE) by (nonlinear_arith)
                requires
                    page_id < other,
            ;
        }
        assert(0 <= other * PAGE_SIZE) by (nonlinear_arith)
            requires
                0 <= other,
        ;
    }
    assert(page_at(written, other) =~= page_at(file, other));
}

/// In an empty store — one where nothing was ever written — every page reads
/// as all zeros.
pub proof fn lemma_fresh_page_reads_zero(page_id: int)
    requires
        0 <= page_id,
    ensures
        page_at(Seq::<u8>::empty(), page_id) == crate::storage::page::zero_page(),
{
    assert(page_at(Seq::<u8>::empty(), page_id) =~= crate::storage::page::zero_page());
}

} // verus!
