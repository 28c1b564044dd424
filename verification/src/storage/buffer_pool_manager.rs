use vstd::prelude::*;

use std::collections::HashMap;

use crate::errors::StorageError;
use crate::storage::disk_manager::{page_at, write_file, DiskManager};
use crate::storage::page::{zero_page, zeroed_page_data, FrameId, Page, PageId, INVALID_PAGE_ID,
    PAGE_SIZE};

verus! {

broadcast use vstd::std_specs::hash::group_hash_axioms;

/// A bounded cache of `Page`s over a `DiskManager`.
///
/// The pool owns `pool_size` pre-allocated frames, reused for different
/// logical pages over the cache's lifetime. `page_table` maps each resident
/// `PageId` to the frame holding it; `free_list` holds the frames with no
/// resident page; `lru_queue` orders the resident frames whose pin count is
/// zero by the time of their most recent unpin, oldest first, and the victim
/// of an eviction is always its front. A dirty frame is flushed to the disk
/// manager before its frame is reused.
///
/// Every mutating operation takes `&mut self`, so Rust's borrowing already
/// serializes them; callers that share a pool across threads must wrap it in
/// their own mutual-exclusion domain.
pub struct BufferPoolManager {
    pool_size: usize,
    pages: Vec<Page>,
    next_page_id: PageId,
    page_table: HashMap<PageId, FrameId>,
    disk_manager: DiskManager,
    free_list: Vec<FrameId>,
    lru_queue: Vec<FrameId>,
}

impl BufferPoolManager {
    /// Number of frames in the pool.
    pub closed spec fn spec_pool_size(self) -> int {
        self.pool_size as int
    }

    /// The frame array.
    pub closed spec fn frames(self) -> Seq<Page> {
        self.pages@
    }

    /// The page table: resident page id to frame index.
    pub closed spec fn table(self) -> Map<PageId, FrameId> {
        self.page_table@
    }

    /// The frames holding no resident page.
    pub closed spec fn free(self) -> Seq<FrameId> {
        self.free_list@
    }

    /// The eviction order: unpinned resident frames, least recently unpinned
    /// first.
    pub closed spec fn lru(self) -> Seq<FrameId> {
        self.lru_queue@
    }

    /// The next page id the monotonic allocation counter will hand out.
    pub closed spec fn next_id(self) -> int {
        self.next_page_id as int
    }

    /// The contents of the backing store under this pool.
    pub closed spec fn disk(self) -> Seq<u8> {
        self.disk_manager.contents()
    }

    /// Whether page `pid` currently occupies a frame.
    pub open spec fn resident(self, pid: PageId) -> bool {
        self.table().contains_key(pid)
    }

    /// The frame holding resident page `pid`.
    pub open spec fn frame_of(self, pid: PageId) -> int {
        self.table()[pid] as int
    }

    /// The pin count of resident page `pid`.
    pub open spec fn pin_of(self, pid: PageId) -> int {
        self.frames()[self.frame_of(pid)].pin_count as int
    }

    /// The dirty flag of resident page `pid`.
    pub open spec fn dirty_of(self, pid: PageId) -> bool {
        self.frames()[self.frame_of(pid)].dirty
    }

    /// The in-memory bytes of resident page `pid`.
    pub open spec fn data_of(self, pid: PageId) -> Seq<u8> {
        self.frames()[self.frame_of(pid)].data@
    }

    /// Every frame buffer spans one page and no pin count is negative.
    pub closed spec fn frames_wf(self) -> bool {
        &&& self.pages@.len() == self.pool_size
        &&& forall|f: int| 0 <= f < self.pages@.len() ==> (#[trigger] self.pages@[f]).wf()
    }

    /// Every page table entry points at a frame that holds exactly that page,
    /// and only allocated ids are resident.
    pub closed spec fn table_wf(self) -> bool {
        forall|pid: PageId| #[trigger] self.table().contains_key(pid) ==> {
            &&& 0 <= pid < self.next_page_id
            &&& (self.table()[pid] as int) < self.pages@.len()
            &&& self.pages@[self.table()[pid] as int].id == pid
        }
    }

    /// Every frame either holds no page (id `INVALID_PAGE_ID`) or holds the
    /// page the table maps to it.
    pub closed spec fn frame_ids_wf(self) -> bool {
        forall|f: int| 0 <= f < self.pages@.len() ==> {
            let id = (#[trigger] self.pages@[f]).id;
            ||| id == INVALID_PAGE_ID
            ||| (0 <= id < self.next_page_id && self.table().contains_key(id) && self.table()[id]
                as int == f)
        }
    }

    /// The free list holds, without duplicates, exactly the frames with no
    /// resident page; such frames are never pinned.
    pub closed spec fn free_wf(self) -> bool {
        &&& forall|i: int| 0 <= i < self.free_list@.len() ==> {
            let f = (#[trigger] self.free_list@[i]) as int;
            &&& f < self.pages@.len()
            &&& self.pages@[f].id == INVALID_PAGE_ID
            &&& self.pages@[f].pin_count == 0
        }
        &&& forall|i: int, j: int|
            0 <= i < j < self.free_list@.len() ==> self.free_list@[i] != self.free_list@[j]
        &&& forall|f: int|
            0 <= f < self.pages@.len() && (#[trigger] self.pages@[f]).id == INVALID_PAGE_ID
                ==> self.free_list@.contains(f as FrameId)
    }

    /// The eviction queue holds, without duplicates, exactly the resident
    /// frames whose pin count is zero.
    pub closed spec fn lru_wf(self) -> bool {
        &&& forall|i: int| 0 <= i < self.lru_queue@.len() ==> {
            let f = (#[trigger] self.lru_queue@[i]) as int;
            &&& f < self.pages@.len()
            &&& self.pages@[f].id != INVALID_PAGE_ID
            &&& self.pages@[f].pin_count == 0
        }
        &&& forall|i: int, j: int|
            0 <= i < j < self.lru_queue@.len() ==> self.lru_queue@[i] != self.lru_queue@[j]
        &&& forall|f: int|
            0 <= f < self.pages@.len() && (#[trigger] self.pages@[f]).id != INVALID_PAGE_ID
                && self.pages@[f].pin_count == 0 ==> self.lru_queue@.contains(f as FrameId)
    }

    /// The allocation counter never runs backwards and every allocated page's
    /// byte range in the backing store is addressable.
    pub closed spec fn bounds_wf(self) -> bool {
        &&& 0 <= self.next_page_id
        &&& (self.next_page_id as int) * (PAGE_SIZE as int) <= usize::MAX as int
    }

    /// The pool invariant: it holds after construction and before and after
    /// every operation.
    pub closed spec fn wf(self) -> bool {
        &&& self.frames_wf()
        &&& self.table_wf()
        &&& self.frame_ids_wf()
        &&& self.free_wf()
        &&& self.lru_wf()
        &&& self.bounds_wf()
    }

    /// `post` and `pre` agree on everything a caller can observe.
    pub open spec fn unchanged(pre: Self, post: Self) -> bool {
        &&& post.spec_pool_size() == pre.spec_pool_size()
        &&& post.frames() == pre.frames()
        &&& post.table() == pre.table()
        &&& post.free() == pre.free()
        &&& post.lru() == pre.lru()
        &&& post.next_id() == pre.next_id()
        &&& post.disk() == pre.disk()
    }

    /// Every page pinned in `pre` keeps its frame, bytes, dirty flag and at
    /// least its pin count in `post`: a pinned page is never evicted.
    pub open spec fn preserves_pinned(pre: Self, post: Self) -> bool {
        forall|q: PageId|
            pre.resident(q) && #[trigger] pre.pin_of(q) > 0 ==> {
                &&& post.resident(q)
                &&& post.frame_of(q) == pre.frame_of(q)
                &&& post.data_of(q) == pre.data_of(q)
                &&& post.pin_of(q) >= pre.pin_of(q)
            }
    }

    /// A fresh pool of `pool_size` frames over `disk_manager`: all frames on
    /// the free list, nothing resident, ids starting at 0.
    pub fn new(pool_size: usize, disk_manager: DiskManager) -> (r: BufferPoolManager)
        ensures
            r.wf(),
            r.spec_pool_size() == pool_size,
            r.next_id() == 0,
            r.table() == Map::<PageId, FrameId>::empty(),
            r.free().len() == pool_size,
            r.lru() == Seq::<FrameId>::empty(),
            r.disk() == disk_manager.contents(),
    {
        let mut pages: Vec<Page> = Vec::new();
        let mut free_list: Vec<FrameId> = Vec::new();
        let mut i: usize = 0;
        while i < pool_size
            invariant
                i <= pool_size,
                pages@.len() == i,
                free_list@.len() == i,
                forall|f: int| 0 <= f < i ==> {
                    &&& (#[trigger] pages@[f]).wf()
                    &&& pages@[f].id == INVALID_PAGE_ID
                    &&& pages@[f].pin_count == 0
                },
                forall|k: int| 0 <= k < i ==> (#[trigger] free_list@[k]) as int == k,
            decreases pool_size - i,
        {
            pages.push(Page::new());
            free_list.push(i);
            i = i + 1;
        }
        let r = BufferPoolManager {
            pool_size,
            pages,
            next_page_id: 0,
            page_table: HashMap::new(),
            disk_manager,
            free_list,
            lru_queue: Vec::new(),
        };
        proof {
            assert forall|f: int|
                0 <= f < r.pages@.len() && (#[trigger] r.pages@[f]).id
                    == INVALID_PAGE_ID implies r.free_list@.contains(f as FrameId) by {
                assert(r.free_list@[f] == f as FrameId);
            }
        }
        r
    }

    /// `post` is `pre` with fresh page `pid` installed in frame `f`: zeroed
    /// bytes, clean, pinned once; every other frame is untouched.
    pub open spec fn installs_fresh_page(pre: Self, post: Self, pid: PageId, f: int) -> bool {
        &&& 0 <= f < pre.frames().len()
        &&& post.frames().len() == pre.frames().len()
        &&& post.frames()[f].id == pid
        &&& post.frames()[f].data@ == zero_page()
        &&& post.frames()[f].pin_count == 1
        &&& !post.frames()[f].dirty
        &&& forall|g: int|
            0 <= g < pre.frames().len() && g != f ==> post.frames()[g] == pre.frames()[g]
        &&& post.spec_pool_size() == pre.spec_pool_size()
    }

    /// Allocates the next page id (a monotonic counter starting at 0), places
    /// the new page pinned and zeroed in a frame, and returns its id.
    ///
    /// The frame is popped from the free list; if that is empty, the least
    /// recently unpinned frame is evicted, its bytes first flushed to the
    /// disk manager when dirty. If no frame is free and none is evictable,
    /// fails with `BufferFull` and changes nothing.
    pub fn new_page(&mut self) -> (r: Result<PageId, StorageError>)
        requires
            old(self).wf(),
            old(self).next_id() < i32::MAX as int,
            (old(self).next_id() + 1) * (PAGE_SIZE as int) <= usize::MAX as int,
        ensures
            final(self).wf(),
            Self::preserves_pinned(*old(self), *final(self)),
            match r {
                Ok(pid) => {
                    &&& pid == old(self).next_id()
                    &&& final(self).next_id() == old(self).next_id() + 1
                    &&& (old(self).free().len() > 0 || old(self).lru().len() > 0)
                    &&& if old(self).free().len() > 0 {
                        let f = old(self).free().last() as int;
                        &&& Self::installs_fresh_page(*old(self), *final(self), pid, f)
                        &&& final(self).table() == old(self).table().insert(pid, f as FrameId)
                        &&& final(self).free() == old(self).free().drop_last()
                        &&& final(self).lru() == old(self).lru()
                        &&& final(self).disk() == old(self).disk()
                    } else {
                        let f = old(self).lru()[0] as int;
                        let victim = old(self).frames()[f].id;
                        &&& Self::installs_fresh_page(*old(self), *final(self), pid, f)
                        &&& final(self).table() == old(self).table().remove(victim).insert(
                            pid,
                            f as FrameId,
                        )
                        &&& final(self).free() == old(self).free()
                        &&& final(self).lru() == old(self).lru().remove(0)
                        &&& final(self).disk() == if old(self).frames()[f].dirty {
                            write_file(old(self).disk(), victim as int, old(self).frames()[f].data@)
                        } else {
                            old(self).disk()
                        }
                    }
                },
                Err(e) => {
                    &&& e == StorageError::BufferFull
                    &&& old(self).free().len() == 0
                    &&& old(self).lru().len() == 0
                    &&& Self::unchanged(*old(self), *final(self))
                },
            },
    {
        let pid = self.next_page_id;
        if let Some(f) = self.free_list.pop() {
            proof {
                let last = old(self).free().len() - 1;
                assert(old(self).free_list@[last] == f);
                assert(old(self).pages@[f as int].id == INVALID_PAGE_ID);
            }
            self.next_page_id = pid + 1;
            self.page_table.insert(pid, f);
            let page = &mut self.pages[f];
            page.id = pid;
            page.data = zeroed_page_data();
            page.dirty = false;
            page.pin_count = 1;
            proof {
                if old(self).table().contains_key(pid) {
                    assert(0 <= pid < old(self).next_id());
                }
                self.lemma_wf_after_install(*old(self), pid, f);
            }
            return Ok(pid);
        }
        if self.lru_queue.len() == 0 {
            proof {
                Self::lemma_wf_preserved(*old(self), *self);
            }
            return Err(StorageError::BufferFull);
        }
        let f = self.lru_queue.remove(0);
        proof {
            assert(old(self).lru_queue@[0] == f);
            assert((f as int) < old(self).pages@.len());
            assert(old(self).pages@[f as int].id != INVALID_PAGE_ID);
            assert(old(self).pages@[f as int].pin_count == 0);
        }
        let victim = self.pages[f].id;
        if self.pages[f].dirty {
            let _ = self.disk_manager.write_page(victim as u64, &self.pages[f].data);
        }
        self.page_table.remove(&victim);
        self.next_page_id = pid + 1;
        self.page_table.insert(pid, f);
        let page = &mut self.pages[f];
        page.id = pid;
        page.data = zeroed_page_data();
        page.dirty = false;
        page.pin_count = 1;
        proof {
            if old(self).table().contains_key(pid) {
                assert(0 <= pid < old(self).next_id());
            }
            self.lemma_wf_after_install(*old(self), pid, f as FrameId);
        }
        Ok(pid)
    }

    /// The pool invariant only reads the parts of the state named here, so it
    /// carries over between two states that agree on them.
    proof fn lemma_wf_preserved(pre: Self, post: Self)
        requires
            pre.wf(),
            post.spec_pool_size() == pre.spec_pool_size(),
            post.frames() == pre.frames(),
            post.table() == pre.table(),
            post.free() == pre.free(),
            post.lru() == pre.lru(),
            post.next_id() == pre.next_id(),
        ensures
            post.wf(),
    {
        assert forall|f: int| 0 <= f < post.frames().len() implies (
        #[trigger] post.frames()[f]).wf() by {
            assert(pre.frames()[f].wf());
        }
        assert forall|p: PageId| #[trigger] post.table().contains_key(p) implies {
            &&& 0 <= p < post.next_id()
            &&& (post.table()[p] as int) < post.frames().len()
            &&& post.frames()[post.table()[p] as int].id == p
        } by {
            assert(pre.table().contains_key(p));
            assert(pre.frames()[pre.table()[p] as int].id == p);
        }
        assert forall|f: int| 0 <= f < post.frames().len() implies {
            let id = (#[trigger] post.frames()[f]).id;
            ||| id == INVALID_PAGE_ID
            ||| (0 <= id < post.next_id() && post.table().contains_key(id) && post.table()[id]
                as int == f)
        } by {
            assert(pre.frames()[f] == post.frames()[f]);
            let id = pre.frames()[f].id;
            if id != INVALID_PAGE_ID {
                assert(pre.table().contains_key(id) && pre.table()[id] as int == f);
            }
        }
        assert forall|i: int| 0 <= i < post.free().len() implies {
            let f = (#[trigger] post.free()[i]) as int;
            &&& f < post.frames().len()
            &&& post.frames()[f].id == INVALID_PAGE_ID
            &&& post.frames()[f].pin_count == 0
        } by {
            assert(pre.free()[i] == post.free()[i]);
            assert(pre.frames()[pre.free()[i] as int].id == INVALID_PAGE_ID);
        }
        assert forall|i: int, j: int|
            0 <= i < j < post.free().len() implies post.free()[i] != post.free()[j] by {
            assert(pre.free()[i] != pre.free()[j]);
        }
        assert forall|f: int|
            0 <= f < post.frames().len() && (#[trigger] post.frames()[f]).id
                == INVALID_PAGE_ID implies post.free().contains(f as FrameId) by {
            assert(pre.frames()[f] == post.frames()[f]);
            assert(pre.free().contains(f as FrameId));
            let i = choose|i: int| 0 <= i < pre.free().len() && pre.free()[i] == f as FrameId;
            assert(post.free()[i] == f as FrameId);
        }
        assert forall|i: int| 0 <= i < post.lru().len() implies {
            let f = (#[trigger] post.lru()[i]) as int;
            &&& f < post.frames().len()
            &&& post.frames()[f].id != INVALID_PAGE_ID
            &&& post.frames()[f].pin_count == 0
        } by {
            assert(pre.lru()[i] == post.lru()[i]);
            assert(pre.frames()[pre.lru()[i] as int].id != INVALID_PAGE_ID);
        }
        assert forall|i: int, j: int|
            0 <= i < j < post.lru().len() implies post.lru()[i] != post.lru()[j] by {
            assert(pre.lru()[i] != pre.lru()[j]);
        }
        assert forall|f: int|
            0 <= f < post.frames().len() && (#[trigger] post.frames()[f]).id != INVALID_PAGE_ID
                && post.frames()[f].pin_count == 0 implies post.lru().contains(f as FrameId) by {
            assert(pre.frames()[f] == post.frames()[f]);
            assert(pre.lru().contains(f as FrameId));
            let i = choose|i: int| 0 <= i < pre.lru().len() && pre.lru()[i] == f as FrameId;
            assert(post.lru()[i] == f as FrameId);
        }
    }

    /// The well-formedness bookkeeping shared by the two allocation paths of
    /// `new_page`: `post` (here `self`) is `pre` after installing fresh page
    /// `pid` in frame `f`, where `f` came either from the free list (its last
    /// element, popped) or from the front of the eviction queue (its resident
    /// victim page dropped from the table).
    proof fn lemma_wf_after_install(self, pre: Self, pid: PageId, f: FrameId)
        requires
            pre.wf(),
            0 <= pid < self.next_id(),
            pre.next_id() <= self.next_id(),
            self.next_id() * (PAGE_SIZE as int) <= usize::MAX as int,
            !pre.table().contains_key(pid),
            self.spec_pool_size() == pre.spec_pool_size(),
            (f as int) < pre.frames().len(),
            self.frames().len() == pre.frames().len(),
            self.frames()[f as int].id == pid,
            self.frames()[f as int].data@.len() == PAGE_SIZE,
            self.frames()[f as int].pin_count == 1,
            !self.frames()[f as int].dirty,
            forall|g: int|
                0 <= g < pre.frames().len() && g != f ==> self.frames()[g] == pre.frames()[g],
            if pre.free().len() > 0 {
                &&& f == pre.free().last()
                &&& self.table() == pre.table().insert(pid, f)
                &&& self.free() == pre.free().drop_last()
                &&& self.lru() == pre.lru()
            } else {
                &&& pre.lru().len() > 0
                &&& f == pre.lru()[0]
                &&& self.table() == pre.table().remove(pre.frames()[f as int].id).insert(pid, f)
                &&& self.free() == pre.free()
                &&& self.lru() == pre.lru().remove(0)
            },
        ensures
            self.wf(),
            Self::preserves_pinned(pre, self),
    {
        let from_free = pre.free().len() > 0;
        let victim = pre.frames()[f as int].id;
        if from_free {
            assert(pre.frames()[f as int].id == INVALID_PAGE_ID);
            assert(pre.frames()[f as int].pin_count == 0);
        } else {
            assert(victim != INVALID_PAGE_ID);
            assert(pre.frames()[f as int].pin_count == 0);
            assert(pre.table().contains_key(victim) && pre.table()[victim] == f);
        }
        // table_wf
        assert forall|p: PageId| #[trigger] self.table().contains_key(p) implies {
            &&& 0 <= p < self.next_id()
            &&& (self.table()[p] as int) < self.frames().len()
            &&& self.frames()[self.table()[p] as int].id == p
        } by {
            if p == pid {
            } else {
                assert(pre.table().contains_key(p));
                let pf = pre.table()[p] as int;
                assert(pre.frames()[pf].id == p);
                assert(pf != f);
            }
        }
        // frame_ids_wf
        assert forall|g: int| 0 <= g < self.frames().len() implies {
            let id = (#[trigger] self.frames()[g]).id;
            ||| id == INVALID_PAGE_ID
            ||| (0 <= id < self.next_id() && self.table().contains_key(id) && self.table()[id]
                as int == g)
        } by {
            if g != f {
                let id = pre.frames()[g].id;
                if id != INVALID_PAGE_ID {
                    assert(id != pid);
                    if !from_free {
                        assert(id != victim) by {
                            if id == victim {
                                assert(pre.table()[id] as int == g);
                            }
                        }
                    }
                }
            }
        }
        // free_wf
        assert forall|i: int| 0 <= i < self.free().len() implies {
            let g = (#[trigger] self.free()[i]) as int;
            &&& g < self.frames().len()
            &&& self.frames()[g].id == INVALID_PAGE_ID
            &&& self.frames()[g].pin_count == 0
        } by {
            assert(pre.free()[i] == self.free()[i]);
            if from_free {
                assert(pre.free()[i] != pre.free()[pre.free().len() - 1]);
            } else {
                assert(pre.frames()[pre.free()[i] as int].id == INVALID_PAGE_ID);
                assert((self.free()[i] as int) != f as int);
            }
        }
        assert forall|g: int|
            0 <= g < self.frames().len() && (#[trigger] self.frames()[g]).id
                == INVALID_PAGE_ID implies self.free().contains(g as FrameId) by {
            assert(g != f);
            assert(pre.frames()[g].id == INVALID_PAGE_ID);
            assert(pre.free().contains(g as FrameId));
            let i = choose|i: int| 0 <= i < pre.free().len() && pre.free()[i] == g as FrameId;
            if from_free {
                assert(pre.free()[pre.free().len() - 1] == f);
                assert(i != pre.free().len() - 1);
                assert(self.free()[i] == g as FrameId);
            } else {
                assert(self.free()[i] == g as FrameId);
            }
        }
        // lru_wf
        assert forall|i: int| 0 <= i < self.lru().len() implies {
            let g = (#[trigger] self.lru()[i]) as int;
            &&& g < self.frames().len()
            &&& self.frames()[g].id != INVALID_PAGE_ID
            &&& self.frames()[g].pin_count == 0
        } by {
            if from_free {
                assert(pre.lru()[i] == self.lru()[i]);
                let g = self.lru()[i] as int;
                assert(pre.frames()[g].id != INVALID_PAGE_ID);
                assert(g != f) by {
                    if g == f {
                        assert(pre.frames()[f as int].id == INVALID_PAGE_ID);
                    }
                }
            } else {
                assert(pre.lru()[i + 1] == self.lru()[i]);
                let g = self.lru()[i] as int;
                assert(pre.frames()[g].id != INVALID_PAGE_ID);
                assert(g != f) by {
                    if g == f {
                        assert(pre.lru()[i + 1] == pre.lru()[0]);
                    }
                }
            }
        }
        assert forall|i: int, j: int|
            0 <= i < j < self.lru().len() implies self.lru()[i] != self.lru()[j] by {
            if from_free {
            } else {
                assert(self.lru()[i] == pre.lru()[i + 1]);
                assert(self.lru()[j] == pre.lru()[j + 1]);
            }
        }
        assert forall|g: int|
            0 <= g < self.frames().len() && (#[trigger] self.frames()[g]).id != INVALID_PAGE_ID
                && self.frames()[g].pin_count == 0 implies self.lru().contains(g as FrameId) by {
            assert(g != f);
            assert(pre.frames()[g].id != INVALID_PAGE_ID && pre.frames()[g].pin_count == 0);
            assert(pre.lru().contains(g as FrameId));
            let i = choose|i: int| 0 <= i < pre.lru().len() && pre.lru()[i] == g as FrameId;
            if from_free {
                assert(self.lru()[i] == g as FrameId);
            } else {
                assert(i != 0) by {
                    if i == 0 {
                        assert(pre.lru()[0] == f);
                    }
                }
                assert(self.lru()[i - 1] == pre.lru()[i]);
            }
        }
        // preserves_pinned
        assert forall|q: PageId|
            pre.resident(q) && #[trigger] pre.pin_of(q) > 0 implies {
            &&& self.resident(q)
            &&& self.frame_of(q) == pre.frame_of(q)
            &&& self.data_of(q) == pre.data_of(q)
            &&& self.pin_of(q) >= pre.pin_of(q)
        } by {
            let qf = pre.table()[q] as int;
            assert(pre.frames()[qf].id == q);
            assert(q != pid);
            assert(qf != f);
            if !from_free {
                assert(q != victim) by {
                    if q == victim {
                        assert(pre.table()[q] == f);
                    }
                }
            }
        }
    }

    /// `post` is `pre` with exactly one occurrence of `f` removed.
    pub open spec fn removed_once(pre: Seq<FrameId>, post: Seq<FrameId>, f: FrameId) -> bool {
        exists|i: int| 0 <= i < pre.len() && pre[i] == f && post == #[trigger] pre.remove(i)
    }

    /// Index of `f` in `q`, which must contain it.
    fn find_frame(q: &Vec<FrameId>, f: FrameId) -> (r: usize)
        requires
            q@.contains(f),
        ensures
            r < q@.len(),
            q@[r as int] == f,
    {
        let mut i: usize = 0;
        while i < q.len()
            invariant
                i <= q@.len(),
                q@.contains(f),
                forall|k: int| 0 <= k < i ==> q@[k] != f,
            decreases q@.len() - i,
        {
            if q[i] == f {
                return i;
            }
            i = i + 1;
        }
        proof {
            let w = choose|w: int| 0 <= w < q@.len() && q@[w] == f;
            assert(false);
        }
        0
    }

    /// The pool invariant survives a change confined to one resident frame's
    /// pin count and dirty flag, provided the eviction queue is adjusted to
    /// keep holding exactly the unpinned resident frames.
    proof fn lemma_wf_after_pin_dirty_change(self, pre: Self, f: FrameId)
        requires
            pre.wf(),
            (f as int) < pre.frames().len(),
            pre.frames()[f as int].id != INVALID_PAGE_ID,
            self.spec_pool_size() == pre.spec_pool_size(),
            self.next_id() == pre.next_id(),
            self.table() == pre.table(),
            self.free() == pre.free(),
            self.frames().len() == pre.frames().len(),
            self.frames()[f as int].id == pre.frames()[f as int].id,
            self.frames()[f as int].data@.len() == PAGE_SIZE,
            self.frames()[f as int].pin_count >= 0,
            forall|g: int|
                0 <= g < pre.frames().len() && g != f ==> self.frames()[g] == pre.frames()[g],
            ({
                let pre_pin = pre.frames()[f as int].pin_count;
                let post_pin = self.frames()[f as int].pin_count;
                if pre_pin > 0 && post_pin == 0 {
                    self.lru() == pre.lru().push(f)
                } else if pre_pin == 0 && post_pin > 0 {
                    Self::removed_once(pre.lru(), self.lru(), f)
                } else {
                    self.lru() == pre.lru()
                }
            }),
        ensures
            self.wf(),
    {
        let pre_pin = pre.frames()[f as int].pin_count;
        let post_pin = self.frames()[f as int].pin_count;
        assert forall|g: int| 0 <= g < self.frames().len() implies (
        #[trigger] self.frames()[g]).wf() by {
            assert(pre.frames()[g].wf());
        }
        assert forall|p: PageId| #[trigger] self.table().contains_key(p) implies {
            &&& 0 <= p < self.next_id()
            &&& (self.table()[p] as int) < self.frames().len()
            &&& self.frames()[self.table()[p] as int].id == p
        } by {
            assert(pre.table().contains_key(p));
            assert(pre.frames()[pre.table()[p] as int].id == p);
        }
        assert forall|g: int| 0 <= g < self.frames().len() implies {
            let id = (#[trigger] self.frames()[g]).id;
            ||| id == INVALID_PAGE_ID
            ||| (0 <= id < self.next_id() && self.table().contains_key(id) && self.table()[id]
                as int == g)
        } by {
            let id = pre.frames()[g].id;
            assert(self.frames()[g].id == id);
            if id != INVALID_PAGE_ID {
                assert(pre.table().contains_key(id) && pre.table()[id] as int == g);
            }
        }
        assert forall|i: int| 0 <= i < self.free().len() implies {
            let g = (#[trigger] self.free()[i]) as int;
            &&& g < self.frames().len()
            &&& self.frames()[g].id == INVALID_PAGE_ID
            &&& self.frames()[g].pin_count == 0
        } by {
            assert(pre.free()[i] == self.free()[i]);
            let g = pre.free()[i] as int;
            assert(pre.frames()[g].id == INVALID_PAGE_ID);
            assert(g != f);
        }
        assert forall|i: int, j: int|
            0 <= i < j < self.free().len() implies self.free()[i] != self.free()[j] by {
            assert(pre.free()[i] != pre.free()[j]);
        }
        assert forall|g: int|
            0 <= g < self.frames().len() && (#[trigger] self.frames()[g]).id
                == INVALID_PAGE_ID implies self.free().contains(g as FrameId) by {
            assert(g != f);
            assert(pre.frames()[g] == self.frames()[g]);
            assert(pre.free().contains(g as FrameId));
            let i = choose|i: int| 0 <= i < pre.free().len() && pre.free()[i] == g as FrameId;
            assert(self.free()[i] == g as FrameId);
        }
        // the eviction queue, by case on how the pin count moved
        if pre_pin > 0 && post_pin == 0 {
            assert(!pre.lru().contains(f)) by {
                if pre.lru().contains(f) {
                    let i = choose|i: int| 0 <= i < pre.lru().len() && pre.lru()[i] == f;
                    assert(pre.frames()[pre.lru()[i] as int].pin_count == 0);
                }
            }
            assert forall|i: int| 0 <= i < self.lru().len() implies {
                let g = (#[trigger] self.lru()[i]) as int;
                &&& g < self.frames().len()
                &&& self.frames()[g].id != INVALID_PAGE_ID
                &&& self.frames()[g].pin_count == 0
            } by {
                if i < pre.lru().len() {
                    assert(self.lru()[i] == pre.lru()[i]);
                    let g = pre.lru()[i] as int;
                    assert(pre.frames()[g].id != INVALID_PAGE_ID);
                    assert(g != f);
                } else {
                    assert(self.lru()[i] == f);
                }
            }
            assert forall|i: int, j: int|
                0 <= i < j < self.lru().len() implies self.lru()[i] != self.lru()[j] by {
                if j < pre.lru().len() {
                    assert(pre.lru()[i] != pre.lru()[j]);
                } else {
                    assert(self.lru()[j] == f);
                    assert(self.lru()[i] == pre.lru()[i]);
                }
            }
            assert forall|g: int|
                0 <= g < self.frames().len() && (#[trigger] self.frames()[g]).id
                    != INVALID_PAGE_ID && self.frames()[g].pin_count == 0 implies self.lru(
            ).contains(g as FrameId) by {
                if g == f {
                    assert(self.lru()[self.lru().len() - 1] == f);
                } else {
                    assert(pre.frames()[g] == self.frames()[g]);
                    assert(pre.lru().contains(g as FrameId));
                    let i = choose|i: int|
                        0 <= i < pre.lru().len() && pre.lru()[i] == g as FrameId;
                    assert(self.lru()[i] == g as FrameId);
                }
            }
        } else if pre_pin == 0 && post_pin > 0 {
            let at = choose|i: int|
                0 <= i < pre.lru().len() && pre.lru()[i] == f && self.lru() == #[trigger] pre.lru(
                ).remove(i);
            assert forall|i: int| 0 <= i < self.lru().len() implies {
                let g = (#[trigger] self.lru()[i]) as int;
                &&& g < self.frames().len()
                &&& self.frames()[g].id != INVALID_PAGE_ID
                &&& self.frames()[g].pin_count == 0
            } by {
                let pi = if i < at {
                    i
                } else {
                    i + 1
                };
                assert(self.lru()[i] == pre.lru()[pi]);
                let g = pre.lru()[pi] as int;
                assert(pre.frames()[g].id != INVALID_PAGE_ID);
                assert(g != f) by {
                    if g == f {
                        assert(pre.lru()[pi] == pre.lru()[at]);
                    }
                }
            }
            assert forall|i: int, j: int|
                0 <= i < j < self.lru().len() implies self.lru()[i] != self.lru()[j] by {
                let pi = if i < at {
                    i
                } else {
                    i + 1
                };
                let pj = if j < at {
                    j
                } else {
                    j + 1
                };
                assert(self.lru()[i] == pre.lru()[pi]);
                assert(self.lru()[j] == pre.lru()[pj]);
                assert(pre.lru()[pi] != pre.lru()[pj]);
            }
            assert forall|g: int|
                0 <= g < self.frames().len() && (#[trigger] self.frames()[g]).id
                    != INVALID_PAGE_ID && self.frames()[g].pin_count == 0 implies self.lru(
            ).contains(g as FrameId) by {
                assert(g != f);
                assert(pre.frames()[g] == self.frames()[g]);
                assert(pre.lru().contains(g as FrameId));
                let i = choose|i: int| 0 <= i < pre.lru().len() && pre.lru()[i] == g as FrameId;
                assert(i != at);
                if i < at {
                    assert(self.lru()[i] == pre.lru()[i]);
                } else {
                    assert(self.lru()[i - 1] == pre.lru()[i]);
                }
            }
        } else {
            assert(!pre.lru().contains(f) || pre_pin == 0) by {
                if pre.lru().contains(f) {
                    let i = choose|i: int| 0 <= i < pre.lru().len() && pre.lru()[i] == f;
                    assert(pre.frames()[pre.lru()[i] as int].pin_count == 0);
                }
            }
            assert forall|i: int| 0 <= i < self.lru().len() implies {
                let g = (#[trigger] self.lru()[i]) as int;
                &&& g < self.frames().len()
                &&& self.frames()[g].id != INVALID_PAGE_ID
                &&& self.frames()[g].pin_count == 0
            } by {
                assert(self.lru()[i] == pre.lru()[i]);
                let g = pre.lru()[i] as int;
                assert(pre.frames()[g].id != INVALID_PAGE_ID);
                assert(pre.frames()[g].pin_count == 0);
                if g == f {
                    assert(pre_pin == 0);
                    assert(post_pin == 0);
                }
            }
            assert forall|i: int, j: int|
                0 <= i < j < self.lru().len() implies self.lru()[i] != self.lru()[j] by {
                assert(pre.lru()[i] != pre.lru()[j]);
            }
            assert forall|g: int|
                0 <= g < self.frames().len() && (#[trigger] self.frames()[g]).id
                    != INVALID_PAGE_ID && self.frames()[g].pin_count == 0 implies self.lru(
            ).contains(g as FrameId) by {
                if g == f {
                    assert(pre_pin == 0 && post_pin == 0);
                    assert(pre.frames()[g].id != INVALID_PAGE_ID);
                    assert(pre.lru().contains(g as FrameId));
                    let i = choose|i: int|
                        0 <= i < pre.lru().len() && pre.lru()[i] == g as FrameId;
                    assert(self.lru()[i] == g as FrameId);
                } else {
                    assert(pre.frames()[g] == self.frames()[g]);
                    assert(pre.lru().contains(g as FrameId));
                    let i = choose|i: int|
                        0 <= i < pre.lru().len() && pre.lru()[i] == g as FrameId;
                    assert(self.lru()[i] == g as FrameId);
                }
            }
        }
    }

    /// Pins page `page_id` and makes it resident. A cache hit only increments
    /// the pin count (and withdraws the frame from eviction candidacy if its
    /// pin count was zero); no I/O happens. Otherwise a frame is obtained as
    /// in `new_page` — free list first, then eviction with write-back of a
    /// dirty victim — and the page's bytes are loaded from the disk manager,
    /// so a page never written reads as zeros. Fails with `BufferFull`, and
    /// changes nothing, exactly when the page is absent, no frame is free and
    /// none is evictable.
    pub fn fetch_page(&mut self, page_id: PageId) -> (r: Result<(), StorageError>)
        requires
            old(self).wf(),
            0 <= page_id < old(self).next_id(),
            old(self).resident(page_id) ==> old(self).pin_of(page_id) < i32::MAX as int,
        ensures
            final(self).wf(),
            Self::preserves_pinned(*old(self), *final(self)),
            final(self).next_id() == old(self).next_id(),
            match r {
                Ok(()) => {
                    &&& final(self).resident(page_id)
                    &&& !final(self).dirty_of(page_id)
                        || (old(self).resident(page_id) && old(self).dirty_of(page_id))
                    &&& if old(self).resident(page_id) {
                        &&& final(self).pin_of(page_id) == old(self).pin_of(page_id) + 1
                        &&& final(self).table() == old(self).table()
                        &&& final(self).frame_of(page_id) == old(self).frame_of(page_id)
                        &&& final(self).data_of(page_id) == old(self).data_of(page_id)
                        &&& forall|g: int|
                            0 <= g < old(self).frames().len() && g != old(self).frame_of(page_id)
                                ==> final(self).frames()[g] == old(self).frames()[g]
                        &&& final(self).free() == old(self).free()
                        &&& if old(self).pin_of(page_id) == 0 {
                            Self::removed_once(
                                old(self).lru(),
                                final(self).lru(),
                                old(self).frame_of(page_id) as FrameId,
                            )
                        } else {
                            final(self).lru() == old(self).lru()
                        }
                        &&& final(self).disk() == old(self).disk()
                    } else {
                        &&& final(self).pin_of(page_id) == 1
                        &&& final(self).data_of(page_id) == page_at(old(self).disk(), page_id as int)
                        &&& (old(self).free().len() > 0 || old(self).lru().len() > 0)
                        &&& if old(self).free().len() > 0 {
                            let f = old(self).free().last() as int;
                            &&& final(self).frame_of(page_id) == f
                            &&& final(self).table() == old(self).table().insert(
                                page_id,
                                f as FrameId,
                            )
                            &&& final(self).free() == old(self).free().drop_last()
                            &&& final(self).lru() == old(self).lru()
                            &&& final(self).disk() == old(self).disk()
                            &&& forall|g: int|
                                0 <= g < old(self).frames().len() && g != f
                                    ==> final(self).frames()[g] == old(self).frames()[g]
                        } else {
                            let f = old(self).lru()[0] as int;
                            let victim = old(self).frames()[f].id;
                            &&& final(self).frame_of(page_id) == f
                            &&& final(self).table() == old(self).table().remove(victim).insert(
                                page_id,
                                f as FrameId,
                            )
                            &&& final(self).free() == old(self).free()
                            &&& final(self).lru() == old(self).lru().remove(0)
                            &&& final(self).disk() == if old(self).frames()[f].dirty {
                                write_file(
                                    old(self).disk(),
                                    victim as int,
                                    old(self).frames()[f].data@,
                                )
                            } else {
                                old(self).disk()
                            }
                            &&& forall|g: int|
                                0 <= g < old(self).frames().len() && g != f
                                    ==> final(self).frames()[g] == old(self).frames()[g]
                        }
                    }
                },
                Err(e) => {
                    &&& e == StorageError::BufferFull
                    &&& !old(self).resident(page_id)
                    &&& old(self).free().len() == 0
                    &&& old(self).lru().len() == 0
                    &&& Self::unchanged(*old(self), *final(self))
                },
            },
    {
        let hit: Option<FrameId> = match self.page_table.get(&page_id) {
            Some(f) => Some(*f),
            None => None,
        };
        if let Some(f) = hit {
            if self.pages[f].pin_count == 0 {
                let at = Self::find_frame(&self.lru_queue, f);
                self.lru_queue.remove(at);
                proof {
                    assert(Self::removed_once(old(self).lru(), self.lru(), f));
                }
            }
            let page = &mut self.pages[f];
            page.pin_count = page.pin_count + 1;
            proof {
                self.lemma_wf_after_pin_dirty_change(*old(self), f);
            }
            return Ok(());
        }
        let f: FrameId;
        if let Some(ff) = self.free_list.pop() {
            f = ff;
            proof {
                let last = old(self).free().len() - 1;
                assert(old(self).free_list@[last] == f);
                assert(old(self).pages@[f as int].id == INVALID_PAGE_ID);
            }
        } else {
            if self.lru_queue.len() == 0 {
                proof {
                    Self::lemma_wf_preserved(*old(self), *self);
                }
                return Err(StorageError::BufferFull);
            }
            f = self.lru_queue.remove(0);
            proof {
                assert(old(self).lru_queue@[0] == f);
                assert((f as int) < old(self).pages@.len());
                assert(old(self).pages@[f as int].id != INVALID_PAGE_ID);
                assert(old(self).pages@[f as int].pin_count == 0);
            }
            let victim = self.pages[f].id;
            if self.pages[f].dirty {
                let _ = self.disk_manager.write_page(victim as u64, &self.pages[f].data);
                proof {
                    crate::storage::disk_manager::lemma_write_preserves_other_pages(
                        old(self).disk(),
                        victim as int,
                        old(self).frames()[f as int].data@,
                        page_id as int,
                    );
                }
            }
            self.page_table.remove(&victim);
        }
        let mut buf = zeroed_page_data();
        let _ = self.disk_manager.read_page(page_id as u64, &mut buf);
        self.page_table.insert(page_id, f);
        let page = &mut self.pages[f];
        page.id = page_id;
        page.data = buf;
        page.dirty = false;
        page.pin_count = 1;
        proof {
            self.lemma_wf_after_install(*old(self), page_id, f);
        }
        Ok(())
    }

    /// Decrements the pin count of page `page_id`; when it reaches zero the
    /// frame becomes eviction-eligible and joins the back of the eviction
    /// queue. `is_dirty` true marks the frame dirty; false never clears the
    /// flag — dirty is sticky until a flush. Fails with `InvalidUnpin`, and
    /// changes nothing, exactly when the page is not resident or its pin
    /// count is already zero.
    pub fn unpin_page(&mut self, page_id: PageId, is_dirty: bool) -> (r: Result<
        (),
        StorageError,
    >)
        requires
            old(self).wf(),
        ensures
            final(self).wf(),
            final(self).next_id() == old(self).next_id(),
            match r {
                Ok(()) => {
                    &&& old(self).resident(page_id)
                    &&& old(self).pin_of(page_id) > 0
                    &&& final(self).table() == old(self).table()
                    &&& final(self).pin_of(page_id) == old(self).pin_of(page_id) - 1
                    &&& final(self).dirty_of(page_id) == (old(self).dirty_of(page_id) || is_dirty)
                    &&& final(self).data_of(page_id) == old(self).data_of(page_id)
                    &&& final(self).frame_of(page_id) == old(self).frame_of(page_id)
                    &&& forall|g: int|
                        0 <= g < old(self).frames().len() && g != old(self).frame_of(page_id)
                            ==> final(self).frames()[g] == old(self).frames()[g]
                    &&& final(self).free() == old(self).free()
                    &&& final(self).lru() == if old(self).pin_of(page_id) == 1 {
                        old(self).lru().push(old(self).frame_of(page_id) as FrameId)
                    } else {
                        old(self).lru()
                    }
                    &&& final(self).disk() == old(self).disk()
                },
                Err(e) => {
                    &&& e == StorageError::InvalidUnpin
                    &&& !(old(self).resident(page_id) && old(self).pin_of(page_id) > 0)
                    &&& Self::unchanged(*old(self), *final(self))
                },
            },
    {
        let hit: Option<FrameId> = match self.page_table.get(&page_id) {
            Some(f) => Some(*f),
            None => None,
        };
        match hit {
            None => Err(StorageError::InvalidUnpin),
            Some(f) => {
                proof {
                    assert(old(self).table().contains_key(page_id));
                    assert(old(self).table()[page_id] == f);
                }
                if self.pages[f].pin_count == 0 {
                    return Err(StorageError::InvalidUnpin);
                }
                let page = &mut self.pages[f];
                page.pin_count = page.pin_count - 1;
                if is_dirty {
                    page.dirty = true;
                }
                let now_zero = page.pin_count == 0;
                if now_zero {
                    self.lru_queue.push(f);
                }
                proof {
                    self.lemma_wf_after_pin_dirty_change(*old(self), f);
                }
                Ok(())
            },
        }
    }

    /// The pool invariant never reads a frame's dirty flag or byte contents,
    /// so it survives any change confined to those.
    proof fn lemma_wf_frames_equiv(pre: Self, post: Self)
        requires
            pre.wf(),
            post.spec_pool_size() == pre.spec_pool_size(),
            post.table() == pre.table(),
            post.free() == pre.free(),
            post.lru() == pre.lru(),
            post.next_id() == pre.next_id(),
            post.frames().len() == pre.frames().len(),
            forall|g: int| 0 <= g < pre.frames().len() ==> {
                &&& (#[trigger] post.frames()[g]).id == pre.frames()[g].id
                &&& post.frames()[g].pin_count == pre.frames()[g].pin_count
                &&& post.frames()[g].data@.len() == PAGE_SIZE
            },
        ensures
            post.wf(),
    {
        assert forall|g: int| 0 <= g < post.frames().len() implies (
        #[trigger] post.frames()[g]).wf() by {
            assert(pre.frames()[g].wf());
        }
        assert forall|p: PageId| #[trigger] post.table().contains_key(p) implies {
            &&& 0 <= p < post.next_id()
            &&& (post.table()[p] as int) < post.frames().len()
            &&& post.frames()[post.table()[p] as int].id == p
        } by {
            assert(pre.table().contains_key(p));
            assert(pre.frames()[pre.table()[p] as int].id == p);
        }
        assert forall|g: int| 0 <= g < post.frames().len() implies {
            let id = (#[trigger] post.frames()[g]).id;
            ||| id == INVALID_PAGE_ID
            ||| (0 <= id < post.next_id() && post.table().contains_key(id) && post.table()[id]
                as int == g)
        } by {
            let id = pre.frames()[g].id;
            if id != INVALID_PAGE_ID {
                assert(pre.table().contains_key(id) && pre.table()[id] as int == g);
            }
        }
        assert forall|i: int| 0 <= i < post.free().len() implies {
            let g = (#[trigger] post.free()[i]) as int;
            &&& g < post.frames().len()
            &&& post.frames()[g].id == INVALID_PAGE_ID
            &&& post.frames()[g].pin_count == 0
        } by {
            assert(pre.free()[i] == post.free()[i]);
            assert(pre.frames()[pre.free()[i] as int].id == INVALID_PAGE_ID);
        }
        assert forall|i: int, j: int|
            0 <= i < j < post.free().len() implies post.free()[i] != post.free()[j] by {
            assert(pre.free()[i] != pre.free()[j]);
        }
        assert forall|g: int|
            0 <= g < post.frames().len() && (#[trigger] post.frames()[g]).id
                == INVALID_PAGE_ID implies post.free().contains(g as FrameId) by {
            assert(pre.frames()[g].id == INVALID_PAGE_ID);
            assert(pre.free().contains(g as FrameId));
            let i = choose|i: int| 0 <= i < pre.free().len() && pre.free()[i] == g as FrameId;
            assert(post.free()[i] == g as FrameId);
        }
        assert forall|i: int| 0 <= i < post.lru().len() implies {
            let g = (#[trigger] post.lru()[i]) as int;
            &&& g < post.frames().len()
            &&& post.frames()[g].id != INVALID_PAGE_ID
            &&& post.frames()[g].pin_count == 0
        } by {
            assert(pre.lru()[i] == post.lru()[i]);
            assert(pre.frames()[pre.lru()[i] as int].id != INVALID_PAGE_ID);
        }
        assert forall|i: int, j: int|
            0 <= i < j < post.lru().len() implies post.lru()[i] != post.lru()[j] by {
            assert(pre.lru()[i] != pre.lru()[j]);
        }
        assert forall|g: int|
            0 <= g < post.frames().len() && (#[trigger] post.frames()[g]).id != INVALID_PAGE_ID
                && post.frames()[g].pin_count == 0 implies post.lru().contains(g as FrameId) by {
            assert(pre.frames()[g].id != INVALID_PAGE_ID && pre.frames()[g].pin_count == 0);
            assert(pre.lru().contains(g as FrameId));
            let i = choose|i: int| 0 <= i < pre.lru().len() && pre.lru()[i] == g as FrameId;
            assert(post.lru()[i] == g as FrameId);
        }
    }

    /// Writes the current bytes of resident page `page_id` to the disk
    /// manager unconditionally and clears the frame's dirty flag; the pin
    /// count does not change. Fails with `PageNotFound`, and changes nothing,
    /// exactly when the page is not resident.
    pub fn flush_page(&mut self, page_id: PageId) -> (r: Result<(), StorageError>)
        requires
            old(self).wf(),
        ensures
            final(self).wf(),
            final(self).next_id() == old(self).next_id(),
            Self::preserves_pinned(*old(self), *final(self)),
            match r {
                Ok(()) => {
                    &&& old(self).resident(page_id)
                    &&& final(self).table() == old(self).table()
                    &&& final(self).frame_of(page_id) == old(self).frame_of(page_id)
                    &&& final(self).data_of(page_id) == old(self).data_of(page_id)
                    &&& final(self).pin_of(page_id) == old(self).pin_of(page_id)
                    &&& !final(self).dirty_of(page_id)
                    &&& forall|g: int|
                        0 <= g < old(self).frames().len() && g != old(self).frame_of(page_id)
                            ==> final(self).frames()[g] == old(self).frames()[g]
                    &&& final(self).free() == old(self).free()
                    &&& final(self).lru() == old(self).lru()
                    &&& final(self).disk() == write_file(
                        old(self).disk(),
                        page_id as int,
                        old(self).data_of(page_id),
                    )
                },
                Err(e) => {
                    &&& e == StorageError::PageNotFound
                    &&& !old(self).resident(page_id)
                    &&& Self::unchanged(*old(self), *final(self))
                },
            },
    {
        let hit: Option<FrameId> = match self.page_table.get(&page_id) {
            Some(f) => Some(*f),
            None => None,
        };
        match hit {
            None => Err(StorageError::PageNotFound),
            Some(f) => {
                proof {
                    assert(old(self).table().contains_key(page_id));
                    assert(old(self).table()[page_id] == f);
                    assert(old(self).frames()[f as int].wf());
                }
                let _ = self.disk_manager.write_page(page_id as u64, &self.pages[f].data);
                let page = &mut self.pages[f];
                page.dirty = false;
                proof {
                    self.lemma_wf_after_pin_dirty_change(*old(self), f);
                }
                Ok(())
            },
        }
    }

    /// The backing store after flushing frames `0 .. n` of `frames` in
    /// ascending frame order: each resident frame's bytes are written at its
    /// page's range, empty frames are skipped.
    pub open spec fn flush_upto(frames: Seq<Page>, disk: Seq<u8>, n: int) -> Seq<u8>
        decreases n,
    {
        if n <= 0 {
            disk
        } else {
            let d = Self::flush_upto(frames, disk, n - 1);
            let p = frames[n - 1];
            if p.id != INVALID_PAGE_ID {
                write_file(d, p.id as int, p.data@)
            } else {
                d
            }
        }
    }

    /// Writes every resident frame's current bytes to the disk manager, in
    /// ascending frame order, and clears all their dirty flags. Pin counts,
    /// the page table, the free list and the eviction order do not change.
    pub fn flush_all_pages(&mut self)
        requires
            old(self).wf(),
        ensures
            final(self).wf(),
            final(self).next_id() == old(self).next_id(),
            final(self).table() == old(self).table(),
            final(self).free() == old(self).free(),
            final(self).lru() == old(self).lru(),
            final(self).frames().len() == old(self).frames().len(),
            forall|g: int| 0 <= g < old(self).frames().len() ==> {
                &&& (#[trigger] final(self).frames()[g]).id == old(self).frames()[g].id
                &&& final(self).frames()[g].data@ == old(self).frames()[g].data@
                &&& final(self).frames()[g].pin_count == old(self).frames()[g].pin_count
                &&& final(self).frames()[g].dirty == (old(self).frames()[g].dirty && old(
                    self,
                ).frames()[g].id == INVALID_PAGE_ID)
            },
            final(self).disk() == Self::flush_upto(
                old(self).frames(),
                old(self).disk(),
                old(self).spec_pool_size(),
            ),
    {
        let mut i: usize = 0;
        while i < self.pool_size
            invariant
                old(self).wf(),
                i <= self.pool_size,
                self.pool_size == old(self).pool_size,
                self.page_table@ == old(self).page_table@,
                self.free_list@ == old(self).free_list@,
                self.lru_queue@ == old(self).lru_queue@,
                self.next_page_id == old(self).next_page_id,
                self.pages@.len() == old(self).pages@.len(),
                forall|g: int| i <= g < old(self).pages@.len() ==> #[trigger] self.pages@[g] == old(
                    self,
                ).pages@[g],
                forall|g: int| 0 <= g < i ==> {
                    &&& (#[trigger] self.pages@[g]).id == old(self).pages@[g].id
                    &&& self.pages@[g].data@ == old(self).pages@[g].data@
                    &&& self.pages@[g].pin_count == old(self).pages@[g].pin_count
                    &&& self.pages@[g].dirty == (old(self).pages@[g].dirty && old(
                        self,
                    ).pages@[g].id == INVALID_PAGE_ID)
                },
                self.disk_manager.contents() == Self::flush_upto(
                    old(self).frames(),
                    old(self).disk(),
                    i as int,
                ),
            decreases self.pool_size - i,
        {
            proof {
                assert(old(self).frames()[i as int].wf());
                if old(self).pages@[i as int].id != INVALID_PAGE_ID {
                    assert(old(self).table().contains_key(old(self).pages@[i as int].id));
                }
            }
            if self.pages[i].id != INVALID_PAGE_ID {
                let pid = self.pages[i].id;
                let _ = self.disk_manager.write_page(pid as u64, &self.pages[i].data);
                let page = &mut self.pages[i];
                page.dirty = false;
            }
            i = i + 1;
        }
        proof {
            Self::lemma_wf_frames_equiv(*old(self), *self);
        }
    }

    /// Releases resident, unpinned page `page_id`: drops its page table
    /// entry, withdraws its frame from eviction candidacy and returns it to
    /// the free list, without flushing (the frame's bytes are left stale
    /// until reuse). Fails with `PagePinned`, and changes nothing, when the
    /// page's pin count is positive. Deleting a page that is not resident
    /// succeeds and changes nothing.
    pub fn delete_page(&mut self, page_id: PageId) -> (r: Result<(), StorageError>)
        requires
            old(self).wf(),
        ensures
            final(self).wf(),
            final(self).next_id() == old(self).next_id(),
            final(self).disk() == old(self).disk(),
            match r {
                Ok(()) => {
                    &&& !(old(self).resident(page_id) && old(self).pin_of(page_id) > 0)
                    &&& if old(self).resident(page_id) {
                        let f = old(self).frame_of(page_id);
                        &&& final(self).table() == old(self).table().remove(page_id)
                        &&& final(self).free() == old(self).free().push(f as FrameId)
                        &&& Self::removed_once(old(self).lru(), final(self).lru(), f as FrameId)
                        &&& final(self).frames().len() == old(self).frames().len()
                        &&& final(self).frames()[f].id == INVALID_PAGE_ID
                        &&& final(self).frames()[f].pin_count == 0
                        &&& forall|g: int|
                            0 <= g < old(self).frames().len() && g != f
                                ==> final(self).frames()[g] == old(self).frames()[g]
                    } else {
                        Self::unchanged(*old(self), *final(self))
                    }
                },
                Err(e) => {
                    &&& e == StorageError::PagePinned
                    &&& old(self).resident(page_id)
                    &&& old(self).pin_of(page_id) > 0
                    &&& Self::unchanged(*old(self), *final(self))
                },
            },
    {
        let hit: Option<FrameId> = match self.page_table.get(&page_id) {
            Some(f) => Some(*f),
            None => None,
        };
        match hit {
            None => Ok(()),
            Some(f) => {
                proof {
                    assert(old(self).table().contains_key(page_id));
                    assert(old(self).table()[page_id] == f);
                }
                if self.pages[f].pin_count > 0 {
                    return Err(StorageError::PagePinned);
                }
                let at = Self::find_frame(&self.lru_queue, f);
                self.lru_queue.remove(at);
                proof {
                    assert(Self::removed_once(old(self).lru(), self.lru(), f));
                }
                self.page_table.remove(&page_id);
                let page = &mut self.pages[f];
                page.id = INVALID_PAGE_ID;
                page.dirty = false;
                self.free_list.push(f);
                proof {
                    self.lemma_wf_after_delete(*old(self), page_id, f);
                }
                Ok(())
            },
        }
    }

    /// The pool invariant survives releasing one unpinned resident frame:
    /// its table entry dropped, its eviction queue entry removed, the frame
    /// pushed onto the free list with its id cleared.
    proof fn lemma_wf_after_delete(self, pre: Self, pid: PageId, f: FrameId)
        requires
            pre.wf(),
            pre.table().contains_key(pid),
            pre.table()[pid] == f,
            pre.frames()[f as int].pin_count == 0,
            self.spec_pool_size() == pre.spec_pool_size(),
            self.next_id() == pre.next_id(),
            self.table() == pre.table().remove(pid),
            self.free() == pre.free().push(f),
            Self::removed_once(pre.lru(), self.lru(), f),
            self.frames().len() == pre.frames().len(),
            self.frames()[f as int].id == INVALID_PAGE_ID,
            self.frames()[f as int].pin_count == 0,
            self.frames()[f as int].data@.len() == PAGE_SIZE,
            forall|g: int|
                0 <= g < pre.frames().len() && g != f ==> self.frames()[g] == pre.frames()[g],
        ensures
            self.wf(),
    {
        assert((f as int) < pre.frames().len() && pre.frames()[f as int].id == pid);
        assert forall|g: int| 0 <= g < self.frames().len() implies (
        #[trigger] self.frames()[g]).wf() by {
            assert(pre.frames()[g].wf());
        }
        assert forall|p: PageId| #[trigger] self.table().contains_key(p) implies {
            &&& 0 <= p < self.next_id()
            &&& (self.table()[p] as int) < self.frames().len()
            &&& self.frames()[self.table()[p] as int].id == p
        } by {
            assert(pre.table().contains_key(p));
            assert(pre.frames()[pre.table()[p] as int].id == p);
            assert(pre.table()[p] != f);
        }
        assert forall|g: int| 0 <= g < self.frames().len() implies {
            let id = (#[trigger] self.frames()[g]).id;
            ||| id == INVALID_PAGE_ID
            ||| (0 <= id < self.next_id() && self.table().contains_key(id) && self.table()[id]
                as int == g)
        } by {
            if g != f {
                let id = pre.frames()[g].id;
                if id != INVALID_PAGE_ID {
                    assert(pre.table().contains_key(id) && pre.table()[id] as int == g);
                    assert(id != pid);
                }
            }
        }
        assert forall|i: int| 0 <= i < self.free().len() implies {
            let g = (#[trigger] self.free()[i]) as int;
            &&& g < self.frames().len()
            &&& self.frames()[g].id == INVALID_PAGE_ID
            &&& self.frames()[g].pin_count == 0
        } by {
            if i < pre.free().len() {
                assert(self.free()[i] == pre.free()[i]);
                let g = pre.free()[i] as int;
                assert(pre.frames()[g].id == INVALID_PAGE_ID);
                assert(g != f);
            } else {
                assert(self.free()[i] == f);
            }
        }
        assert(!pre.free().contains(f)) by {
            if pre.free().contains(f) {
                let i = choose|i: int| 0 <= i < pre.free().len() && pre.free()[i] == f;
                assert(pre.frames()[pre.free()[i] as int].id == INVALID_PAGE_ID);
            }
        }
        assert forall|i: int, j: int|
            0 <= i < j < self.free().len() implies self.free()[i] != self.free()[j] by {
            if j < pre.free().len() {
                assert(pre.free()[i] != pre.free()[j]);
            } else {
                assert(self.free()[j] == f);
                assert(self.free()[i] == pre.free()[i]);
            }
        }
        assert forall|g: int|
            0 <= g < self.frames().len() && (#[trigger] self.frames()[g]).id
                == INVALID_PAGE_ID implies self.free().contains(g as FrameId) by {
            if g == f {
                assert(self.free()[self.free().len() - 1] == f);
            } else {
                assert(pre.frames()[g].id == INVALID_PAGE_ID);
                assert(pre.free().contains(g as FrameId));
                let i = choose|i: int| 0 <= i < pre.free().len() && pre.free()[i] == g as FrameId;
                assert(self.free()[i] == g as FrameId);
            }
        }
        let at = choose|i: int|
            0 <= i < pre.lru().len() && pre.lru()[i] == f && self.lru() == #[trigger] pre.lru(
            ).remove(i);
        assert forall|i: int| 0 <= i < self.lru().len() implies {
            let g = (#[trigger] self.lru()[i]) as int;
            &&& g < self.frames().len()
            &&& self.frames()[g].id != INVALID_PAGE_ID
            &&& self.frames()[g].pin_count == 0
        } by {
            let pi = if i < at {
                i
            } else {
                i + 1
            };
            assert(self.lru()[i] == pre.lru()[pi]);
            let g = pre.lru()[pi] as int;
            assert(pre.frames()[g].id != INVALID_PAGE_ID);
            assert(g != f) by {
                if g == f {
                    assert(pre.lru()[pi] == pre.lru()[at]);
                }
            }
        }
        assert forall|i: int, j: int|
            0 <= i < j < self.lru().len() implies self.lru()[i] != self.lru()[j] by {
            let pi = if i < at {
                i
            } else {
                i + 1
            };
            let pj = if j < at {
                j
            } else {
                j + 1
            };
            assert(self.lru()[i] == pre.lru()[pi]);
            assert(self.lru()[j] == pre.lru()[pj]);
            assert(pre.lru()[pi] != pre.lru()[pj]);
        }
        assert forall|g: int|
            0 <= g < self.frames().len() && (#[trigger] self.frames()[g]).id != INVALID_PAGE_ID
                && self.frames()[g].pin_count == 0 implies self.lru().contains(g as FrameId) by {
            assert(g != f);
            assert(pre.frames()[g] == self.frames()[g]);
            assert(pre.lru().contains(g as FrameId));
            let i = choose|i: int| 0 <= i < pre.lru().len() && pre.lru()[i] == g as FrameId;
            assert(i != at);
            if i < at {
                assert(self.lru()[i] == pre.lru()[i]);
            } else {
                assert(self.lru()[i - 1] == pre.lru()[i]);
            }
        }
    }

    /// A copy of the in-memory bytes of resident page `page_id`; fails with
    /// `PageNotFound` when the page is not resident. The pool is unchanged
    /// either way.
    pub fn read_page_data(&self, page_id: PageId) -> (r: Result<Vec<u8>, StorageError>)
        requires
            self.wf(),
        ensures
            match r {
                Ok(data) => self.resident(page_id) && data@ == self.data_of(page_id),
                Err(e) => e == StorageError::PageNotFound && !self.resident(page_id),
            },
    {
        let hit: Option<FrameId> = match self.page_table.get(&page_id) {
            Some(f) => Some(*f),
            None => None,
        };
        match hit {
            None => Err(StorageError::PageNotFound),
            Some(f) => {
                proof {
                    assert(self.table().contains_key(page_id));
                    assert(self.table()[page_id] == f);
                }
                let src = &self.pages[f].data;
                let mut data: Vec<u8> = Vec::new();
                let mut k: usize = 0;
                while k < src.len()
                    invariant
                        k <= src@.len(),
                        data@.len() == k,
                        forall|j: int| 0 <= j < k ==> data@[j] == src@[j],
                    decreases src@.len() - k,
                {
                    data.push(src[k]);
                    k = k + 1;
                }
                proof {
                    assert(data@ =~= self.data_of(page_id));
                }
                Ok(data)
            },
        }
    }

    /// Overwrites `bytes.len()` bytes of resident page `page_id`, starting at
    /// byte `offset` within the page; the rest of the page, and the frame's
    /// metadata (including the dirty flag, which the caller declares at
    /// unpin), are untouched. Fails with `PageNotFound`, and changes nothing,
    /// when the page is not resident.
    pub fn write_page_data(&mut self, page_id: PageId, offset: usize, bytes: &Vec<u8>) -> (r:
        Result<(), StorageError>)
        requires
            old(self).wf(),
            offset + bytes@.len() <= PAGE_SIZE,
        ensures
            final(self).wf(),
            final(self).next_id() == old(self).next_id(),
            match r {
                Ok(()) => {
                    &&& old(self).resident(page_id)
                    &&& final(self).table() == old(self).table()
                    &&& final(self).frame_of(page_id) == old(self).frame_of(page_id)
                    &&& final(self).pin_of(page_id) == old(self).pin_of(page_id)
                    &&& final(self).dirty_of(page_id) == old(self).dirty_of(page_id)
                    &&& final(self).data_of(page_id) == old(self).data_of(page_id).update_subrange_with(offset as int, bytes@)
                    &&& forall|g: int|
                        0 <= g < old(self).frames().len() && g != old(self).frame_of(page_id)
                            ==> final(self).frames()[g] == old(self).frames()[g]
                    &&& final(self).free() == old(self).free()
                    &&& final(self).lru() == old(self).lru()
                    &&& final(self).disk() == old(self).disk()
                },
                Err(e) => {
                    &&& e == StorageError::PageNotFound
                    &&& !old(self).resident(page_id)
                    &&& Self::unchanged(*old(self), *final(self))
                },
            },
    {
        let hit: Option<FrameId> = match self.page_table.get(&page_id) {
            Some(f) => Some(*f),
            None => None,
        };
        match hit {
            None => Err(StorageError::PageNotFound),
            Some(f) => {
                proof {
                    assert(old(self).table().contains_key(page_id));
                    assert(old(self).table()[page_id] == f);
                    assert(old(self).frames()[f as int].wf());
                }
                let mut k: usize = 0;
                while k < bytes.len()
                    invariant
                        old(self).wf(),
                        k <= bytes@.len(),
                        offset + bytes@.len() <= PAGE_SIZE,
                        (f as int) < self.pages@.len(),
                        self.pool_size == old(self).pool_size,
                        self.page_table@ == old(self).page_table@,
                        self.free_list@ == old(self).free_list@,
                        self.lru_queue@ == old(self).lru_queue@,
                        self.next_page_id == old(self).next_page_id,
                        self.disk_manager.contents() == old(self).disk_manager.contents(),
                        self.pages@.len() == old(self).pages@.len(),
                        forall|g: int|
                            0 <= g < old(self).pages@.len() && g != f ==> #[trigger] self.pages@[g]
                                == old(self).pages@[g],
                        self.pages@[f as int].id == old(self).pages@[f as int].id,
                        self.pages@[f as int].pin_count == old(self).pages@[f as int].pin_count,
                        self.pages@[f as int].dirty == old(self).pages@[f as int].dirty,
                        self.pages@[f as int].data@.len() == PAGE_SIZE,
                        forall|j: int|
                            offset <= j < offset + k ==> self.pages@[f as int].data@[j] == bytes@[j
                                - offset],
                        forall|j: int|
                            0 <= j < PAGE_SIZE && !(offset <= j < offset + k)
                                ==> self.pages@[f as int].data@[j] == old(self).pages@[f
                                as int].data@[j],
                    decreases bytes@.len() - k,
                {
                    let b = bytes[k];
                    let page = &mut self.pages[f];
                    page.data[offset + k] = b;
                    k = k + 1;
                }
                proof {
                    assert(self.data_of(page_id) =~= old(self).data_of(
                        page_id,
                    ).update_subrange_with(offset as int, bytes@));
                    self.lemma_wf_after_pin_dirty_change(*old(self), f);
                }
                Ok(())
            },
        }
    }

    /// Number of frames in the pool.
    pub fn pool_size(&self) -> (r: usize)
        ensures
            r == self.spec_pool_size(),
    {
        self.pool_size
    }

    /// The pin count of page `page_id`, or `None` when it is not resident.
    pub fn pin_count(&self, page_id: PageId) -> (r: Option<i32>)
        requires
            self.wf(),
        ensures
            match r {
                Some(c) => self.resident(page_id) && c == self.pin_of(page_id),
                None => !self.resident(page_id),
            },
    {
        match self.page_table.get(&page_id) {
            None => None,
            Some(f) => {
                let f = *f;
                proof {
                    assert(self.table().contains_key(page_id));
                    assert(self.table()[page_id] == f);
                }
                Some(self.pages[f].pin_count)
            },
        }
    }

    /// The dirty flag of page `page_id`, or `None` when it is not resident.
    pub fn is_page_dirty(&self, page_id: PageId) -> (r: Option<bool>)
        requires
            self.wf(),
        ensures
            match r {
                Some(d) => self.resident(page_id) && d == self.dirty_of(page_id),
                None => !self.resident(page_id),
            },
    {
        match self.page_table.get(&page_id) {
            None => None,
            Some(f) => {
                let f = *f;
                proof {
                    assert(self.table().contains_key(page_id));
                    assert(self.table()[page_id] == f);
                }
                Some(self.pages[f].dirty)
            },
        }
    }

    /// Law: under the pool invariant, `page_table` bijects onto the frames
    /// that are pinned or eviction candidates, and both are disjoint from the
    /// free list, which holds exactly the remaining frames.
    pub proof fn lemma_page_table_partition(self)
        requires
            self.wf(),
        ensures
            forall|p: PageId, q: PageId|
                self.resident(p) && self.resident(q) && p != q ==> #[trigger] self.frame_of(p)
                    != #[trigger] self.frame_of(q),
            forall|p: PageId| #[trigger] self.resident(p) ==> self.pin_of(p) > 0 || self.lru(
            ).contains(self.frame_of(p) as FrameId),
            forall|p: PageId| #[trigger] self.resident(p) ==> !self.free().contains(
                self.frame_of(p) as FrameId,
            ),
            forall|i: int| 0 <= i < self.lru().len() ==> !self.free().contains(
                #[trigger] self.lru()[i],
            ),
            forall|f: FrameId| (f as int) < self.spec_pool_size() ==> (self.free().contains(f)
                <==> !(exists|p: PageId| #[trigger] self.resident(p) && self.frame_of(p)
                == f as int)),
    {
        assert forall|p: PageId| #[trigger] self.resident(p) implies !self.free().contains(
            self.frame_of(p) as FrameId,
        ) by {
            if self.free().contains(self.frame_of(p) as FrameId) {
                let i = choose|i: int|
                    0 <= i < self.free().len() && self.free()[i] == self.frame_of(p) as FrameId;
                assert(self.pages@[self.free_list@[i] as int].id == INVALID_PAGE_ID);
            }
        }
        assert forall|i: int| 0 <= i < self.lru().len() implies !self.free().contains(
            #[trigger] self.lru()[i],
        ) by {
            if self.free().contains(self.lru()[i]) {
                let j = choose|j: int|
                    0 <= j < self.free().len() && self.free()[j] == self.lru()[i];
                assert(self.pages@[self.free_list@[j] as int].id == INVALID_PAGE_ID);
            }
        }
        assert forall|f: FrameId| (f as int) < self.spec_pool_size() implies (self.free().contains(
            f,
        ) <==> !(exists|p: PageId| #[trigger] self.resident(p) && self.frame_of(p)
            == f as int)) by {
            let id = self.pages@[f as int].id;
            if id == INVALID_PAGE_ID {
                assert(self.free_list@.contains(f));
                if exists|p: PageId| #[trigger] self.resident(p) && self.frame_of(p) == f as int {
                    let p = choose|p: PageId| #[trigger] self.resident(p) && self.frame_of(p)
                        == f as int;
                    assert(self.pages@[f as int].id == p);
                }
            } else {
                assert(self.resident(id) && self.frame_of(id) == f as int);
                if self.free().contains(f) {
                    let i = choose|i: int|
                        0 <= i < self.free().len() && self.free()[i] == f;
                    assert(self.pages@[self.free_list@[i] as int].id == INVALID_PAGE_ID);
                }
            }
        }
    }

    /// Law: an eviction victim — the front of the eviction queue, consulted
    /// only when the free list is empty — always has pin count zero, so a
    /// page with a positive pin count is never selected as a victim.
    pub proof fn lemma_victim_unpinned(self)
        requires
            self.wf(),
            self.free().len() == 0,
            self.lru().len() > 0,
        ensures
            self.frames()[self.lru()[0] as int].pin_count == 0,
            forall|p: PageId|
                self.resident(p) && #[trigger] self.pin_of(p) > 0 ==> self.frame_of(p)
                    != self.lru()[0] as int,
    {
    }
}

} // verus!
