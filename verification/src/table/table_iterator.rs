use vstd::prelude::*;

use crate::table::table_page::TablePage;
use crate::table::tuple::Tuple;

verus! {

/// A finite, restartable lazy scan over the tuples of one slotted page, in
/// slot order from slot 0. It never mutates the page, so a fresh iterator
/// over the same page replays the same tuples. It does not follow
/// `next_page_id` across pages.
pub struct TableIterator {
    table: TablePage,
    index: usize,
}

impl TableIterator {
    /// The page being scanned.
    pub closed spec fn spec_table(self) -> TablePage {
        self.table
    }

    /// The slot the next call of `next` will read.
    pub closed spec fn spec_index(self) -> int {
        self.index as int
    }

    /// A scan over `table` starting at slot 0.
    pub fn new(table: TablePage) -> (r: TableIterator)
        ensures
            r.spec_table() == table,
            r.spec_index() == 0,
    {
        TableIterator { table, index: 0 }
    }

    /// The next tuple of the page, or `None` after the last slot. The page
    /// itself is never changed.
    pub fn next(&mut self) -> (r: Option<Tuple>)
        requires
            old(self).spec_table().wf(),
            0 <= old(self).spec_index(),
        ensures
            final(self).spec_table() == old(self).spec_table(),
            if old(self).spec_index() < old(self).spec_table().num_tuples as int {
                &&& final(self).spec_index() == old(self).spec_index() + 1
                &&& match r {
                    Some(t) => t.data@ == old(self).spec_table().tuples()[old(self).spec_index()],
                    None => false,
                }
            } else {
                &&& final(self).spec_index() == old(self).spec_index()
                &&& r is None
            },
    {
        if self.index >= self.table.num_tuples as usize || self.table.num_tuples < 0 {
            return None;
        }
        let tuple = match self.table.get_tuple(self.index) {
            Ok(t) => t,
            Err(_) => {
                proof {
                    assert(false);
                }
                return None;
            },
        };
        self.index = self.index + 1;
        Some(tuple)
    }
}

} // verus!
