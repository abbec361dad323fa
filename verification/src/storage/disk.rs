use vstd::prelude::*;

use crate::error::Error;
use crate::storage::{
    copy_bytes, pad_page, pad_to_page, zero_page, zero_page_vec, DiskManager, PageId, PAGE_SIZE,
};

verus! {

/// An in-memory page store: the reference implementation of
/// [`DiskManager`].
///
/// Pages live in a vector indexed by `identifier - 1`; identifier `0` is
/// reserved and never allocated.  The vector grows on demand, so a page
/// whose identifier lies beyond it simply reads as zeros, exactly like a
/// never-written region of a backing file.
pub struct MemDiskManager {
    next_page_id: usize,
    pages: Vec<Vec<u8>>,
}

impl MemDiskManager {
    /// An empty store: nothing written yet, first allocation returns
    /// identifier `1`.
    pub fn new() -> (r: Self)
        ensures
            r.inv(),
            r.next_id() == 1,
            forall|k: nat| #[trigger] r.stored(k) == zero_page(),
    {
        MemDiskManager { next_page_id: 1, pages: Vec::new() }
    }
}

impl DiskManager for MemDiskManager {
    closed spec fn inv(&self) -> bool {
        &&& self.next_page_id >= 1
        &&& forall|i: int|
            0 <= i < self.pages@.len() ==> (#[trigger] self.pages@[i])@.len() == PAGE_SIZE
    }

    closed spec fn next_id(&self) -> nat {
        self.next_page_id as nat
    }

    closed spec fn stored(&self, id: nat) -> Seq<u8> {
        if 1 <= id && id <= self.pages@.len() {
            self.pages@[id - 1]@
        } else {
            zero_page()
        }
    }

    fn write_page(&mut self, page_id: PageId, data: &[u8]) -> (r: Result<(), Error>)
        // the in-memory store cannot fail: beyond the trait's contract,
        // every write succeeds
        ensures
            r is Ok,
    {
        while self.pages.len() < page_id.0
            invariant
                old(self).inv(),
                self.next_page_id == old(self).next_page_id,
                forall|i: int|
                    0 <= i < self.pages@.len() ==> (#[trigger] self.pages@[i])@.len() == PAGE_SIZE,
                forall|k: nat| #[trigger] self.stored(k) == old(self).stored(k),
            decreases page_id.0 - self.pages@.len(),
        {
            let ghost prev = *self;
            let z = zero_page_vec();
            self.pages.push(z);
            proof {
                assert forall|k: nat| #[trigger] self.stored(k) == prev.stored(k) by {
                    if 1 <= k && k <= self.pages@.len() {
                        if k == self.pages@.len() {
                            assert(self.stored(k) == zero_page());
                        }
                    }
                }
            }
        }
        let padded = pad_to_page(data);
        let idx = page_id.0 - 1;
        let ghost prev = *self;
        self.pages[idx] = padded;
        proof {
            assert(self.stored(page_id.0 as nat) == pad_page(data@));
            assert forall|k: nat|
                k != page_id.0 as nat implies #[trigger] self.stored(k) == prev.stored(k) by {}
        }
        Ok(())
    }

    fn read_page(&mut self, page_id: PageId) -> (r: Result<Vec<u8>, Error>)
        // the in-memory store cannot fail: beyond the trait's contract,
        // every read succeeds
        ensures
            r is Ok,
    {
        if page_id.0 <= self.pages.len() {
            let buf = copy_bytes(&self.pages[page_id.0 - 1]);
            Ok(buf)
        } else {
            Ok(zero_page_vec())
        }
    }

    fn new_page(&mut self) -> (r: PageId) {
        let id = self.next_page_id;
        self.next_page_id = id + 1;
        PageId(id)
    }
}

} // verus!
