use vstd::prelude::*;

use crate::buffer::{
    data_of, dirty_of, distinct_pids, frames_wf, has_free_frame, is_resident,
    lemma_frame_of_unique, lemma_without_id_absent, lemma_without_id_at,
    lemma_without_id_membership, pin_of, same_members, same_pages_except, without_id,
    BufferPoolManager, FrameId, Replacer,
};
use crate::error::Error;
use crate::storage::{
    zero_page, zero_page_vec, DiskManager, Page, PageId, PAGE_SIZE,
};

verus! {

/// An entry of the least-recently-used queue: a page stamped with the
/// moment it became evictable (larger rank = released more recently).
#[derive(Debug)]
struct CachedPageItem {
    page_id: PageId,
    rank: usize,
}

/// Least-recently-used replacement policy: evictable pages ordered by
/// the moment they were last released, oldest first.
///
/// Entries are kept sorted by rank; since every new entry receives the
/// current value of a strictly increasing counter, pushing at the back
/// keeps the order, and the victim is always the front entry.
pub struct LruReplacer {
    pages: Vec<CachedPageItem>,
    count: usize,
}

impl LruReplacer {
    /// An empty policy; `size` only pre-sizes the internal storage.
    pub fn new(size: usize) -> (r: Self)
        ensures
            r.inv(),
            r.queue() == Seq::<PageId>::empty(),
    {
        let r = LruReplacer { pages: Vec::with_capacity(size), count: 0 };
        proof {
            assert(r.queue() =~= Seq::<PageId>::empty());
        }
        r
    }

    /// Drops the entry for `page_id`, if one exists.
    fn remove_entry(&mut self, page_id: PageId)
        requires
            old(self).inv(),
        ensures
            final(self).inv(),
            final(self).count == old(self).count,
            final(self).queue() == without_id(old(self).queue(), page_id),
            forall|a: int|
                0 <= a < final(self).pages@.len() ==> (#[trigger] final(self).pages@[a]).rank
                    <= old(self).count - 1,
    {
        let ghost q0 = self.queue();
        let n = self.pages.len();
        let mut i: usize = 0;
        let mut hit: usize = n;
        while i < n
            invariant
                n == self.pages@.len(),
                i <= n,
                hit <= n,
                hit == n ==> forall|j: int|
                    0 <= j < i ==> (#[trigger] self.pages@[j]).page_id != page_id,
                hit < n ==> self.pages@[hit as int].page_id == page_id,
            decreases n - i,
        {
            if hit == n && self.pages[i].page_id == page_id {
                hit = i;
            }
            i = i + 1;
        }
        proof {
            assert forall|a: int| 0 <= a < q0.len() implies #[trigger] q0[a] == self.pages@[a].page_id by {}
        }
        if hit < n {
            let ghost pre = self.pages@;
            self.pages.remove(hit);
            proof {
                assert(distinct_pids(q0));
                lemma_without_id_at(q0, page_id, hit as int);
                assert(self.queue() =~= q0.remove(hit as int)) by {
                    assert(self.pages@ == pre.remove(hit as int));
                    assert forall|a: int| 0 <= a < self.pages@.len() implies #[trigger] self.pages@[a]
                        == if a < hit { pre[a] } else { pre[a + 1] } by {}
                }
                assert forall|a: int, b: int|
                    0 <= a < b < self.pages@.len() implies (#[trigger] self.pages@[a]).rank
                        < (#[trigger] self.pages@[b]).rank by {}
            }
        } else {
            proof {
                assert(!q0.contains(page_id)) by {
                    if q0.contains(page_id) {
                        let a = choose|a: int| 0 <= a < q0.len() && q0[a] == page_id;
                        assert(self.pages@[a].page_id == page_id);
                    }
                }
                lemma_without_id_absent(q0, page_id);
            }
        }
        proof {
            assert forall|a: int|
                0 <= a < self.pages@.len() implies (#[trigger] self.pages@[a]).rank <= old(self).count - 1 by {}
        }
    }

    /// Renumbers the entries `0, 1, 2, ...` in their current order and
    /// resets the counter, preserving the queue.  Only needed in the
    /// (practically unreachable) event that the stamp counter is about
    /// to wrap.
    fn restamp(&mut self)
        requires
            forall|a: int, b: int|
                0 <= a < b < old(self).pages@.len() ==> (#[trigger] old(self).pages@[a]).page_id
                    != (#[trigger] old(self).pages@[b]).page_id,
        ensures
            final(self).inv(),
            final(self).queue() == old(self).queue(),
    {
        let n = self.pages.len();
        let mut i: usize = 0;
        while i < n
            invariant
                n == self.pages@.len(),
                i <= n,
                forall|j: int|
                    0 <= j < n ==> (#[trigger] self.pages@[j]).page_id == old(self).pages@[j].page_id,
                forall|j: int| 0 <= j < i ==> (#[trigger] self.pages@[j]).rank == j,
                forall|a: int, b: int|
                    0 <= a < b < n ==> (#[trigger] self.pages@[a]).page_id
                        != (#[trigger] self.pages@[b]).page_id,
            decreases n - i,
        {
            let pid = self.pages[i].page_id;
            self.pages[i] = CachedPageItem { page_id: pid, rank: i };
            i = i + 1;
        }
        self.count = n;
        proof {
            assert(self.queue() =~= old(self).queue());
        }
    }
}

impl Replacer for LruReplacer {
    closed spec fn inv(&self) -> bool {
        &&& forall|a: int, b: int|
            0 <= a < b < self.pages@.len() ==> (#[trigger] self.pages@[a]).rank
                < (#[trigger] self.pages@[b]).rank
        &&& forall|a: int|
            0 <= a < self.pages@.len() ==> (#[trigger] self.pages@[a]).rank < self.count
        &&& forall|a: int, b: int|
            0 <= a < b < self.pages@.len() ==> (#[trigger] self.pages@[a]).page_id
                != (#[trigger] self.pages@[b]).page_id
    }

    closed spec fn queue(&self) -> Seq<PageId> {
        self.pages@.map_values(|item: CachedPageItem| item.page_id)
    }

    fn remove(&mut self) -> (r: Option<PageId>) {
        if self.pages.len() == 0 {
            None
        } else {
            let ghost pre = self.pages@;
            let item = self.pages.remove(0);
            proof {
                assert(self.pages@ == pre.remove(0));
                assert forall|a: int| 0 <= a < self.pages@.len() implies #[trigger] self.pages@[a]
                    == pre[a + 1] by {}
                assert(self.queue() =~= old(self).queue().drop_first());
            }
            Some(item.page_id)
        }
    }

    fn pin(&mut self, page_id: PageId) {
        self.remove_entry(page_id);
    }

    fn unpin(&mut self, page_id: PageId) {
        self.remove_entry(page_id);
        let ghost mid = *self;
        let rank = self.count;
        self.pages.push(CachedPageItem { page_id, rank });
        proof {
            assert(self.queue() =~= mid.queue().push(page_id));
            assert(distinct_pids(mid.queue())) by {
                assert forall|a: int, b: int|
                    0 <= a < b < mid.queue().len() implies mid.queue()[a] != mid.queue()[b] by {
                    assert(mid.queue()[a] == mid.pages@[a].page_id);
                    assert(mid.queue()[b] == mid.pages@[b].page_id);
                }
            }
            lemma_without_id_membership(old(self).queue(), page_id);
            assert(!mid.queue().contains(page_id));
            assert forall|a: int, b: int|
                0 <= a < b < self.pages@.len() implies (#[trigger] self.pages@[a]).page_id
                    != (#[trigger] self.pages@[b]).page_id by {
                if b == self.pages@.len() - 1 {
                    if self.pages@[a].page_id == page_id {
                        assert(mid.queue()[a] == page_id);
                        assert(mid.queue().contains(page_id));
                    }
                }
            }
        }
        if rank == usize::MAX {
            self.restamp();
        } else {
            self.count = rank + 1;
        }
    }

    fn available(&self) -> (r: usize) {
        self.pages.len()
    }
}

/// An unoccupied frame: identifier `0`, zeroed buffer, unpinned, clean.
fn empty_frame() -> (r: Page)
    ensures
        r.id.0 == 0,
        r.data@ == zero_page(),
        !r.is_dirty,
        r.pin_count == 0,
{
    Page { id: PageId(0), data: zero_page_vec(), is_dirty: false, pin_count: 0 }
}

/// A copy of a frame's current state, handed to callers as their page
/// handle.
fn copy_page(p: &Page) -> (r: Page)
    ensures
        r.id == p.id,
        r.data@ == p.data@,
        r.is_dirty == p.is_dirty,
        r.pin_count == p.pin_count,
{
    Page {
        id: p.id,
        data: crate::storage::copy_bytes(&p.data),
        is_dirty: p.is_dirty,
        pin_count: p.pin_count,
    }
}

/// `p` occupies some frame with pin count zero: what membership in the
/// victim queue asserts about the frame array.
spec fn queue_entry_ok(frames: Seq<Page>, p: PageId) -> bool {
    &&& p.0 >= 1
    &&& exists|i: int|
        0 <= i < frames.len() && (#[trigger] frames[i]).id == p && frames[i].pin_count == 0
}

/// After replacing the single frame `fi`, every page living elsewhere
/// keeps its residency and per-frame state.
proof fn lemma_frames_update(f0: Seq<Page>, f1: Seq<Page>, fi: int)
    requires
        0 <= fi < f0.len(),
        f1.len() == f0.len(),
        forall|j: int| 0 <= j < f0.len() && j != fi ==> f1[j] == f0[j],
        frames_wf(f0),
        frames_wf(f1),
    ensures
        forall|id: nat|
            (id != f0[fi].id.0 as nat && id != f1[fi].id.0 as nat) ==> #[trigger] is_resident(
                f1,
                id,
            ) == is_resident(f0, id),
        forall|id: nat|
            (id != f0[fi].id.0 as nat && id != f1[fi].id.0 as nat && is_resident(f0, id)) ==> (
            #[trigger] pin_of(f1, id) == pin_of(f0, id) && dirty_of(f1, id) == dirty_of(f0, id)
                && data_of(f1, id) == data_of(f0, id)),
{
    assert forall|id: nat|
        (id != f0[fi].id.0 as nat && id != f1[fi].id.0 as nat) implies #[trigger] is_resident(
        f1,
        id,
    ) == is_resident(f0, id) by {
        if is_resident(f0, id) {
            let i = choose|i: int| 0 <= i < f0.len() && (#[trigger] f0[i]).id.0 as nat == id;
            assert(i != fi);
            assert(f1[i].id.0 as nat == id);
        }
        if is_resident(f1, id) {
            let i = choose|i: int| 0 <= i < f1.len() && (#[trigger] f1[i]).id.0 as nat == id;
            assert(i != fi);
            assert(f0[i].id.0 as nat == id);
        }
    }
    assert forall|id: nat|
        (id != f0[fi].id.0 as nat && id != f1[fi].id.0 as nat && is_resident(f0, id)) implies (
    #[trigger] pin_of(f1, id) == pin_of(f0, id) && dirty_of(f1, id) == dirty_of(f0, id) && data_of(
        f1,
        id,
    ) == data_of(f0, id)) by {
        let i = choose|i: int| 0 <= i < f0.len() && (#[trigger] f0[i]).id.0 as nat == id;
        assert(i != fi);
        assert(f1[i] == f0[i]);
        lemma_frame_of_unique(f0, i);
        lemma_frame_of_unique(f1, i);
    }
}

/// After replacing the single frame `fi`, the pages outside `except`
/// are untouched, provided `except` covers whatever page occupied the
/// frame before and whatever page occupies it now.
proof fn lemma_same_pages_after_update(f0: Seq<Page>, f1: Seq<Page>, fi: int, except: Set<nat>)
    requires
        0 <= fi < f0.len(),
        f1.len() == f0.len(),
        forall|j: int| 0 <= j < f0.len() && j != fi ==> f1[j] == f0[j],
        frames_wf(f0),
        frames_wf(f1),
        except.contains(f0[fi].id.0 as nat) || f0[fi].id.0 == 0,
        except.contains(f1[fi].id.0 as nat) || f1[fi].id.0 == 0,
    ensures
        same_pages_except(f0, f1, except),
{
    lemma_frames_update(f0, f1, fi);
    assert forall|id: nat|
        !except.contains(id) implies {
        &&& is_resident(f1, id) == is_resident(f0, id)
        &&& (is_resident(f0, id) ==> pin_of(f1, id) == pin_of(f0, id) && dirty_of(f1, id)
            == dirty_of(f0, id) && data_of(f1, id) == data_of(f0, id))
    } by {
        if id == 0 {
            assert(!is_resident(f0, 0) && !is_resident(f1, 0));
        } else {
            assert(id != f0[fi].id.0 as nat && id != f1[fi].id.0 as nat);
        }
    }
}

/// The default buffer pool manager: a fixed frame array, the page table
/// implicit in the frames' occupants, a replacement policy and a handle
/// to the durable store.
pub struct DefaultBufferPoolManager<DM, R> {
    pool_size: usize,
    frames: Vec<Page>,
    disk_manager: DM,
    replacer: R,
}

impl<DM: DiskManager, R: Replacer> DefaultBufferPoolManager<DM, R> {
    /// A pool of `pool_size` empty frames over the given store and
    /// policy.  The store must be consistent with allocation not yet
    /// begun below `1`, and the policy must start with nothing
    /// evictable.
    pub fn new(disk_manager: DM, replacer: R, pool_size: usize) -> (r: Self)
        requires
            disk_manager.inv(),
            disk_manager.next_id() >= 1,
            replacer.inv(),
            replacer.queue().len() == 0,
        ensures
            r.inv(),
            r.capacity() == pool_size as nat,
            r.frames_view().len() == pool_size as nat,
            forall|id: nat| !(#[trigger] is_resident(r.frames_view(), id)),
            pool_size > 0 ==> has_free_frame(r.frames_view()),
            r.evictable() == replacer.queue(),
            r.evictable().len() == 0,
            r.next_id() == disk_manager.next_id(),
            forall|k: nat| #[trigger] r.stored(k) == disk_manager.stored(k),
    {
        let mut frames: Vec<Page> = Vec::with_capacity(pool_size);
        while frames.len() < pool_size
            invariant
                frames@.len() <= pool_size,
                forall|i: int|
                    0 <= i < frames@.len() ==> (#[trigger] frames@[i]).id.0 == 0
                        && frames@[i].pin_count == 0 && !frames@[i].is_dirty && frames@[i].data@
                        == zero_page(),
            decreases pool_size - frames@.len(),
        {
            frames.push(empty_frame());
        }
        let r = DefaultBufferPoolManager { pool_size, frames, disk_manager, replacer };
        proof {
            assert forall|id: nat| !(#[trigger] is_resident(r.frames_view(), id)) by {
                if is_resident(r.frames@, id) {
                    let i = choose|i: int|
                        0 <= i < r.frames@.len() && (#[trigger] r.frames@[i]).id.0 as nat == id;
                    assert(r.frames@[i].id.0 == 0);
                }
            }
            if pool_size > 0 {
                assert(r.frames@[0].id.0 == 0);
            }
        }
        r
    }

    /// The frame currently holding `page_id`, if any.
    fn find_frame(&self, page_id: PageId) -> (r: Option<FrameId>)
        ensures
            match r {
                Some(f) => f.0 < self.frames@.len() && self.frames@[f.0 as int].id == page_id,
                None => forall|i: int|
                    0 <= i < self.frames@.len() ==> (#[trigger] self.frames@[i]).id != page_id,
            },
    {
        let n = self.frames.len();
        let mut i: usize = 0;
        while i < n
            invariant
                n == self.frames@.len(),
                i <= n,
                forall|j: int| 0 <= j < i ==> (#[trigger] self.frames@[j]).id != page_id,
            decreases n - i,
        {
            if self.frames[i].id.0 == page_id.0 {
                return Some(FrameId(i));
            }
            i = i + 1;
        }
        None
    }

    /// An unoccupied frame, if any.
    fn find_free(&self) -> (r: Option<FrameId>)
        ensures
            match r {
                Some(f) => f.0 < self.frames@.len() && self.frames@[f.0 as int].id.0 == 0,
                None => !has_free_frame(self.frames@),
            },
    {
        let n = self.frames.len();
        let mut i: usize = 0;
        while i < n
            invariant
                n == self.frames@.len(),
                i <= n,
                forall|j: int| 0 <= j < i ==> (#[trigger] self.frames@[j]).id.0 != 0,
            decreases n - i,
        {
            if self.frames[i].id.0 == 0 {
                return Some(FrameId(i));
            }
            i = i + 1;
        }
        proof {
            if has_free_frame(self.frames@) {
                let j = choose|j: int|
                    0 <= j < self.frames@.len() && (#[trigger] self.frames@[j]).id.0 == 0;
            }
        }
        None
    }

    /// Chooses the frame a new or fetched page will occupy: a free one
    /// if it exists, otherwise the policy's victim, whose bytes are
    /// flushed to the store first when its frame is dirty.  The victim
    /// is withdrawn from the victim queue but stays in its frame — the
    /// caller either overwrites the frame (completing the eviction) or
    /// returns the victim to the queue, so a later failure leaves every
    /// frame exactly as it was.  Fails with `PoolExhausted` when no
    /// page is evictable, or with the store's error when the victim's
    /// flush fails.
    fn acquire_frame(&mut self) -> (r: Result<usize, Error>)
        requires
            old(self).inv(),
        ensures
            final(self).pool_size == old(self).pool_size,
            final(self).frames@ == old(self).frames@,
            final(self).disk_manager.inv(),
            final(self).disk_manager.next_id() == old(self).disk_manager.next_id(),
            final(self).replacer.inv(),
            has_free_frame(old(self).frames@) ==> r is Ok,
            (!has_free_frame(old(self).frames@) && old(self).replacer.queue().len() > 0
                && !dirty_of(old(self).frames@, old(self).replacer.queue()[0].0 as nat)) ==> r
                is Ok,
            match r {
                Ok(i) => {
                    &&& (i as int) < old(self).frames@.len()
                    &&& (has_free_frame(old(self).frames@) ==> old(self).frames@[i as int].id.0
                        == 0 && final(self).replacer.queue() == old(self).replacer.queue() && (
                    forall|k: nat| #[trigger]
                        final(self).disk_manager.stored(k) == old(self).disk_manager.stored(k)))
                    &&& (!has_free_frame(old(self).frames@) ==> {
                        let vid = old(self).replacer.queue()[0];
                        &&& old(self).replacer.queue().len() > 0
                        &&& old(self).frames@[i as int].id == vid
                        &&& old(self).frames@[i as int].pin_count == 0
                        &&& final(self).replacer.queue() == old(self).replacer.queue().drop_first()
                        &&& (dirty_of(old(self).frames@, vid.0 as nat) ==> final(self).disk_manager.stored(vid.0 as nat) == data_of(
                            old(self).frames@,
                            vid.0 as nat,
                        ))
                        &&& (!dirty_of(old(self).frames@, vid.0 as nat) ==> forall|k: nat|
                            #[trigger] final(self).disk_manager.stored(k) == old(self).disk_manager.stored(k))
                        &&& forall|k: nat|
                            k != vid.0 as nat ==> #[trigger] final(self).disk_manager.stored(k)
                                == old(self).disk_manager.stored(k)
                    })
                },
                Err(e) => {
                    &&& !has_free_frame(old(self).frames@)
                    &&& forall|k: nat| #[trigger]
                        final(self).disk_manager.stored(k) == old(self).disk_manager.stored(k)
                    &&& same_members(old(self).replacer.queue(), final(self).replacer.queue())
                    &&& distinct_pids(final(self).replacer.queue())
                    &&& (forall|a: int|
                        0 <= a < final(self).replacer.queue().len() ==> queue_entry_ok(
                            old(self).frames@,
                            #[trigger] final(self).replacer.queue()[a],
                        ))
                    &&& (forall|j: int|
                        0 <= j < old(self).frames@.len() && (#[trigger] old(self).frames@[j]).id.0
                            >= 1 && old(self).frames@[j].pin_count == 0 ==> final(self).replacer.queue().contains(old(self).frames@[j].id))
                    &&& (e is PoolExhausted ==> old(self).replacer.queue().len() == 0 && final(self).replacer.queue() == old(self).replacer.queue())
                    &&& (e is InternalIo ==> old(self).replacer.queue().len() > 0)
                },
            },
    {
        if let Some(f) = self.find_free() {
            return Ok(f.0);
        }
        let ghost f0 = self.frames@;
        let ghost q0 = self.replacer.queue();
        let victim = match self.replacer.remove() {
            None => {
                return Err(Error::PoolExhausted);
            },
            Some(v) => v,
        };
        let ghost q1 = self.replacer.queue();
        proof {
            assert(q0.len() > 0 && victim == q0[0] && q1 == q0.drop_first());
            assert(queue_entry_ok(f0, victim));
            assert(distinct_pids(q1)) by {
                assert forall|a: int, b: int| 0 <= a < b < q1.len() implies q1[a] != q1[b] by {
                    assert(q1[a] == q0[a + 1] && q1[b] == q0[b + 1]);
                }
            }
            assert(!q1.contains(victim)) by {
                if q1.contains(victim) {
                    let k = choose|k: int| 0 <= k < q1.len() && q1[k] == victim;
                    assert(q0[k + 1] == victim && q0[0] == victim);
                }
            }
        }
        let fi = match self.find_frame(victim) {
            Some(f) => f.0,
            None => {
                proof {
                    let i = choose|i: int|
                        0 <= i < f0.len() && (#[trigger] f0[i]).id == victim && f0[i].pin_count
                            == 0;
                }
                return vstd::pervasive::unreached();
            },
        };
        proof {
            lemma_frame_of_unique(f0, fi as int);
            assert(f0[fi as int].pin_count == 0) by {
                let i = choose|i: int|
                    0 <= i < f0.len() && (#[trigger] f0[i]).id == victim && f0[i].pin_count == 0;
                if i != fi as int {
                    assert(f0[i].id.0 == f0[fi as int].id.0);
                }
            }
            assert forall|a: int|
                0 <= a < q1.len() implies queue_entry_ok(f0, #[trigger] q1[a]) by {
                assert(q1[a] == q0[a + 1]);
                assert(queue_entry_ok(f0, q0[a + 1]));
            }
        }
        if self.frames[fi].is_dirty {
            let res = self.disk_manager.write_page(victim, self.frames[fi].data.as_slice());
            if let Err(e) = res {
                self.replacer.unpin(victim);
                proof {
                    lemma_without_id_absent(q1, victim);
                    let q2 = self.replacer.queue();
                    assert(q2 == q1.push(victim));
                    assert(same_members(q0, q2)) by {
                        assert forall|p: PageId| #[trigger]
                            q2.contains(p) <==> q0.contains(p) by {
                            if q2.contains(p) {
                                let k = choose|k: int| 0 <= k < q2.len() && q2[k] == p;
                                if k == q2.len() - 1 {
                                    assert(q0[0] == p);
                                } else {
                                    assert(q0[k + 1] == p);
                                }
                            }
                            if q0.contains(p) {
                                let k = choose|k: int| 0 <= k < q0.len() && q0[k] == p;
                                if k == 0 {
                                    assert(q2[q2.len() - 1] == p);
                                } else {
                                    assert(q2[k - 1] == p);
                                }
                            }
                        }
                    }
                    assert(distinct_pids(q2)) by {
                        assert forall|a: int, b: int|
                            0 <= a < b < q2.len() implies q2[a] != q2[b] by {
                            if b == q2.len() - 1 {
                                if q2[a] == victim {
                                    assert(q1[a] == victim);
                                }
                            } else {
                                assert(q2[a] == q1[a] && q2[b] == q1[b]);
                            }
                        }
                    }
                    assert forall|a: int|
                        0 <= a < q2.len() implies queue_entry_ok(f0, #[trigger] q2[a]) by {
                        if a == q2.len() - 1 {
                            assert(q2[a] == victim);
                        } else {
                            assert(q2[a] == q0[a + 1]);
                            assert(queue_entry_ok(f0, q0[a + 1]));
                        }
                    }
                    assert forall|j: int|
                        0 <= j < f0.len() && (#[trigger] f0[j]).id.0 >= 1 && f0[j].pin_count == 0
                        implies q2.contains(f0[j].id) by {
                        assert(q0.contains(f0[j].id));
                    }
                }
                return Err(e);
            }
            proof {
                crate::storage::lemma_pad_page_full(f0[fi as int].data@);
            }
        }
        Ok(fi)
    }
}

impl<DM: DiskManager, R: Replacer> BufferPoolManager for DefaultBufferPoolManager<DM, R> {
    closed spec fn inv(&self) -> bool {
        &&& self.frames@.len() == self.pool_size
        &&& frames_wf(self.frames@)
        &&& self.disk_manager.inv()
        &&& self.disk_manager.next_id() >= 1
        &&& forall|i: int|
            0 <= i < self.frames@.len() && (#[trigger] self.frames@[i]).id.0 >= 1 ==> (
            self.frames@[i].id.0 as nat) < self.disk_manager.next_id()
        &&& self.replacer.inv()
        &&& distinct_pids(self.replacer.queue())
        &&& forall|a: int|
            0 <= a < self.replacer.queue().len() ==> queue_entry_ok(
                self.frames@,
                #[trigger] self.replacer.queue()[a],
            )
        &&& forall|i: int|
            0 <= i < self.frames@.len() && (#[trigger] self.frames@[i]).id.0 >= 1
                && self.frames@[i].pin_count == 0 ==> self.replacer.queue().contains(
                self.frames@[i].id,
            )
    }

    closed spec fn capacity(&self) -> nat {
        self.pool_size as nat
    }

    closed spec fn frames_view(&self) -> Seq<Page> {
        self.frames@
    }

    closed spec fn evictable(&self) -> Seq<PageId> {
        self.replacer.queue()
    }

    closed spec fn stored(&self, id: nat) -> Seq<u8> {
        self.disk_manager.stored(id)
    }

    closed spec fn next_id(&self) -> nat {
        self.disk_manager.next_id()
    }

    proof fn lemma_pinned_not_evictable(&self, id: PageId) {
        if self.replacer.queue().contains(id) {
            let a = choose|a: int|
                0 <= a < self.replacer.queue().len() && self.replacer.queue()[a] == id;
            assert(queue_entry_ok(self.frames@, id));
            let i = choose|i: int|
                0 <= i < self.frames@.len() && (#[trigger] self.frames@[i]).id == id
                    && self.frames@[i].pin_count == 0;
            lemma_frame_of_unique(self.frames@, i);
        }
    }

    fn pool_size(&self) -> (r: usize) {
        self.pool_size
    }

    fn pages(&self) -> (r: &[Page]) {
        self.frames.as_slice()
    }

    fn new_page(&mut self) -> (r: Option<Page>) {
        let ghost f0 = self.frames@;
        let ghost q0 = self.replacer.queue();
        let fi = match self.acquire_frame() {
            Err(_) => {
                return None;
            },
            Ok(fi) => fi,
        };
        let ghost q1 = self.replacer.queue();
        let ghost n1 = self.disk_manager.next_id();
        let id = self.disk_manager.new_page();
        let data = zero_page_vec();
        proof {
            assert(zero_page().len() == PAGE_SIZE);
        }
        self.frames[fi] = Page { id, data, is_dirty: false, pin_count: 1 };
        proof {
            let f2 = self.frames@;
            let nid = id.0 as nat;
            assert(frames_wf(f2)) by {
                assert forall|i: int, j: int|
                    0 <= i < f2.len() && 0 <= j < f2.len() && i != j && (#[trigger] f2[i]).id.0
                        >= 1 && (#[trigger] f2[j]).id.0 >= 1 implies f2[i].id.0 != f2[j].id.0 by {
                    if i == fi as int {
                        assert(f2[j] == f0[j]);
                        assert((f0[j].id.0 as nat) < n1);
                    } else if j == fi as int {
                        assert(f2[i] == f0[i]);
                        assert((f0[i].id.0 as nat) < n1);
                    } else {
                        assert(f2[i] == f0[i] && f2[j] == f0[j]);
                    }
                }
            }
            lemma_frame_of_unique(f2, fi as int);
            assert forall|a: int|
                0 <= a < q1.len() implies queue_entry_ok(f2, #[trigger] q1[a]) by {
                if has_free_frame(f0) {
                    assert(queue_entry_ok(f0, q1[a]));
                    let i = choose|i: int|
                        0 <= i < f0.len() && (#[trigger] f0[i]).id == q1[a] && f0[i].pin_count
                            == 0;
                    assert(i != fi as int);
                    assert(f2[i] == f0[i]);
                } else {
                    assert(q1[a] == q0[a + 1]);
                    assert(queue_entry_ok(f0, q0[a + 1]));
                    assert(q0[a + 1] != q0[0]);
                    let i = choose|i: int|
                        0 <= i < f0.len() && (#[trigger] f0[i]).id == q0[a + 1] && f0[i].pin_count
                            == 0;
                    assert(i != fi as int);
                    assert(f2[i] == f0[i]);
                }
            }
            assert forall|j: int|
                0 <= j < f2.len() && (#[trigger] f2[j]).id.0 >= 1 && f2[j].pin_count == 0 implies
                q1.contains(f2[j].id) by {
                assert(j != fi as int);
                assert(f0[j] == f2[j]);
                assert(q0.contains(f0[j].id));
                if has_free_frame(f0) {
                } else {
                    assert(f0[j].id != f0[fi as int].id);
                    let k = choose|k: int| 0 <= k < q0.len() && q0[k] == f0[j].id;
                    assert(k != 0);
                    assert(q1[k - 1] == f0[j].id);
                }
            }
            assert(!self.replacer.queue().contains(id)) by {
                if q1.contains(id) {
                    let a = choose|a: int| 0 <= a < q1.len() && q1[a] == id;
                    assert(queue_entry_ok(f2, q1[a]));
                    let i = choose|i: int|
                        0 <= i < f2.len() && (#[trigger] f2[i]).id == id && f2[i].pin_count == 0;
                    assert(i == fi as int);
                }
            }
            if has_free_frame(f0) {
                assert(f0[fi as int].id.0 == 0);
                lemma_same_pages_after_update(f0, f2, fi as int, set![nid]);
            } else {
                let vid = q0[0].0 as nat;
                assert(f0[fi as int].id == q0[0]);
                assert(queue_entry_ok(f0, q0[0]));
                assert(nid != vid) by {
                    assert((f0[fi as int].id.0 as nat) < n1);
                }
                assert(!is_resident(f2, vid)) by {
                    if is_resident(f2, vid) {
                        let i = choose|i: int|
                            0 <= i < f2.len() && (#[trigger] f2[i]).id.0 as nat == vid;
                        assert(i != fi as int);
                        assert(f0[i].id.0 == f0[fi as int].id.0);
                    }
                }
                lemma_same_pages_after_update(f0, f2, fi as int, set![nid, vid]);
            }
        }
        Some(Page { id, data: zero_page_vec(), is_dirty: false, pin_count: 1 })
    }

    #[verifier::rlimit(60)]
    fn fetch_page(&mut self, page_id: PageId) -> (r: Result<Page, Error>) {
        let ghost f0 = self.frames@;
        let ghost q0 = self.replacer.queue();
        let pid = Ghost(page_id.0 as nat);
        if let Some(f) = self.find_frame(page_id) {
            let i = f.0;
            proof {
                lemma_frame_of_unique(f0, i as int);
            }
            let pin = self.frames[i].pin_count;
            if pin == 0 {
                self.replacer.pin(page_id);
                proof {
                    lemma_without_id_membership(q0, page_id);
                }
            } else {
                proof {
                    assert(!q0.contains(page_id)) by {
                        if q0.contains(page_id) {
                            assert(queue_entry_ok(f0, page_id));
                            let j = choose|j: int|
                                0 <= j < f0.len() && (#[trigger] f0[j]).id == page_id
                                    && f0[j].pin_count == 0;
                            lemma_frame_of_unique(f0, j);
                        }
                    }
                    lemma_without_id_absent(q0, page_id);
                }
            }
            let ghost q1 = self.replacer.queue();
            let mut p = self.frames.remove(i);
            p.pin_count = pin + 1;
            self.frames.insert(i, p);
            proof {
                let f2 = self.frames@;
                assert(f2 =~= f0.update(i as int, f2[i as int]));
                assert(f2[i as int].id == page_id && f2[i as int].pin_count == pin + 1);
                assert(frames_wf(f2)) by {
                    assert forall|x: int, y: int|
                        0 <= x < f2.len() && 0 <= y < f2.len() && x != y && (#[trigger] f2[x]).id.0
                            >= 1 && (#[trigger] f2[y]).id.0 >= 1 implies f2[x].id.0
                        != f2[y].id.0 by {
                        assert(f2[x].id == f0[x].id && f2[y].id == f0[y].id);
                    }
                }
                lemma_frames_update(f0, f2, i as int);
                lemma_frame_of_unique(f2, i as int);
                lemma_same_pages_after_update(f0, f2, i as int, set![pid@]);
                assert forall|a: int|
                    0 <= a < q1.len() implies queue_entry_ok(f2, #[trigger] q1[a]) by {
                    assert(q1.contains(q1[a]));
                    lemma_without_id_membership(q0, page_id);
                    assert(q1[a] != page_id);
                    assert(q0.contains(q1[a]));
                    let b = choose|b: int| 0 <= b < q0.len() && q0[b] == q1[a];
                    assert(queue_entry_ok(f0, q0[b]));
                    let j = choose|j: int|
                        0 <= j < f0.len() && (#[trigger] f0[j]).id == q1[a] && f0[j].pin_count
                            == 0;
                    assert(j != i as int);
                    assert(f2[j] == f0[j]);
                }
                assert forall|j: int|
                    0 <= j < f2.len() && (#[trigger] f2[j]).id.0 >= 1 && f2[j].pin_count == 0
                    implies q1.contains(f2[j].id) by {
                    assert(j != i as int);
                    assert(f0[j] == f2[j]);
                    assert(q0.contains(f0[j].id));
                    lemma_without_id_membership(q0, page_id);
                    assert(f0[j].id != page_id);
                }
                assert(distinct_pids(q1)) by {
                    lemma_without_id_membership(q0, page_id);
                }
            }
            return Ok(copy_page(&self.frames[i]));
        }
        proof {
            assert(!is_resident(f0, pid@)) by {
                if is_resident(f0, pid@) {
                    let i = choose|i: int|
                        0 <= i < f0.len() && (#[trigger] f0[i]).id.0 as nat == pid@;
                    assert(f0[i].id == page_id);
                }
            }
        }
        let fi = match self.acquire_frame() {
            Err(e) => {
                proof {
                    if !has_free_frame(f0) && q0.len() > 0 {
                        assert(e is InternalIo);
                    }
                    if q0.len() == 0 {
                        assert(!(e is InternalIo));
                        assert(e is PoolExhausted);
                    }
                    assert(!is_resident(self.frames@, pid@));
                }
                return Err(e);
            },
            Ok(fi) => fi,
        };
        let ghost q1 = self.replacer.queue();
        proof {
            if !has_free_frame(f0) {
                assert(is_resident(f0, q0[0].0 as nat)) by {
                    assert(f0[fi as int].id == q0[0]);
                }
                assert(pid@ != q0[0].0 as nat);
            }
        }
        let res = self.disk_manager.read_page(page_id);
        let buf = match res {
            Err(e) => {
                if self.frames[fi].id.0 >= 1 {
                    // the frame still holds the victim: give it back to the
                    // queue, so a failed read leaves every frame as it was
                    let v = self.frames[fi].id;
                    proof {
                        assert(!has_free_frame(f0));
                        assert(v == q0[0]);
                        assert(!q1.contains(v)) by {
                            if q1.contains(v) {
                                let k = choose|k: int| 0 <= k < q1.len() && q1[k] == v;
                                assert(q0[k + 1] == v && q0[0] == v);
                            }
                        }
                        lemma_without_id_absent(q1, v);
                    }
                    self.replacer.unpin(v);
                    proof {
                        let q2 = self.replacer.queue();
                        assert(q2 == q1.push(v));
                        assert(same_members(q0, q2)) by {
                            assert forall|p: PageId| #[trigger]
                                q2.contains(p) <==> q0.contains(p) by {
                                if q2.contains(p) {
                                    let k = choose|k: int| 0 <= k < q2.len() && q2[k] == p;
                                    if k == q2.len() - 1 {
                                        assert(q0[0] == p);
                                    } else {
                                        assert(q0[k + 1] == p);
                                    }
                                }
                                if q0.contains(p) {
                                    let k = choose|k: int| 0 <= k < q0.len() && q0[k] == p;
                                    if k == 0 {
                                        assert(q2[q2.len() - 1] == p);
                                    } else {
                                        assert(q2[k - 1] == p);
                                    }
                                }
                            }
                        }
                        assert(distinct_pids(q2)) by {
                            assert forall|a: int, b: int|
                                0 <= a < b < q2.len() implies q2[a] != q2[b] by {
                                if b == q2.len() - 1 {
                                    if q2[a] == v {
                                        assert(q1[a] == v);
                                    }
                                } else {
                                    assert(q2[a] == q1[a] && q2[b] == q1[b]);
                                }
                            }
                        }
                        assert forall|a: int|
                            0 <= a < q2.len() implies queue_entry_ok(
                            self.frames@,
                            #[trigger] q2[a],
                        ) by {
                            if a == q2.len() - 1 {
                                assert(q2[a] == v);
                                assert(queue_entry_ok(f0, q0[0]));
                            } else {
                                assert(q2[a] == q0[a + 1]);
                                assert(queue_entry_ok(f0, q0[a + 1]));
                            }
                        }
                        assert forall|j: int|
                            0 <= j < self.frames@.len() && (#[trigger] self.frames@[j]).id.0 >= 1
                                && self.frames@[j].pin_count == 0 implies q2.contains(
                            self.frames@[j].id,
                        ) by {
                            assert(q0.contains(self.frames@[j].id));
                        }
                    }
                }
                proof {
                    assert(!is_resident(self.frames@, pid@));
                    if has_free_frame(f0) {
                        assert(self.frames@ == f0);
                        assert(same_members(q0, self.replacer.queue()));
                    }
                }
                return Err(e);
            },
            Ok(buf) => buf,
        };
        self.frames[fi] = Page { id: page_id, data: buf, is_dirty: false, pin_count: 1 };
        proof {
            let f2 = self.frames@;
            assert(frames_wf(f2)) by {
                assert forall|x: int, y: int|
                    0 <= x < f2.len() && 0 <= y < f2.len() && x != y && (#[trigger] f2[x]).id.0
                        >= 1 && (#[trigger] f2[y]).id.0 >= 1 implies f2[x].id.0 != f2[y].id.0 by {
                    if x == fi as int {
                        assert(f2[y] == f0[y]);
                        if f0[y].id.0 as nat == pid@ {
                            assert(is_resident(f0, pid@));
                        }
                    } else if y == fi as int {
                        assert(f2[x] == f0[x]);
                        if f0[x].id.0 as nat == pid@ {
                            assert(is_resident(f0, pid@));
                        }
                    } else {
                        assert(f2[x] == f0[x] && f2[y] == f0[y]);
                    }
                }
            }
            lemma_frame_of_unique(f2, fi as int);
            assert forall|a: int|
                0 <= a < q1.len() implies queue_entry_ok(f2, #[trigger] q1[a]) by {
                if has_free_frame(f0) {
                    assert(queue_entry_ok(f0, q1[a]));
                    let j = choose|j: int|
                        0 <= j < f0.len() && (#[trigger] f0[j]).id == q1[a] && f0[j].pin_count
                            == 0;
                    assert(j != fi as int);
                    assert(f2[j] == f0[j]);
                } else {
                    assert(q1[a] == q0[a + 1]);
                    assert(queue_entry_ok(f0, q0[a + 1]));
                    assert(q0[a + 1] != q0[0]);
                    let j = choose|j: int|
                        0 <= j < f0.len() && (#[trigger] f0[j]).id == q0[a + 1] && f0[j].pin_count
                            == 0;
                    assert(j != fi as int);
                    assert(f2[j] == f0[j]);
                }
            }
            assert forall|j: int|
                0 <= j < f2.len() && (#[trigger] f2[j]).id.0 >= 1 && f2[j].pin_count == 0 implies
                q1.contains(f2[j].id) by {
                assert(j != fi as int);
                assert(f0[j] == f2[j]);
                assert(q0.contains(f0[j].id));
                if has_free_frame(f0) {
                } else {
                    assert(f0[j].id != f0[fi as int].id);
                    let k = choose|k: int| 0 <= k < q0.len() && q0[k] == f0[j].id;
                    assert(k != 0);
                    assert(q1[k - 1] == f0[j].id);
                }
            }
            assert(!self.replacer.queue().contains(page_id)) by {
                if q1.contains(page_id) {
                    let a = choose|a: int| 0 <= a < q1.len() && q1[a] == page_id;
                    assert(queue_entry_ok(f2, q1[a]));
                    let j = choose|j: int|
                        0 <= j < f2.len() && (#[trigger] f2[j]).id == page_id && f2[j].pin_count
                            == 0;
                    assert(j == fi as int);
                }
            }
            if has_free_frame(f0) {
                assert(f0[fi as int].id.0 == 0);
                lemma_same_pages_after_update(f0, f2, fi as int, set![pid@]);
            } else {
                let vid = q0[0].0 as nat;
                assert(f0[fi as int].id == q0[0]);
                assert(!is_resident(f2, vid)) by {
                    if is_resident(f2, vid) {
                        let i2 = choose|i2: int|
                            0 <= i2 < f2.len() && (#[trigger] f2[i2]).id.0 as nat == vid;
                        assert(i2 != fi as int);
                        assert(f0[i2].id.0 == f0[fi as int].id.0);
                    }
                }
                lemma_same_pages_after_update(f0, f2, fi as int, set![pid@, vid]);
            }
        }
        Ok(copy_page(&self.frames[fi]))
    }

    fn unpin_page(&mut self, page_id: PageId, is_dirty: bool) -> (r: bool) {
        let ghost f0 = self.frames@;
        let ghost q0 = self.replacer.queue();
        let ghost pid = page_id.0 as nat;
        if page_id.0 == 0 {
            return false;
        }
        let i = match self.find_frame(page_id) {
            None => {
                proof {
                    if is_resident(f0, pid) {
                        let j = choose|j: int|
                            0 <= j < f0.len() && (#[trigger] f0[j]).id.0 as nat == pid;
                        assert(f0[j].id == page_id);
                    }
                }
                return false;
            },
            Some(f) => f.0,
        };
        proof {
            lemma_frame_of_unique(f0, i as int);
        }
        let pin = self.frames[i].pin_count;
        if pin == 0 {
            return false;
        }
        let mut p = self.frames.remove(i);
        p.pin_count = pin - 1;
        if is_dirty {
            p.is_dirty = true;
        }
        self.frames.insert(i, p);
        proof {
            let f2 = self.frames@;
            assert(f2 =~= f0.update(i as int, f2[i as int]));
            assert(f2[i as int].id == page_id && f2[i as int].pin_count == pin - 1);
            assert(f2[i as int].data@ == f0[i as int].data@);
            assert(frames_wf(f2)) by {
                assert forall|x: int, y: int|
                    0 <= x < f2.len() && 0 <= y < f2.len() && x != y && (#[trigger] f2[x]).id.0
                        >= 1 && (#[trigger] f2[y]).id.0 >= 1 implies f2[x].id.0 != f2[y].id.0 by {
                    assert(f2[x].id == f0[x].id && f2[y].id == f0[y].id);
                }
            }
            lemma_frames_update(f0, f2, i as int);
            lemma_frame_of_unique(f2, i as int);
            assert(!q0.contains(page_id)) by {
                if q0.contains(page_id) {
                    assert(queue_entry_ok(f0, page_id));
                    let j = choose|j: int|
                        0 <= j < f0.len() && (#[trigger] f0[j]).id == page_id && f0[j].pin_count
                            == 0;
                    lemma_frame_of_unique(f0, j);
                }
            }
            lemma_same_pages_after_update(f0, f2, i as int, set![pid]);
        }
        if pin == 1 {
            proof {
                lemma_without_id_absent(q0, page_id);
            }
            self.replacer.unpin(page_id);
            proof {
                let q2 = self.replacer.queue();
                let f2 = self.frames@;
                assert(q2 == q0.push(page_id));
                assert(distinct_pids(q2)) by {
                    assert forall|a: int, b: int|
                        0 <= a < b < q2.len() implies q2[a] != q2[b] by {
                        if b == q2.len() - 1 {
                            if q2[a] == page_id {
                                assert(q0[a] == page_id);
                            }
                        } else {
                            assert(q2[a] == q0[a] && q2[b] == q0[b]);
                        }
                    }
                }
                assert forall|a: int|
                    0 <= a < q2.len() implies queue_entry_ok(f2, #[trigger] q2[a]) by {
                    if a == q2.len() - 1 {
                        assert(q2[a] == page_id);
                        assert(f2[i as int].id == page_id && f2[i as int].pin_count == 0);
                    } else {
                        assert(q2[a] == q0[a]);
                        assert(queue_entry_ok(f0, q0[a]));
                        let j = choose|j: int|
                            0 <= j < f0.len() && (#[trigger] f0[j]).id == q0[a] && f0[j].pin_count
                                == 0;
                        assert(j != i as int);
                        assert(f2[j] == f0[j]);
                    }
                }
                assert forall|j: int|
                    0 <= j < f2.len() && (#[trigger] f2[j]).id.0 >= 1 && f2[j].pin_count == 0
                    implies q2.contains(f2[j].id) by {
                    if j == i as int {
                        assert(q2[q2.len() - 1] == page_id);
                    } else {
                        assert(f0[j] == f2[j]);
                        assert(q0.contains(f0[j].id));
                        let k = choose|k: int| 0 <= k < q0.len() && q0[k] == f0[j].id;
                        assert(q2[k] == f0[j].id);
                    }
                }
            }
        } else {
            proof {
                let q2 = self.replacer.queue();
                let f2 = self.frames@;
                assert(q2 == q0);
                assert forall|a: int|
                    0 <= a < q2.len() implies queue_entry_ok(f2, #[trigger] q2[a]) by {
                    assert(queue_entry_ok(f0, q0[a]));
                    let j = choose|j: int|
                        0 <= j < f0.len() && (#[trigger] f0[j]).id == q0[a] && f0[j].pin_count
                            == 0;
                    assert(j != i as int);
                    assert(f2[j] == f0[j]);
                }
                assert forall|j: int|
                    0 <= j < f2.len() && (#[trigger] f2[j]).id.0 >= 1 && f2[j].pin_count == 0
                    implies q2.contains(f2[j].id) by {
                    assert(j != i as int);
                    assert(f0[j] == f2[j]);
                }
            }
        }
        true
    }

    fn flush_page(&mut self, page_id: PageId) -> (r: bool) {
        let ghost f0 = self.frames@;
        let ghost q0 = self.replacer.queue();
        let ghost pid = page_id.0 as nat;
        if page_id.0 == 0 {
            return false;
        }
        let i = match self.find_frame(page_id) {
            None => {
                proof {
                    if is_resident(f0, pid) {
                        let j = choose|j: int|
                            0 <= j < f0.len() && (#[trigger] f0[j]).id.0 as nat == pid;
                        assert(f0[j].id == page_id);
                    }
                }
                return false;
            },
            Some(f) => f.0,
        };
        proof {
            lemma_frame_of_unique(f0, i as int);
        }
        let res = self.disk_manager.write_page(page_id, self.frames[i].data.as_slice());
        match res {
            Err(_) => false,
            Ok(()) => {
                proof {
                    crate::storage::lemma_pad_page_full(f0[i as int].data@);
                }
                let mut p = self.frames.remove(i);
                p.is_dirty = false;
                self.frames.insert(i, p);
                proof {
                    let f2 = self.frames@;
                    assert(f2 =~= f0.update(i as int, f2[i as int]));
                    assert(f2[i as int].id == page_id && f2[i as int].pin_count == f0[
                        i as int
                    ].pin_count && f2[i as int].data@ == f0[i as int].data@ && !f2[
                        i as int
                    ].is_dirty);
                    assert(frames_wf(f2)) by {
                        assert forall|x: int, y: int|
                            0 <= x < f2.len() && 0 <= y < f2.len() && x != y && (
                            #[trigger] f2[x]).id.0 >= 1 && (#[trigger] f2[y]).id.0 >= 1 implies
                            f2[x].id.0 != f2[y].id.0 by {
                            assert(f2[x].id == f0[x].id && f2[y].id == f0[y].id);
                        }
                    }
                    lemma_frames_update(f0, f2, i as int);
                    lemma_frame_of_unique(f2, i as int);
                    lemma_same_pages_after_update(f0, f2, i as int, set![pid]);
                    assert forall|a: int|
                        0 <= a < q0.len() implies queue_entry_ok(f2, #[trigger] q0[a]) by {
                        assert(queue_entry_ok(f0, q0[a]));
                        let j = choose|j: int|
                            0 <= j < f0.len() && (#[trigger] f0[j]).id == q0[a] && f0[j].pin_count
                                == 0;
                        if j == i as int {
                            assert(f2[j].id == q0[a] && f2[j].pin_count == 0);
                        } else {
                            assert(f2[j] == f0[j]);
                        }
                    }
                    assert forall|j: int|
                        0 <= j < f2.len() && (#[trigger] f2[j]).id.0 >= 1 && f2[j].pin_count == 0
                        implies q0.contains(f2[j].id) by {
                        assert(f2[j].id == f0[j].id && f2[j].pin_count == f0[j].pin_count);
                    }
                }
                true
            },
        }
    }

    fn delete_page(&mut self, page_id: PageId) -> (r: bool) {
        let ghost f0 = self.frames@;
        let ghost q0 = self.replacer.queue();
        let ghost pid = page_id.0 as nat;
        if page_id.0 == 0 {
            return true;
        }
        let i = match self.find_frame(page_id) {
            None => {
                proof {
                    if is_resident(f0, pid) {
                        let j = choose|j: int|
                            0 <= j < f0.len() && (#[trigger] f0[j]).id.0 as nat == pid;
                        assert(f0[j].id == page_id);
                    }
                }
                return true;
            },
            Some(f) => f.0,
        };
        proof {
            lemma_frame_of_unique(f0, i as int);
        }
        if self.frames[i].pin_count > 0 {
            return false;
        }
        self.replacer.pin(page_id);
        proof {
            lemma_without_id_membership(q0, page_id);
        }
        let ghost q1 = self.replacer.queue();
        self.frames[i] = empty_frame();
        proof {
            let f2 = self.frames@;
            assert(frames_wf(f2)) by {
                assert forall|x: int, y: int|
                    0 <= x < f2.len() && 0 <= y < f2.len() && x != y && (#[trigger] f2[x]).id.0
                        >= 1 && (#[trigger] f2[y]).id.0 >= 1 implies f2[x].id.0 != f2[y].id.0 by {
                    assert(f2[x] == f0[x] && f2[y] == f0[y]);
                }
            }
            lemma_frames_update(f0, f2, i as int);
            assert(!is_resident(f2, pid)) by {
                if is_resident(f2, pid) {
                    let j = choose|j: int|
                        0 <= j < f2.len() && (#[trigger] f2[j]).id.0 as nat == pid;
                    assert(j != i as int);
                    assert(f0[j].id.0 as nat == pid && f0[i as int].id.0 as nat == pid);
                }
            }
            lemma_same_pages_after_update(f0, f2, i as int, set![pid]);
            assert forall|a: int|
                0 <= a < q1.len() implies queue_entry_ok(f2, #[trigger] q1[a]) by {
                assert(q1.contains(q1[a]));
                assert(q1[a] != page_id);
                assert(q0.contains(q1[a]));
                let b = choose|b: int| 0 <= b < q0.len() && q0[b] == q1[a];
                assert(queue_entry_ok(f0, q0[b]));
                let j = choose|j: int|
                    0 <= j < f0.len() && (#[trigger] f0[j]).id == q1[a] && f0[j].pin_count == 0;
                assert(j != i as int);
                assert(f2[j] == f0[j]);
            }
            assert forall|j: int|
                0 <= j < f2.len() && (#[trigger] f2[j]).id.0 >= 1 && f2[j].pin_count == 0 implies
                q1.contains(f2[j].id) by {
                assert(j != i as int);
                assert(f0[j] == f2[j]);
                assert(q0.contains(f0[j].id));
                assert(f0[j].id != page_id);
            }
            assert(has_free_frame(f2)) by {
                assert(f2[i as int].id.0 == 0);
            }
        }
        true
    }

    #[verifier::loop_isolation(false)]
    #[verifier::rlimit(30)]
    fn flush_all(&mut self) -> (r: Result<(), Error>) {
        let ghost b0 = *self;
        let ghost f0 = b0.frames@;
        let mut first_err: Option<Error> = None;
        let n = self.frames.len();
        let mut i: usize = 0;
        while i < n
            invariant
                self.inv(),
                n == self.frames@.len(),
                f0.len() == n,
                frames_wf(f0),
                i <= n,
                self.pool_size == b0.pool_size,
                self.replacer.queue() == b0.replacer.queue(),
                self.disk_manager.next_id() == b0.disk_manager.next_id(),
                forall|j: int|
                    0 <= j < n ==> (#[trigger] self.frames@[j]).id == f0[j].id
                        && self.frames@[j].pin_count == f0[j].pin_count && self.frames@[j].data@
                        == f0[j].data@,
                forall|j: int|
                    0 <= j < n ==> ((#[trigger] self.frames@[j]).is_dirty ==> f0[j].is_dirty),
                forall|j: int|
                    i <= j < n ==> (#[trigger] self.frames@[j]).is_dirty == f0[j].is_dirty,
                forall|j: int|
                    0 <= j < n && !(#[trigger] self.frames@[j]).is_dirty && f0[j].is_dirty
                        ==> self.disk_manager.stored(f0[j].id.0 as nat) == f0[j].data@,
                first_err is None ==> forall|j: int|
                    0 <= j < i && (#[trigger] f0[j]).id.0 >= 1 ==> !self.frames@[j].is_dirty,
                (forall|j: int|
                    0 <= j < n ==> !((#[trigger] f0[j]).id.0 >= 1 && f0[j].is_dirty))
                    ==> first_err is None,
                forall|k: nat|
                    !(is_resident(f0, k) && dirty_of(f0, k)) ==> #[trigger]
                        self.disk_manager.stored(k) == b0.disk_manager.stored(k),
                first_err matches Some(e) ==> e is InternalIo,
            decreases n - i,
        {
            if self.frames[i].id.0 >= 1 && self.frames[i].is_dirty {
                let pid = self.frames[i].id;
                proof {
                    lemma_frame_of_unique(self.frames@, i as int);
                    lemma_frame_of_unique(f0, i as int);
                    assert(is_resident(f0, pid.0 as nat) && dirty_of(f0, pid.0 as nat));
                }
                let res = self.disk_manager.write_page(pid, self.frames[i].data.as_slice());
                match res {
                    Ok(()) => {
                        proof {
                            crate::storage::lemma_pad_page_full(f0[i as int].data@);
                        }
                        let ghost fpre = self.frames@;
                        let ghost q0 = self.replacer.queue();
                        let mut p = self.frames.remove(i);
                        p.is_dirty = false;
                        self.frames.insert(i, p);
                        proof {
                            let f2 = self.frames@;
                            assert(f2 =~= fpre.update(i as int, f2[i as int]));
                            assert(frames_wf(f2)) by {
                                assert forall|x: int, y: int|
                                    0 <= x < f2.len() && 0 <= y < f2.len() && x != y && (
                                    #[trigger] f2[x]).id.0 >= 1 && (#[trigger] f2[y]).id.0 >= 1
                                    implies f2[x].id.0 != f2[y].id.0 by {
                                    assert(f2[x].id == fpre[x].id && f2[y].id == fpre[y].id);
                                }
                            }
                            assert forall|a: int|
                                0 <= a < q0.len() implies queue_entry_ok(
                                f2,
                                #[trigger] q0[a],
                            ) by {
                                assert(queue_entry_ok(fpre, q0[a]));
                                let j = choose|j: int|
                                    0 <= j < fpre.len() && (#[trigger] fpre[j]).id == q0[a]
                                        && fpre[j].pin_count == 0;
                                assert(f2[j].id == fpre[j].id && f2[j].pin_count == fpre[
                                    j
                                ].pin_count);
                            }
                            assert forall|j: int|
                                0 <= j < f2.len() && (#[trigger] f2[j]).id.0 >= 1
                                    && f2[j].pin_count == 0 implies q0.contains(f2[j].id) by {
                                assert(f2[j].id == fpre[j].id && f2[j].pin_count == fpre[
                                    j
                                ].pin_count);
                            }
                        }
                    },
                    Err(e) => {
                        if first_err.is_none() {
                            first_err = Some(e);
                        }
                    },
                }
            }
            i = i + 1;
        }
        proof {
            let f2 = self.frames@;
            assert forall|id: nat| #[trigger]
                is_resident(f2, id) == is_resident(f0, id) by {
                if is_resident(f0, id) {
                    let j = choose|j: int|
                        0 <= j < f0.len() && (#[trigger] f0[j]).id.0 as nat == id;
                    assert(f2[j].id.0 as nat == id);
                }
                if is_resident(f2, id) {
                    let j = choose|j: int|
                        0 <= j < f2.len() && (#[trigger] f2[j]).id.0 as nat == id;
                    assert(f0[j].id.0 as nat == id);
                }
            }
            assert forall|id: nat|
                is_resident(f0, id) implies #[trigger] pin_of(f2, id) == pin_of(f0, id)
                && data_of(f2, id) == data_of(f0, id) && (dirty_of(f2, id) ==> dirty_of(f0, id))
                && (dirty_of(f0, id) && !dirty_of(f2, id) ==> self.disk_manager.stored(id)
                == data_of(f0, id)) by {
                let j = choose|j: int| 0 <= j < f0.len() && (#[trigger] f0[j]).id.0 as nat == id;
                lemma_frame_of_unique(f0, j);
                lemma_frame_of_unique(f2, j);
            }
            assert forall|id: nat|
                is_resident(f0, id) && #[trigger] dirty_of(f2, id) implies dirty_of(f0, id) by {
                let j = choose|j: int| 0 <= j < f0.len() && (#[trigger] f0[j]).id.0 as nat == id;
                lemma_frame_of_unique(f0, j);
                lemma_frame_of_unique(f2, j);
            }
            assert forall|id: nat|
                is_resident(f0, id) && dirty_of(f0, id) && !(#[trigger] dirty_of(f2, id))
                implies self.disk_manager.stored(id) == data_of(f0, id) by {
                let j = choose|j: int| 0 <= j < f0.len() && (#[trigger] f0[j]).id.0 as nat == id;
                lemma_frame_of_unique(f0, j);
                lemma_frame_of_unique(f2, j);
            }
            assert((forall|id: nat|
                is_resident(b0.frames_view(), id) ==> !(#[trigger] dirty_of(
                    b0.frames_view(),
                    id,
                ))) ==> first_err is None) by {
                if forall|id: nat|
                    is_resident(b0.frames_view(), id) ==> !(#[trigger] dirty_of(
                        b0.frames_view(),
                        id,
                    )) {
                    assert forall|j: int|
                        0 <= j < f0.len() implies !((#[trigger] f0[j]).id.0 >= 1
                        && f0[j].is_dirty) by {
                        if f0[j].id.0 >= 1 && f0[j].is_dirty {
                            lemma_frame_of_unique(f0, j);
                            assert(is_resident(b0.frames_view(), f0[j].id.0 as nat));
                            assert(dirty_of(b0.frames_view(), f0[j].id.0 as nat));
                        }
                    }
                    assert(first_err is None);
                }
            }
            if first_err is None {
                assert forall|id: nat|
                    is_resident(f0, id) implies !(#[trigger] dirty_of(f2, id)) by {
                    let j = choose|j: int|
                        0 <= j < f0.len() && (#[trigger] f0[j]).id.0 as nat == id;
                    lemma_frame_of_unique(f2, j);
                }
            }
        }
        match first_err {
            None => Ok(()),
            Some(e) => Err(e),
        }
    }
}

} // verus!
