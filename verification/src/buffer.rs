use vstd::prelude::*;

use crate::error::Error;
use crate::storage::{zero_page, Page, PageId, PAGE_SIZE};

pub mod buffer_pool;

verus! {

/// Index of a frame within the buffer pool's frame array.
#[derive(Debug, Copy, Clone, Eq, PartialEq, Structural)]
pub struct FrameId(pub usize);

/// Default number of frames in a buffer pool.
pub const POOL_SIZE: usize = 1024;

/// A frame is occupied when it holds a page; identifier `0` marks an
/// empty frame, since real identifiers are strictly positive.
pub open spec fn is_resident(frames: Seq<Page>, id: nat) -> bool {
    id >= 1 && exists|i: int| 0 <= i < frames.len() && (#[trigger] frames[i]).id.0 as nat == id
}

/// The index of the frame holding page `id` (meaningful only when the
/// page is resident and frames are well formed, which makes it unique).
pub open spec fn frame_of(frames: Seq<Page>, id: nat) -> int {
    choose|i: int| 0 <= i < frames.len() && (#[trigger] frames[i]).id.0 as nat == id
}

/// Pin count of resident page `id`.
pub open spec fn pin_of(frames: Seq<Page>, id: nat) -> nat {
    frames[frame_of(frames, id)].pin_count as nat
}

/// Dirty flag of resident page `id`.
pub open spec fn dirty_of(frames: Seq<Page>, id: nat) -> bool {
    frames[frame_of(frames, id)].is_dirty
}

/// Buffered bytes of resident page `id`.
pub open spec fn data_of(frames: Seq<Page>, id: nat) -> Seq<u8> {
    frames[frame_of(frames, id)].data@
}

/// Whether some frame is unoccupied.
pub open spec fn has_free_frame(frames: Seq<Page>) -> bool {
    exists|i: int| 0 <= i < frames.len() && (#[trigger] frames[i]).id.0 == 0
}

/// Well-formedness of a frame array: every buffer holds exactly one page
/// worth of bytes, empty frames are unpinned and clean, and no page
/// occupies two frames.
pub open spec fn frames_wf(frames: Seq<Page>) -> bool {
    &&& forall|i: int| 0 <= i < frames.len() ==> (#[trigger] frames[i]).data@.len() == PAGE_SIZE
    &&& forall|i: int|
        0 <= i < frames.len() && (#[trigger] frames[i]).id.0 == 0 ==> frames[i].pin_count == 0
            && !frames[i].is_dirty
    &&& forall|i: int, j: int|
        0 <= i < frames.len() && 0 <= j < frames.len() && i != j && (#[trigger] frames[i]).id.0
            >= 1 && (#[trigger] frames[j]).id.0 >= 1 ==> frames[i].id.0 != frames[j].id.0
}

/// With well-formed frames, the frame found at `i` is the unique frame of
/// its page, so the `frame_of` witness is `i` itself.
pub proof fn lemma_frame_of_unique(frames: Seq<Page>, i: int)
    requires
        frames_wf(frames),
        0 <= i < frames.len(),
        frames[i].id.0 >= 1,
    ensures
        is_resident(frames, frames[i].id.0 as nat),
        frame_of(frames, frames[i].id.0 as nat) == i,
{
    let id = frames[i].id.0 as nat;
    assert(is_resident(frames, id));
    let j = frame_of(frames, id);
    assert(0 <= j < frames.len() && frames[j].id.0 as nat == id);
}

/// No two elements repeat.
pub open spec fn distinct_pids(q: Seq<PageId>) -> bool {
    forall|a: int, b: int| 0 <= a < b < q.len() ==> q[a] != q[b]
}

/// `q` with the first occurrence of `id` (if any) removed.
pub open spec fn without_id(q: Seq<PageId>, id: PageId) -> Seq<PageId>
    decreases q.len(),
{
    if q.len() == 0 {
        Seq::empty()
    } else if q[0] == id {
        q.drop_first()
    } else {
        seq![q[0]] + without_id(q.drop_first(), id)
    }
}

/// Removing an absent element changes nothing.
pub proof fn lemma_without_id_absent(q: Seq<PageId>, id: PageId)
    requires
        !q.contains(id),
    ensures
        without_id(q, id) == q,
    decreases q.len(),
{
    if q.len() == 0 {
        assert(without_id(q, id) =~= q);
    } else {
        assert(q[0] != id);
        assert(!q.drop_first().contains(id)) by {
            if q.drop_first().contains(id) {
                let k = choose|k: int| 0 <= k < q.drop_first().len() && q.drop_first()[k] == id;
                assert(q[k + 1] == id);
            }
        }
        lemma_without_id_absent(q.drop_first(), id);
        assert(without_id(q, id) =~= q);
    }
}

/// On a duplicate-free sequence, removing `id` removes exactly the one
/// position holding it.
pub proof fn lemma_without_id_at(q: Seq<PageId>, id: PageId, a: int)
    requires
        distinct_pids(q),
        0 <= a < q.len(),
        q[a] == id,
    ensures
        without_id(q, id) == q.remove(a),
    decreases q.len(),
{
    if a == 0 {
        assert(without_id(q, id) =~= q.remove(0));
    } else {
        assert(q[0] != id);
        assert(distinct_pids(q.drop_first())) by {
            assert forall|x: int, y: int|
                0 <= x < y < q.drop_first().len() implies q.drop_first()[x] != q.drop_first()[y] by {
                assert(q[x + 1] != q[y + 1]);
            }
        }
        assert(q.drop_first()[a - 1] == id);
        lemma_without_id_at(q.drop_first(), id, a - 1);
        assert(without_id(q, id) =~= q.remove(a));
    }
}

/// Membership and shape facts about removal from a duplicate-free
/// sequence: the removed element is gone, everything else stays, and the
/// result is duplicate-free again.
pub proof fn lemma_without_id_membership(q: Seq<PageId>, id: PageId)
    requires
        distinct_pids(q),
    ensures
        !without_id(q, id).contains(id),
        forall|x: PageId| x != id ==> (#[trigger] without_id(q, id).contains(x) <==> q.contains(x)),
        distinct_pids(without_id(q, id)),
        q.contains(id) ==> without_id(q, id).len() == q.len() - 1,
        !q.contains(id) ==> without_id(q, id) == q,
{
    if q.contains(id) {
        let a = choose|a: int| 0 <= a < q.len() && q[a] == id;
        lemma_without_id_at(q, id, a);
        let w = q.remove(a);
        assert forall|x: PageId| x != id implies (#[trigger] w.contains(x) <==> q.contains(x)) by {
            if w.contains(x) {
                let k = choose|k: int| 0 <= k < w.len() && w[k] == x;
                if k < a {
                    assert(q[k] == x);
                } else {
                    assert(q[k + 1] == x);
                }
            }
            if q.contains(x) {
                let k = choose|k: int| 0 <= k < q.len() && q[k] == x;
                if k < a {
                    assert(w[k] == x);
                } else {
                    assert(k > a);
                    assert(w[k - 1] == x);
                }
            }
        }
        assert(!w.contains(id)) by {
            if w.contains(id) {
                let k = choose|k: int| 0 <= k < w.len() && w[k] == id;
                if k < a {
                    assert(q[k] == id && q[a] == id);
                } else {
                    assert(q[k + 1] == id && q[a] == id);
                }
            }
        }
        assert(distinct_pids(w)) by {
            assert forall|x: int, y: int| 0 <= x < y < w.len() implies w[x] != w[y] by {
                let qx: int = if x < a { x } else { x + 1 };
                let qy: int = if y < a { y } else { y + 1 };
                assert(w[x] == q[qx] && w[y] == q[qy]);
            }
        }
    } else {
        lemma_without_id_absent(q, id);
    }
}

/// The replacement policy: the set of currently evictable pages, in the
/// order victims will be drawn (head first).
///
/// The least-recently-used variant keeps the queue ordered by the moment
/// a page last became evictable; other policies (clock, least frequently
/// used) are alternative implementations of this same contract with a
/// different order.
pub trait Replacer: Sized {
    /// Internal consistency of the policy's bookkeeping.
    spec fn inv(&self) -> bool;

    /// The evictable pages, best victim first.
    spec fn queue(&self) -> Seq<PageId>;

    /// Removes and returns the best victim, or `None` when no page is
    /// evictable.
    fn remove(&mut self) -> (r: Option<PageId>)
        requires
            old(self).inv(),
        ensures
            final(self).inv(),
            old(self).queue().len() == 0 ==> r is None && final(self).queue() == old(self).queue(),
            old(self).queue().len() > 0 ==> r == Some(old(self).queue()[0]) && final(self).queue()
                == old(self).queue().drop_first(),
    ;

    /// Withdraws `page_id` from the evictable set; a no-op if absent.
    fn pin(&mut self, page_id: PageId)
        requires
            old(self).inv(),
        ensures
            final(self).inv(),
            final(self).queue() == without_id(old(self).queue(), page_id),
    ;

    /// Registers `page_id` as evictable, stamped as the most recently
    /// released page: it moves to the back of the victim order.
    fn unpin(&mut self, page_id: PageId)
        requires
            old(self).inv(),
        ensures
            final(self).inv(),
            final(self).queue() == without_id(old(self).queue(), page_id).push(page_id),
    ;

    /// How many pages are currently evictable.
    fn available(&self) -> (r: usize)
        ensures
            r as nat == self.queue().len(),
    ;
}

/// Least-recently-used ordering law: unpinning three pages in the order
/// `p1`, `p2`, `p3` into an empty evictable set queues them in exactly
/// that order, so successive victim choices return `p1`, then `p2`, then
/// `p3`, and then nothing is left.  Each unpin acts as
/// [`Replacer::unpin`] ensures; each choice takes the head as
/// [`Replacer::remove`] ensures.
pub proof fn lemma_lru_order(p1: PageId, p2: PageId, p3: PageId)
    requires
        p1 != p2,
        p1 != p3,
        p2 != p3,
    ensures
        ({
            let q = without_id(
                without_id(without_id(Seq::empty(), p1).push(p1), p2).push(p2),
                p3,
            ).push(p3);
            &&& q.len() == 3
            &&& q[0] == p1
            &&& q.drop_first()[0] == p2
            &&& q.drop_first().drop_first()[0] == p3
            &&& q.drop_first().drop_first().drop_first().len() == 0
        }),
{
    let q0 = Seq::<PageId>::empty();
    assert(!q0.contains(p1));
    lemma_without_id_absent(q0, p1);
    let q1 = q0.push(p1);
    assert(!q1.contains(p2)) by {
        if q1.contains(p2) {
            let k = choose|k: int| 0 <= k < q1.len() && q1[k] == p2;
            assert(q1[k] == p1);
        }
    }
    lemma_without_id_absent(q1, p2);
    let q2 = q1.push(p2);
    assert(!q2.contains(p3)) by {
        if q2.contains(p3) {
            let k = choose|k: int| 0 <= k < q2.len() && q2[k] == p3;
            assert(q2[k] == p1 || q2[k] == p2);
        }
    }
    lemma_without_id_absent(q2, p3);
    let q = q2.push(p3);
    assert(q[0] == p1);
    assert(q.drop_first()[0] == p2);
    assert(q.drop_first().drop_first()[0] == p3);
}


/// Pages other than those in `except` keep their residency, pin count,
/// dirty flag and buffered bytes between the frame arrays `f0` and `f1`.
pub open spec fn same_pages_except(f0: Seq<Page>, f1: Seq<Page>, except: Set<nat>) -> bool {
    forall|id: nat|
        #![trigger is_resident(f0, id)]
        #![trigger is_resident(f1, id)]
        !except.contains(id) ==> {
            &&& is_resident(f1, id) == is_resident(f0, id)
            &&& (is_resident(f0, id) ==> pin_of(f1, id) == pin_of(f0, id) && dirty_of(f1, id)
                == dirty_of(f0, id) && data_of(f1, id) == data_of(f0, id))
        }
}

/// The two sequences hold the same pages (their order may differ).
pub open spec fn same_members(q0: Seq<PageId>, q1: Seq<PageId>) -> bool {
    forall|p: PageId|
        #![trigger q0.contains(p)]
        #![trigger q1.contains(p)]
        q1.contains(p) <==> q0.contains(p)
}

/// The head of victim queue `q0` was evicted: it left its frame and the
/// queue.  (Its flush to the store, when dirty, is stated where this is
/// used, since the store is not part of the frame state.)
pub open spec fn evicted_head(f0: Seq<Page>, q0: Seq<PageId>, f1: Seq<Page>, q1: Seq<PageId>) -> bool {
    &&& q0.len() > 0
    &&& !is_resident(f1, q0[0].0 as nat)
    &&& q1 == q0.drop_first()
}

/// The buffer pool: a fixed set of frames caching pages of a durable
/// store, together with the page table mapping identifiers to frames and
/// a replacement policy choosing eviction victims.
///
/// The observable state is the frame array (`frames_view`), the victim
/// queue (`evictable`), and the underlying store (`stored`, `next_id`).
pub trait BufferPoolManager: Sized {
    /// Internal consistency: frames well formed, the evictable set
    /// holding exactly the resident pages with pin count zero, and the
    /// collaborators' own invariants.
    spec fn inv(&self) -> bool;

    /// Number of frames in the pool.
    spec fn capacity(&self) -> nat;

    /// The frame array; an entry with identifier `0` is an empty frame.
    spec fn frames_view(&self) -> Seq<Page>;

    /// The replacement policy's victim queue, best victim first.
    spec fn evictable(&self) -> Seq<PageId>;

    /// The durable bytes of page `id` in the underlying store.
    spec fn stored(&self, id: nat) -> Seq<u8>;

    /// The identifier the store's next allocation returns.
    spec fn next_id(&self) -> nat;

    /// Pin/evict exclusion law: a resident page with a positive pin
    /// count is never in the evictable queue, so it can never be chosen
    /// as an eviction victim (victims are drawn from that queue alone,
    /// as [`Replacer::remove`] ensures).
    proof fn lemma_pinned_not_evictable(&self, id: PageId)
        requires
            self.inv(),
            is_resident(self.frames_view(), id.0 as nat),
            pin_of(self.frames_view(), id.0 as nat) > 0,
        ensures
            !self.evictable().contains(id),
    ;

    /// Number of frames in the pool.
    fn pool_size(&self) -> (r: usize)
        ensures
            r as nat == self.capacity(),
    ;

    /// The frame array, as currently held.
    fn pages(&self) -> (r: &[Page])
        ensures
            r@ == self.frames_view(),
    ;

    /// Allocates a fresh identifier and installs it, zero-filled and
    /// pinned once, in a free frame — evicting the policy's victim if no
    /// frame is free, flushing the victim first when it is dirty.
    /// Returns `None` when every frame is pinned (or the victim's flush
    /// failed), leaving all pages as they were.
    fn new_page(&mut self) -> (r: Option<Page>)
        requires
            old(self).inv(),
            old(self).next_id() < usize::MAX,
        ensures
            final(self).inv(),
            final(self).capacity() == old(self).capacity(),
            final(self).frames_view().len() == old(self).frames_view().len(),
            has_free_frame(old(self).frames_view()) ==> r is Some,
            (!has_free_frame(old(self).frames_view()) && old(self).evictable().len() > 0
                && !dirty_of(old(self).frames_view(), old(self).evictable()[0].0 as nat)) ==> r
                is Some,
            match r {
                Some(p) => {
                    &&& p.id.0 as nat == old(self).next_id()
                    &&& final(self).next_id() == old(self).next_id() + 1
                    &&& p.data@ == zero_page()
                    &&& p.pin_count == 1
                    &&& !p.is_dirty
                    &&& is_resident(final(self).frames_view(), p.id.0 as nat)
                    &&& pin_of(final(self).frames_view(), p.id.0 as nat) == 1
                    &&& !dirty_of(final(self).frames_view(), p.id.0 as nat)
                    &&& data_of(final(self).frames_view(), p.id.0 as nat) == zero_page()
                    &&& !final(self).evictable().contains(p.id)
                    &&& (has_free_frame(old(self).frames_view()) ==> {
                        &&& same_pages_except(
                            old(self).frames_view(),
                            final(self).frames_view(),
                            set![p.id.0 as nat],
                        )
                        &&& final(self).evictable() == old(self).evictable()
                        &&& forall|k: nat| #[trigger]
                            final(self).stored(k) == old(self).stored(k)
                    })
                    &&& (!has_free_frame(old(self).frames_view()) ==> {
                        let vid = old(self).evictable()[0].0 as nat;
                        &&& evicted_head(
                            old(self).frames_view(),
                            old(self).evictable(),
                            final(self).frames_view(),
                            final(self).evictable(),
                        )
                        &&& same_pages_except(
                            old(self).frames_view(),
                            final(self).frames_view(),
                            set![p.id.0 as nat, vid],
                        )
                        &&& (dirty_of(old(self).frames_view(), vid) ==> final(self).stored(vid)
                            == data_of(old(self).frames_view(), vid))
                        &&& (!dirty_of(old(self).frames_view(), vid) ==> forall|k: nat| #[trigger]
                            final(self).stored(k) == old(self).stored(k))
                        &&& forall|k: nat|
                            k != vid ==> #[trigger] final(self).stored(k) == old(self).stored(k)
                    })
                },
                None => {
                    &&& !has_free_frame(old(self).frames_view())
                    &&& final(self).next_id() == old(self).next_id()
                    &&& final(self).frames_view() == old(self).frames_view()
                    &&& forall|k: nat| #[trigger] final(self).stored(k) == old(self).stored(k)
                    &&& same_members(old(self).evictable(), final(self).evictable())
                    &&& (old(self).evictable().len() == 0 ==> final(self).evictable() == old(self).evictable())
                },
            },
    ;

    /// Returns the page with identifier `page_id`, pinned once more.  A
    /// resident page is served from its frame; otherwise its durable
    /// image is loaded into a frame obtained as in [`Self::new_page`].
    /// The identifier must have been allocated already, and a resident
    /// page must not already be pinned `usize::MAX` times.
    fn fetch_page(&mut self, page_id: PageId) -> (r: Result<Page, Error>)
        requires
            old(self).inv(),
            page_id.0 >= 1,
            (page_id.0 as nat) < old(self).next_id(),
            is_resident(old(self).frames_view(), page_id.0 as nat) ==> pin_of(
                old(self).frames_view(),
                page_id.0 as nat,
            ) < usize::MAX,
        ensures
            final(self).inv(),
            final(self).capacity() == old(self).capacity(),
            final(self).frames_view().len() == old(self).frames_view().len(),
            final(self).next_id() == old(self).next_id(),
            is_resident(old(self).frames_view(), page_id.0 as nat) ==> r is Ok,
            (!is_resident(old(self).frames_view(), page_id.0 as nat) && !has_free_frame(
                old(self).frames_view(),
            ) && old(self).evictable().len() == 0) ==> r matches Err(Error::PoolExhausted),
            match r {
                Ok(p) => {
                    let id = page_id.0 as nat;
                    &&& p.id == page_id
                    &&& is_resident(final(self).frames_view(), id)
                    &&& (if is_resident(old(self).frames_view(), id) {
                        &&& p.data@ == data_of(old(self).frames_view(), id)
                        &&& p.pin_count as nat == pin_of(old(self).frames_view(), id) + 1
                        &&& p.is_dirty == dirty_of(old(self).frames_view(), id)
                        &&& pin_of(final(self).frames_view(), id) == pin_of(
                            old(self).frames_view(),
                            id,
                        ) + 1
                        &&& dirty_of(final(self).frames_view(), id) == dirty_of(
                            old(self).frames_view(),
                            id,
                        )
                        &&& data_of(final(self).frames_view(), id) == data_of(
                            old(self).frames_view(),
                            id,
                        )
                        &&& same_pages_except(
                            old(self).frames_view(),
                            final(self).frames_view(),
                            set![id],
                        )
                        &&& final(self).evictable() == without_id(old(self).evictable(), page_id)
                        &&& forall|k: nat| #[trigger] final(self).stored(k) == old(self).stored(k)
                    } else {
                        &&& p.data@ == old(self).stored(id)
                        &&& p.pin_count == 1
                        &&& !p.is_dirty
                        &&& pin_of(final(self).frames_view(), id) == 1
                        &&& !dirty_of(final(self).frames_view(), id)
                        &&& data_of(final(self).frames_view(), id) == old(self).stored(id)
                        &&& !final(self).evictable().contains(page_id)
                        &&& (has_free_frame(old(self).frames_view()) ==> {
                            &&& same_pages_except(
                                old(self).frames_view(),
                                final(self).frames_view(),
                                set![id],
                            )
                            &&& final(self).evictable() == old(self).evictable()
                            &&& forall|k: nat| #[trigger]
                                final(self).stored(k) == old(self).stored(k)
                        })
                        &&& (!has_free_frame(old(self).frames_view()) ==> {
                            let vid = old(self).evictable()[0].0 as nat;
                            &&& evicted_head(
                                old(self).frames_view(),
                                old(self).evictable(),
                                final(self).frames_view(),
                                final(self).evictable(),
                            )
                            &&& same_pages_except(
                                old(self).frames_view(),
                                final(self).frames_view(),
                                set![id, vid],
                            )
                            &&& (dirty_of(old(self).frames_view(), vid) ==> final(self).stored(
                                vid,
                            ) == data_of(old(self).frames_view(), vid))
                            &&& (!dirty_of(old(self).frames_view(), vid) ==> forall|k: nat|
                                #[trigger] final(self).stored(k) == old(self).stored(k))
                            &&& forall|k: nat|
                                k != vid ==> #[trigger] final(self).stored(k) == old(self).stored(
                                    k,
                                )
                        })
                    })
                },
                Err(e) => {
                    let vid = old(self).evictable()[0];
                    &&& !is_resident(old(self).frames_view(), page_id.0 as nat)
                    &&& !is_resident(final(self).frames_view(), page_id.0 as nat)
                    &&& (e is PoolExhausted ==> {
                        &&& !has_free_frame(old(self).frames_view())
                        &&& old(self).evictable().len() == 0
                        &&& final(self).frames_view() == old(self).frames_view()
                        &&& final(self).evictable() == old(self).evictable()
                        &&& forall|k: nat| #[trigger] final(self).stored(k) == old(self).stored(k)
                    })
                    &&& (e is InternalIo ==> ({
                        let vid = old(self).evictable()[0].0 as nat;
                        &&& final(self).frames_view() == old(self).frames_view()
                        &&& same_members(old(self).evictable(), final(self).evictable())
                        &&& forall|k: nat|
                            k != vid ==> #[trigger] final(self).stored(k) == old(self).stored(k)
                        &&& (final(self).stored(vid) == old(self).stored(vid) || (old(self).evictable().len() > 0 && dirty_of(old(self).frames_view(), vid)
                            && final(self).stored(vid) == data_of(old(self).frames_view(), vid)))
                    }))
                },
            },
    ;

    /// Releases one pin on `page_id`, marking the frame dirty when the
    /// caller modified its copy.  Returns `false` — changing nothing —
    /// when the page is not resident or not pinned.  On the last unpin
    /// the page joins the evictable queue as its most recent entry.
    fn unpin_page(&mut self, page_id: PageId, is_dirty: bool) -> (r: bool)
        requires
            old(self).inv(),
        ensures
            final(self).inv(),
            final(self).capacity() == old(self).capacity(),
            final(self).frames_view().len() == old(self).frames_view().len(),
            final(self).next_id() == old(self).next_id(),
            forall|k: nat| #[trigger] final(self).stored(k) == old(self).stored(k),
            r == (is_resident(old(self).frames_view(), page_id.0 as nat) && pin_of(
                old(self).frames_view(),
                page_id.0 as nat,
            ) > 0),
            !r ==> final(self).frames_view() == old(self).frames_view() && final(self).evictable()
                == old(self).evictable(),
            r ==> ({
                let id = page_id.0 as nat;
                &&& is_resident(final(self).frames_view(), id)
                &&& pin_of(final(self).frames_view(), id) == pin_of(
                    old(self).frames_view(),
                    id,
                ) - 1
                &&& dirty_of(final(self).frames_view(), id) == (dirty_of(
                    old(self).frames_view(),
                    id,
                ) || is_dirty)
                &&& data_of(final(self).frames_view(), id) == data_of(old(self).frames_view(), id)
                &&& same_pages_except(old(self).frames_view(), final(self).frames_view(), set![id])
                &&& (pin_of(old(self).frames_view(), id) == 1 ==> final(self).evictable() == old(self).evictable().push(page_id))
                &&& (pin_of(old(self).frames_view(), id) > 1 ==> final(self).evictable() == old(self).evictable())
            }),
    ;

    /// Writes the frame holding `page_id` to the store, pinned or not,
    /// and clears its dirty flag on success.  Returns `false` when the
    /// page is not resident or the write failed; a failed write leaves
    /// the dirty flag set and the page image unchanged.
    fn flush_page(&mut self, page_id: PageId) -> (r: bool)
        requires
            old(self).inv(),
        ensures
            final(self).inv(),
            final(self).capacity() == old(self).capacity(),
            final(self).frames_view().len() == old(self).frames_view().len(),
            final(self).next_id() == old(self).next_id(),
            final(self).evictable() == old(self).evictable(),
            !is_resident(old(self).frames_view(), page_id.0 as nat) ==> !r && final(self).frames_view() == old(self).frames_view() && forall|k: nat| #[trigger]
                final(self).stored(k) == old(self).stored(k),
            is_resident(old(self).frames_view(), page_id.0 as nat) ==> ({
                let id = page_id.0 as nat;
                &&& is_resident(final(self).frames_view(), id)
                &&& pin_of(final(self).frames_view(), id) == pin_of(old(self).frames_view(), id)
                &&& data_of(final(self).frames_view(), id) == data_of(old(self).frames_view(), id)
                &&& same_pages_except(old(self).frames_view(), final(self).frames_view(), set![id])
                &&& (r ==> final(self).stored(id) == data_of(old(self).frames_view(), id)
                    && !dirty_of(final(self).frames_view(), id) && forall|k: nat|
                    k != id ==> #[trigger] final(self).stored(k) == old(self).stored(k))
                &&& (!r ==> dirty_of(final(self).frames_view(), id) == dirty_of(
                    old(self).frames_view(),
                    id,
                ) && forall|k: nat| #[trigger] final(self).stored(k) == old(self).stored(k))
            }),
    ;

    /// Removes `page_id` from the pool, freeing its frame and dropping
    /// it from the evictable queue.  Refuses — returning `false` and
    /// changing nothing — while the page is pinned; deleting a page that
    /// is not resident succeeds trivially.  The durable copy is left in
    /// place, since identifiers are never reused.
    fn delete_page(&mut self, page_id: PageId) -> (r: bool)
        requires
            old(self).inv(),
        ensures
            final(self).inv(),
            final(self).capacity() == old(self).capacity(),
            final(self).frames_view().len() == old(self).frames_view().len(),
            final(self).next_id() == old(self).next_id(),
            forall|k: nat| #[trigger] final(self).stored(k) == old(self).stored(k),
            r == !(is_resident(old(self).frames_view(), page_id.0 as nat) && pin_of(
                old(self).frames_view(),
                page_id.0 as nat,
            ) > 0),
            !r ==> final(self).frames_view() == old(self).frames_view() && final(self).evictable()
                == old(self).evictable(),
            !is_resident(old(self).frames_view(), page_id.0 as nat) ==> final(self).frames_view()
                == old(self).frames_view() && final(self).evictable() == old(self).evictable(),
            (is_resident(old(self).frames_view(), page_id.0 as nat) && pin_of(
                old(self).frames_view(),
                page_id.0 as nat,
            ) == 0) ==> ({
                let id = page_id.0 as nat;
                &&& !is_resident(final(self).frames_view(), id)
                &&& same_pages_except(old(self).frames_view(), final(self).frames_view(), set![id])
                &&& final(self).evictable() == without_id(old(self).evictable(), page_id)
                &&& has_free_frame(final(self).frames_view())
            }),
    ;

    /// Flushes every resident dirty frame, best-effort: later frames are
    /// still attempted after a failure, and the first error is returned.
    fn flush_all(&mut self) -> (r: Result<(), Error>)
        requires
            old(self).inv(),
        ensures
            final(self).inv(),
            final(self).capacity() == old(self).capacity(),
            final(self).frames_view().len() == old(self).frames_view().len(),
            final(self).next_id() == old(self).next_id(),
            final(self).evictable() == old(self).evictable(),
            forall|id: nat|
                #[trigger] is_resident(final(self).frames_view(), id) == is_resident(
                    old(self).frames_view(),
                    id,
                ),
            forall|id: nat|
                is_resident(old(self).frames_view(), id) ==> #[trigger] pin_of(
                    final(self).frames_view(),
                    id,
                ) == pin_of(old(self).frames_view(), id) && data_of(final(self).frames_view(), id)
                    == data_of(old(self).frames_view(), id),
            forall|id: nat|
                is_resident(old(self).frames_view(), id) && #[trigger] dirty_of(
                    final(self).frames_view(),
                    id,
                ) ==> dirty_of(old(self).frames_view(), id),
            forall|id: nat|
                is_resident(old(self).frames_view(), id) && dirty_of(old(self).frames_view(), id)
                    && !(#[trigger] dirty_of(final(self).frames_view(), id)) ==> final(self).stored(id) == data_of(old(self).frames_view(), id),
            forall|k: nat|
                !(is_resident(old(self).frames_view(), k) && dirty_of(old(self).frames_view(), k))
                    ==> #[trigger] final(self).stored(k) == old(self).stored(k),
            r is Ok ==> forall|id: nat|
                is_resident(old(self).frames_view(), id) ==> !(#[trigger] dirty_of(
                    final(self).frames_view(),
                    id,
                )),
            (forall|id: nat|
                is_resident(old(self).frames_view(), id) ==> !(#[trigger] dirty_of(
                    old(self).frames_view(),
                    id,
                ))) ==> r is Ok,
            r matches Err(e) ==> e is InternalIo,
    ;
}

} // verus!
