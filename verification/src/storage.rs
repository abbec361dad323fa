use vstd::prelude::*;

use crate::error::Error;

pub mod disk;

verus! {

/// Size of every page, in bytes.  Both the in-memory frames and the
/// durable store deal exclusively in blocks of exactly this size.
pub const PAGE_SIZE: usize = 8192;

/// Identifier of a logical page.
///
/// Identifiers are strictly positive: `0` is reserved and never allocated,
/// which lets an unoccupied frame be marked with it.  Allocation is
/// monotonic, so an identifier is never reused within a store's lifetime.
#[derive(Debug, Copy, Clone, Ord, PartialOrd, Eq, PartialEq, Hash, Structural)]
pub struct PageId(pub usize);

/// A page as held in a frame of the buffer pool, or handed to a caller as
/// a copy of a frame's current contents.
///
/// `data` always holds exactly [`PAGE_SIZE`] bytes.  `pin_count` is the
/// number of outstanding holders relying on the frame staying resident;
/// `is_dirty` records that the buffered bytes may differ from the durable
/// copy and must be flushed before the frame is reused.
#[derive(Debug, Clone)]
pub struct Page {
    pub id: PageId,
    pub data: Vec<u8>,
    pub is_dirty: bool,
    pub pin_count: usize,
}

/// A page worth of zero bytes: what a never-written identifier reads as.
pub open spec fn zero_page() -> Seq<u8> {
    Seq::new(PAGE_SIZE as nat, |i: int| 0u8)
}

/// `data` extended with zero bytes to exactly [`PAGE_SIZE`] bytes
/// (or truncated to that length, though writers never exceed it).
pub open spec fn pad_page(data: Seq<u8>) -> Seq<u8> {
    if data.len() >= PAGE_SIZE {
        data.take(PAGE_SIZE as int)
    } else {
        data + Seq::new((PAGE_SIZE - data.len()) as nat, |i: int| 0u8)
    }
}

/// Round-trip law: the durable image of a written byte sequence is exactly
/// that sequence, padded with zeros to the fixed page size.  Since
/// [`DiskManager::write_page`] stores `pad_page(data)` and
/// [`DiskManager::read_page`] returns the stored image unchanged, writing a
/// sequence and reading it back yields the sequence itself followed by
/// zeros.
pub proof fn lemma_pad_page_round_trip(data: Seq<u8>)
    requires
        data.len() <= PAGE_SIZE,
    ensures
        pad_page(data).len() == PAGE_SIZE,
        pad_page(data).take(data.len() as int) == data,
        forall|i: int| data.len() <= i < PAGE_SIZE ==> pad_page(data)[i] == 0u8,
{
    if data.len() == PAGE_SIZE {
        assert(pad_page(data).take(data.len() as int) =~= data);
    } else {
        assert(pad_page(data).take(data.len() as int) =~= data);
    }
}

/// A full-page write is stored without change.
pub proof fn lemma_pad_page_full(data: Seq<u8>)
    requires
        data.len() == PAGE_SIZE,
    ensures
        pad_page(data) == data,
{
    assert(pad_page(data) =~= data);
}

/// The durable page store: identifier allocation plus fixed-size block
/// storage addressed by page identifier.
///
/// The behaviour of an implementation is captured by three abstractions:
/// `next_id()`, the identifier the next allocation returns; `stored(id)`,
/// the bytes a read of `id` observes (always exactly [`PAGE_SIZE`] of
/// them — an identifier whose range was never written reads as zeros);
/// and `inv()`, the implementation's internal consistency conditions.
pub trait DiskManager: Sized {
    /// Internal consistency of the store.
    spec fn inv(&self) -> bool;

    /// The identifier that the next call to [`Self::new_page`] returns.
    spec fn next_id(&self) -> nat;

    /// The durable bytes of page `id`: what a read of `id` would return.
    spec fn stored(&self, id: nat) -> Seq<u8>;

    /// Makes `pad_page(data)` the durable image of `page_id`, leaving
    /// every other page unchanged.  The write is durable once the call
    /// returns `Ok`; on failure the page keeps its previous image.
    fn write_page(&mut self, page_id: PageId, data: &[u8]) -> (r: Result<(), Error>)
        requires
            old(self).inv(),
            page_id.0 >= 1,
            data@.len() <= PAGE_SIZE,
        ensures
            final(self).inv(),
            final(self).next_id() == old(self).next_id(),
            r is Ok ==> final(self).stored(page_id.0 as nat) == pad_page(data@),
            forall|k: nat|
                k != page_id.0 as nat ==> #[trigger] final(self).stored(k) == old(self).stored(k),
            r is Err ==> final(self).stored(page_id.0 as nat) == old(self).stored(
                page_id.0 as nat,
            ),
            r matches Err(e) ==> e is InternalIo,
    ;

    /// Returns the durable image of `page_id`: exactly [`PAGE_SIZE`]
    /// bytes, zeros where the page was never written.  Reading changes
    /// nothing observable.
    fn read_page(&mut self, page_id: PageId) -> (r: Result<Vec<u8>, Error>)
        requires
            old(self).inv(),
            page_id.0 >= 1,
        ensures
            final(self).inv(),
            final(self).next_id() == old(self).next_id(),
            forall|k: nat| #[trigger] final(self).stored(k) == old(self).stored(k),
            r matches Ok(buf) ==> buf@ == final(self).stored(page_id.0 as nat) && buf@.len()
                == PAGE_SIZE,
            r matches Err(e) ==> e is InternalIo,
    ;

    /// Allocates a fresh page identifier: the current counter value, after
    /// which the counter advances.  Successive allocations therefore
    /// return strictly increasing identifiers and never repeat one.
    fn new_page(&mut self) -> (r: PageId)
        requires
            old(self).inv(),
            old(self).next_id() < usize::MAX,
        ensures
            final(self).inv(),
            r.0 as nat == old(self).next_id(),
            r.0 >= 1,
            final(self).next_id() == old(self).next_id() + 1,
            forall|k: nat| #[trigger] final(self).stored(k) == old(self).stored(k),
    ;
}

/// Monotonic allocation law: whenever one allocation is followed by
/// another — `r1` drawn from a store whose counter then stands at `mid`,
/// and `r2` drawn from that state — the second identifier is strictly
/// greater than the first.  The hypotheses are exactly what
/// [`DiskManager::new_page`] ensures about each call.
pub proof fn lemma_allocation_monotonic<DM: DiskManager>(
    before: DM,
    mid: DM,
    r1: PageId,
    r2: PageId,
)
    requires
        r1.0 as nat == before.next_id(),
        mid.next_id() == before.next_id() + 1,
        r2.0 as nat == mid.next_id(),
    ensures
        r2.0 > r1.0,
{
}

impl Page {
    /// A page handle with the given identifier and contents, initially
    /// clean and unpinned.
    pub fn new(id: PageId, data: Vec<u8>) -> (r: Self)
        requires
            data@.len() == PAGE_SIZE,
        ensures
            r.id == id,
            r.data@ == data@,
            !r.is_dirty,
            r.pin_count == 0,
    {
        Page { id, data, is_dirty: false, pin_count: 0 }
    }
}

/// A vector of exactly one page of zero bytes.
pub(crate) fn zero_page_vec() -> (r: Vec<u8>)
    ensures
        r@ == zero_page(),
{
    let mut v: Vec<u8> = Vec::with_capacity(PAGE_SIZE);
    while v.len() < PAGE_SIZE
        invariant
            v@.len() <= PAGE_SIZE,
            forall|j: int| 0 <= j < v@.len() ==> v@[j] == 0u8,
        decreases PAGE_SIZE - v@.len(),
    {
        v.push(0u8);
    }
    assert(v@ =~= zero_page());
    v
}

/// A copy of the given bytes.
pub(crate) fn copy_bytes(src: &Vec<u8>) -> (r: Vec<u8>)
    ensures
        r@ == src@,
{
    let mut v: Vec<u8> = Vec::with_capacity(src.len());
    let mut i: usize = 0;
    while i < src.len()
        invariant
            i <= src@.len(),
            v@ == src@.take(i as int),
        decreases src@.len() - i,
    {
        let b = src[i];
        v.push(b);
        assert(v@ =~= src@.take(i + 1));
        i = i + 1;
    }
    assert(v@ =~= src@);
    v
}

/// `data` copied out to a fresh page-sized vector, zero-padded at the end.
pub(crate) fn pad_to_page(data: &[u8]) -> (r: Vec<u8>)
    requires
        data@.len() <= PAGE_SIZE,
    ensures
        r@ == pad_page(data@),
{
    let mut v: Vec<u8> = Vec::with_capacity(PAGE_SIZE);
    let mut i: usize = 0;
    while i < data.len()
        invariant
            i <= data@.len(),
            data@.len() <= PAGE_SIZE,
            v@ == data@.take(i as int),
        decreases data@.len() - i,
    {
        let b = data[i];
        v.push(b);
        assert(v@ =~= data@.take(i + 1));
        i = i + 1;
    }
    assert(v@ =~= data@);
    while v.len() < PAGE_SIZE
        invariant
            data@.len() <= v@.len() <= PAGE_SIZE,
            v@.take(data@.len() as int) == data@,
            forall|j: int| data@.len() <= j < v@.len() ==> v@[j] == 0u8,
        decreases PAGE_SIZE - v@.len(),
    {
        v.push(0u8);
        assert(v@.take(data@.len() as int) =~= data@);
    }
    proof {
        lemma_pad_page_round_trip(data@);
        assert(v@ =~= pad_page(data@));
    }
    v
}

} // verus!
