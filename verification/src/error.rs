use vstd::prelude::*;

verus! {

/// Errors surfaced by the storage and buffer layers.
///
/// Operations that merely report "nothing to do" (unpinning a page that is
/// not resident, deleting an absent page) return `false` instead of an
/// error; only genuine failures are represented here.
#[derive(Debug)]
pub enum Error {
    /// A failure of the backing store, with a description of the cause.
    InternalIo(String),
    /// Every frame holds a pinned page, so no frame could be freed for a
    /// new or newly fetched page.
    PoolExhausted,
}

} // verus!
