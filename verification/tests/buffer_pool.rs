use ksdb::buffer::buffer_pool::{DefaultBufferPoolManager, LruReplacer};
use ksdb::buffer::{BufferPoolManager, Replacer};
use ksdb::error::Error;
use ksdb::storage::disk::MemDiskManager;
use ksdb::storage::{Page, PageId, PAGE_SIZE};

fn replacer(size: usize) -> LruReplacer {
    LruReplacer::new(size)
}

fn buffer_pool_manager(
    pool_size: usize,
) -> DefaultBufferPoolManager<MemDiskManager, LruReplacer> {
    DefaultBufferPoolManager::new(MemDiskManager::new(), replacer(10), pool_size)
}

#[test]
fn create_new_page_if_space_available() {
    let mut bpm = buffer_pool_manager(10);
    let page = bpm.new_page();
    assert!(page.is_some());
    assert_eq!(page.unwrap().id, PageId(1))
}

#[test]
fn fail_create_new_page_if_no_space() {
    let mut bpm = buffer_pool_manager(2);
    let _ = bpm.new_page();
    let _ = bpm.new_page();
    let page = bpm.new_page();
    assert!(page.is_none());
}

#[test]
fn remove_item_with_lowest_rank() {
    let mut replacer = replacer(5);
    replacer.unpin(PageId(5));
    replacer.unpin(PageId(2));
    replacer.unpin(PageId(4));
    replacer.unpin(PageId(8));
    replacer.unpin(PageId(1));

    let removed = replacer.remove();
    assert_eq!(removed, Some(PageId(5)));
    let removed = replacer.remove();
    assert_eq!(removed, Some(PageId(2)));
    let removed = replacer.remove();
    assert_eq!(removed, Some(PageId(4)));
    let removed = replacer.remove();
    assert_eq!(removed, Some(PageId(8)));
    let removed = replacer.remove();
    assert_eq!(removed, Some(PageId(1)));
    let removed = replacer.remove();
    assert_eq!(removed, None);
}

#[test]
fn replacer_counts_and_pins() {
    let mut replacer = replacer(5);
    replacer.unpin(PageId(1));
    replacer.unpin(PageId(2));
    replacer.unpin(PageId(3));
    assert_eq!(replacer.available(), 3);
    replacer.pin(PageId(2));
    assert_eq!(replacer.available(), 2);
    // pinning an absent page is a no-op
    replacer.pin(PageId(9));
    assert_eq!(replacer.available(), 2);
    assert_eq!(replacer.remove(), Some(PageId(1)));
    assert_eq!(replacer.remove(), Some(PageId(3)));
    assert_eq!(replacer.remove(), None);
}

#[test]
fn new_page_is_zero_filled_and_pinned() {
    let mut bpm = buffer_pool_manager(4);
    let page = bpm.new_page().unwrap();
    assert_eq!(page.id, PageId(1));
    assert_eq!(page.data, vec![0u8; PAGE_SIZE]);
    assert_eq!(page.pin_count, 1);
    assert!(!page.is_dirty);
}

#[test]
fn fetch_resident_page_increments_pin() {
    let mut bpm = buffer_pool_manager(4);
    let page = bpm.new_page().unwrap();
    let fetched = bpm.fetch_page(page.id).unwrap();
    assert_eq!(fetched.id, page.id);
    assert_eq!(fetched.pin_count, 2);
    assert_eq!(fetched.data, page.data);
}

#[test]
fn fetch_evicted_page_reloads_from_disk() {
    let mut bpm = buffer_pool_manager(1);
    let p1 = bpm.new_page().unwrap();
    assert!(bpm.unpin_page(p1.id, true));
    // evicts p1, flushing it first because it was marked dirty
    let p2 = bpm.new_page().unwrap();
    assert!(bpm.unpin_page(p2.id, false));
    let again = bpm.fetch_page(p1.id).unwrap();
    assert_eq!(again.id, p1.id);
    assert_eq!(again.data, vec![0u8; PAGE_SIZE]);
    assert_eq!(again.pin_count, 1);
}

#[test]
fn fetch_fails_with_pool_exhausted_when_all_pinned() {
    let mut bpm = buffer_pool_manager(1);
    let p1 = bpm.new_page().unwrap();
    assert!(bpm.unpin_page(p1.id, false));
    // p2 now pins the only frame
    let p2 = bpm.new_page().unwrap();
    let err = bpm.fetch_page(p1.id).unwrap_err();
    assert!(matches!(err, Error::PoolExhausted));
    // releasing p2 makes the frame reclaimable again
    assert!(bpm.unpin_page(p2.id, false));
    assert!(bpm.fetch_page(p1.id).is_ok());
}

#[test]
fn pinned_page_is_never_chosen_as_victim() {
    let mut bpm = buffer_pool_manager(2);
    let p1 = bpm.new_page().unwrap();
    let p2 = bpm.new_page().unwrap();
    // only p1 becomes evictable; p2 stays pinned
    assert!(bpm.unpin_page(p1.id, false));
    let p3 = bpm.new_page().unwrap();
    assert_eq!(p3.id, PageId(3));
    // p2 must still be resident: unpinning it succeeds
    assert!(bpm.unpin_page(p2.id, false));
    // p1 was the victim: it is no longer resident, so a second unpin fails
    assert!(!bpm.unpin_page(p1.id, false));
}

#[test]
fn unpin_not_resident_or_unpinned_returns_false() {
    let mut bpm = buffer_pool_manager(2);
    assert!(!bpm.unpin_page(PageId(7), false));
    let p1 = bpm.new_page().unwrap();
    assert!(bpm.unpin_page(p1.id, false));
    // pin count is already zero
    assert!(!bpm.unpin_page(p1.id, false));
}

#[test]
fn delete_refuses_pinned_page() {
    let mut bpm = buffer_pool_manager(2);
    let p1 = bpm.new_page().unwrap();
    assert!(!bpm.delete_page(p1.id));
    // still resident and pinned: fetching works without disk involvement
    let fetched = bpm.fetch_page(p1.id).unwrap();
    assert_eq!(fetched.pin_count, 2);
    assert!(bpm.unpin_page(p1.id, false));
    assert!(bpm.unpin_page(p1.id, false));
    // now fully unpinned: the deletion goes through
    assert!(bpm.delete_page(p1.id));
    // the page is gone from the pool
    assert!(!bpm.unpin_page(p1.id, false));
}

#[test]
fn delete_missing_page_succeeds_trivially() {
    let mut bpm = buffer_pool_manager(2);
    assert!(bpm.delete_page(PageId(42)));
}

#[test]
fn flush_page_returns_false_for_missing_page() {
    let mut bpm = buffer_pool_manager(2);
    assert!(!bpm.flush_page(PageId(3)));
    let p1 = bpm.new_page().unwrap();
    assert!(bpm.flush_page(p1.id));
}

#[test]
fn flush_all_succeeds() {
    let mut bpm = buffer_pool_manager(4);
    let p1 = bpm.new_page().unwrap();
    let p2 = bpm.new_page().unwrap();
    assert!(bpm.unpin_page(p1.id, true));
    assert!(bpm.unpin_page(p2.id, true));
    assert!(bpm.flush_all().is_ok());
}

#[test]
fn pool_size_and_pages_reflect_construction() {
    let mut bpm = buffer_pool_manager(3);
    assert_eq!(bpm.pool_size(), 3);
    assert_eq!(bpm.pages().len(), 3);
    let p1 = bpm.new_page().unwrap();
    assert!(bpm.pages().iter().any(|f| f.id == p1.id));
}

#[test]
fn page_new_starts_clean_and_unpinned() {
    let page = Page::new(PageId(9), vec![1u8; PAGE_SIZE]);
    assert_eq!(page.id, PageId(9));
    assert_eq!(page.data.len(), PAGE_SIZE);
    assert!(!page.is_dirty);
    assert_eq!(page.pin_count, 0);
}

#[test]
fn lru_orders_unpins_first_released_first_out() {
    let mut bpm = buffer_pool_manager(3);
    let p1 = bpm.new_page().unwrap();
    let p2 = bpm.new_page().unwrap();
    let p3 = bpm.new_page().unwrap();
    // release in the order p2, p3, p1
    assert!(bpm.unpin_page(p2.id, false));
    assert!(bpm.unpin_page(p3.id, false));
    assert!(bpm.unpin_page(p1.id, false));
    // the next allocation evicts p2, released longest ago
    let _p4 = bpm.new_page().unwrap();
    assert!(!bpm.unpin_page(p2.id, false));
    // p3 and p1 are still resident (evictable, pin count zero)
    assert!(bpm.fetch_page(p3.id).is_ok());
    assert!(bpm.fetch_page(p1.id).is_ok());
}
