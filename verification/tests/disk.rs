use ksdb::storage::disk::MemDiskManager;
use ksdb::storage::{DiskManager, PageId, PAGE_SIZE};

fn pad_zeros(bytes: &[u8], len: usize) -> Vec<u8> {
    let mut padding = vec![0; len - bytes.len()];
    let mut result = bytes.to_vec();

    result.append(&mut padding);
    result
}

#[test]
fn read_write_correctly() {
    let mut disk_manager = MemDiskManager::new();
    disk_manager
        .write_page(PageId(2), "some page content".as_bytes())
        .unwrap();
    disk_manager
        .write_page(PageId(5), "more page content".as_bytes())
        .unwrap();

    let data1 = disk_manager.read_page(PageId(1)).unwrap();
    let data2 = disk_manager.read_page(PageId(2)).unwrap();
    let data4 = disk_manager.read_page(PageId(4)).unwrap();
    let data5 = disk_manager.read_page(PageId(5)).unwrap();

    assert_eq!(data1, pad_zeros(&vec![], PAGE_SIZE));
    assert_eq!(data2, pad_zeros("some page content".as_bytes(), PAGE_SIZE));
    assert_eq!(data4, pad_zeros(&vec![], PAGE_SIZE));
    assert_eq!(data5, pad_zeros("more page content".as_bytes(), PAGE_SIZE));
}

#[test]
fn increment_page_id_on_new() {
    let mut disk_manager = MemDiskManager::new();

    let next_page_id = disk_manager.new_page();
    assert_eq!(next_page_id, PageId(1));

    let next_page_id = disk_manager.new_page();
    assert_eq!(next_page_id, PageId(2));
}

#[test]
fn fresh_identifier_reads_as_zeros() {
    let mut disk_manager = MemDiskManager::new();
    let id = disk_manager.new_page();
    let data = disk_manager.read_page(id).unwrap();
    assert_eq!(data, vec![0u8; PAGE_SIZE]);
}

#[test]
fn write_then_read_round_trips_with_padding() {
    let mut disk_manager = MemDiskManager::new();
    let id = disk_manager.new_page();
    let payload = b"round trip payload";
    disk_manager.write_page(id, payload).unwrap();
    let data = disk_manager.read_page(id).unwrap();
    assert_eq!(data.len(), PAGE_SIZE);
    assert_eq!(&data[..payload.len()], payload);
    assert!(data[payload.len()..].iter().all(|b| *b == 0));
}

#[test]
fn full_page_write_is_stored_unchanged() {
    let mut disk_manager = MemDiskManager::new();
    let id = disk_manager.new_page();
    let payload = vec![0xabu8; PAGE_SIZE];
    disk_manager.write_page(id, &payload).unwrap();
    let data = disk_manager.read_page(id).unwrap();
    assert_eq!(data, payload);
}

#[test]
fn overwrite_replaces_previous_image() {
    let mut disk_manager = MemDiskManager::new();
    let id = disk_manager.new_page();
    disk_manager.write_page(id, &vec![7u8; PAGE_SIZE]).unwrap();
    disk_manager.write_page(id, b"short").unwrap();
    let data = disk_manager.read_page(id).unwrap();
    assert_eq!(&data[..5], b"short");
    assert!(data[5..].iter().all(|b| *b == 0));
}

#[test]
fn identifiers_never_repeat() {
    let mut disk_manager = MemDiskManager::new();
    let mut seen = Vec::new();
    for _ in 0..100 {
        let id = disk_manager.new_page();
        assert!(!seen.contains(&id));
        seen.push(id);
    }
    for pair in seen.windows(2) {
        assert!(pair[0] < pair[1]);
    }
}
