use bustubx::common::rid::PAGE_SIZE;
use bustubx::storage::DiskManager;
use bustubx::BustubxError;

#[test]
fn disk_hands_out_ids_from_one_upwards() {
    let mut disk = DiskManager::new();
    assert_eq!(disk.num_pages(), 0);
    assert_eq!(disk.allocate_page(), Ok(1));
    assert_eq!(disk.allocate_page(), Ok(2));
    assert_eq!(disk.allocate_page(), Ok(3));
    assert_eq!(disk.num_pages(), 3);
}

#[test]
fn disk_page_starts_as_zeros() {
    let mut disk = DiskManager::new();
    let page_id = disk.allocate_page().unwrap();
    assert_eq!(disk.read_page(page_id).unwrap(), vec![0u8; PAGE_SIZE]);
}

#[test]
fn disk_reads_back_what_was_written() {
    let mut disk = DiskManager::new();
    let first = disk.allocate_page().unwrap();
    let second = disk.allocate_page().unwrap();
    let mut data = vec![0u8; PAGE_SIZE];
    data[0] = 7;
    data[PAGE_SIZE - 1] = 9;
    disk.write_page(second, &data).unwrap();
    assert_eq!(disk.read_page(second).unwrap(), data);
    assert_eq!(disk.read_page(first).unwrap(), vec![0u8; PAGE_SIZE]);
}

#[test]
fn disk_rejects_unknown_pages_and_wrong_sizes() {
    let mut disk = DiskManager::new();
    let page_id = disk.allocate_page().unwrap();
    assert_eq!(disk.read_page(0), Err(BustubxError::Io));
    assert_eq!(disk.read_page(page_id + 1), Err(BustubxError::Io));
    assert_eq!(disk.write_page(page_id + 1, &vec![0u8; PAGE_SIZE]), Err(BustubxError::Io));
    assert_eq!(disk.write_page(page_id, &vec![0u8; 10]), Err(BustubxError::Io));
    assert_eq!(disk.deallocate_page(0), Err(BustubxError::Io));
}

#[test]
fn disk_deallocation_clears_the_page() {
    let mut disk = DiskManager::new();
    let page_id = disk.allocate_page().unwrap();
    disk.write_page(page_id, &vec![5u8; PAGE_SIZE]).unwrap();
    disk.deallocate_page(page_id).unwrap();
    assert_eq!(disk.read_page(page_id).unwrap(), vec![0u8; PAGE_SIZE]);
    assert_eq!(disk.allocate_page(), Ok(page_id + 1));
}

#[test]
fn disk_from_pages_checks_page_sizes() {
    assert!(DiskManager::from_pages(vec![vec![0u8; PAGE_SIZE], vec![1u8; PAGE_SIZE]]).is_some());
    assert!(DiskManager::from_pages(vec![vec![0u8; PAGE_SIZE - 1]]).is_none());
    let disk = DiskManager::from_pages(vec![vec![3u8; PAGE_SIZE]]).unwrap();
    assert_eq!(disk.num_pages(), 1);
    assert_eq!(disk.read_page(1).unwrap(), vec![3u8; PAGE_SIZE]);
}
