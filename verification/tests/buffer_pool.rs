use bustubx::buffer::BufferPoolManager;
use bustubx::storage::DiskManager;

#[test]
pub fn test_buffer_pool_manager_new_page() {
    let disk_manager = DiskManager::new();
    let mut buffer_pool = BufferPoolManager::new(3, disk_manager);
    let page1 = buffer_pool.new_page().unwrap();
    let page1_id = page1.page_id();
    assert_eq!(buffer_pool.page_id_in(0), Some(page1_id));
    assert_eq!(buffer_pool.frame_id_of(page1_id), Some(0));
    assert_eq!(buffer_pool.free_list_len(), 2);
    assert_eq!(buffer_pool.replacer().size(), 0);

    let page2 = buffer_pool.new_page().unwrap();
    let page2_id = page2.page_id();
    assert_eq!(buffer_pool.page_id_in(1), Some(page2_id));

    let page3 = buffer_pool.new_page().unwrap();
    let page3_id = page3.page_id();
    assert_eq!(buffer_pool.page_id_in(2), Some(page3_id));

    let page4 = buffer_pool.new_page();
    assert!(page4.is_err());

    assert!(buffer_pool.unpin_page(page1));

    let page5 = buffer_pool.new_page().unwrap();
    let page5_id = page5.page_id();
    assert_eq!(buffer_pool.page_id_in(0), Some(page5_id));
}

#[test]
pub fn test_buffer_pool_manager_unpin_page() {
    let disk_manager = DiskManager::new();
    let mut buffer_pool = BufferPoolManager::new(3, disk_manager);

    let page1 = buffer_pool.new_page().unwrap();
    let _page2 = buffer_pool.new_page().unwrap();
    let _page3 = buffer_pool.new_page().unwrap();
    let page4 = buffer_pool.new_page();
    assert!(page4.is_err());

    buffer_pool.unpin_page(page1);
    let page5 = buffer_pool.new_page();
    assert!(page5.is_ok());
}

#[test]
pub fn test_buffer_pool_manager_fetch_page() {
    let disk_manager = DiskManager::new();
    let mut buffer_pool = BufferPoolManager::new(3, disk_manager);

    let page1 = buffer_pool.new_page().unwrap();
    let page1_id = page1.page_id();
    buffer_pool.unpin_page(page1);

    let page2 = buffer_pool.new_page().unwrap();
    let page2_id = page2.page_id();
    buffer_pool.unpin_page(page2);

    let page3 = buffer_pool.new_page().unwrap();
    let _page3_id = page3.page_id();
    buffer_pool.unpin_page(page3);

    let page = buffer_pool.fetch_page(page1_id).unwrap();
    assert_eq!(page.page_id(), page1_id);
    buffer_pool.unpin_page(page);

    let page = buffer_pool.fetch_page(page2_id).unwrap();
    assert_eq!(page.page_id(), page2_id);
    buffer_pool.unpin_page(page);

    assert_eq!(buffer_pool.replacer().size(), 3);
}

#[test]
pub fn test_buffer_pool_manager_delete_page() {
    let disk_manager = DiskManager::new();
    let mut buffer_pool = BufferPoolManager::new(3, disk_manager);

    let page1 = buffer_pool.new_page().unwrap();
    let page1_id = page1.page_id();
    buffer_pool.unpin_page(page1);

    let page2 = buffer_pool.new_page().unwrap();
    let _page2_id = page2.page_id();
    buffer_pool.unpin_page(page2);

    let page3 = buffer_pool.new_page().unwrap();
    let _page3_id = page3.page_id();
    buffer_pool.unpin_page(page3);

    let res = buffer_pool.delete_page(page1_id).unwrap();
    assert!(res);
    assert_eq!(buffer_pool.pool_size(), 3);
    assert_eq!(buffer_pool.free_list_len(), 1);
    assert_eq!(buffer_pool.replacer().size(), 2);
    assert_eq!(buffer_pool.page_table_len(), 2);

    let page = buffer_pool.fetch_page(page1_id).unwrap();
    assert_eq!(page.page_id(), page1_id);
}

#[test]
fn buffer_pool_fetch_after_eviction() {
    let disk_manager = DiskManager::new();
    let mut buffer_pool = BufferPoolManager::new(3, disk_manager);
    let mut ids = Vec::new();
    for _ in 0..3 {
        let page = buffer_pool.new_page().unwrap();
        ids.push(page.page_id());
        assert!(buffer_pool.unpin_page(page));
    }
    assert_eq!(buffer_pool.replacer().size(), 3);
    let page = buffer_pool.fetch_page(ids[0]).unwrap();
    assert_eq!(page.page_id(), ids[0]);
    assert_eq!(buffer_pool.replacer().size(), 2);
}

#[test]
fn buffer_pool_keeps_pages_across_eviction() {
    let disk_manager = DiskManager::new();
    let mut buffer_pool = BufferPoolManager::new(2, disk_manager);
    let mut ids = Vec::new();
    for n in 0..5u8 {
        let page = buffer_pool.new_page().unwrap();
        assert_eq!(buffer_pool.page_data(&page).unwrap(), vec![0u8; bustubx::common::rid::PAGE_SIZE]);
        assert!(buffer_pool.set_page_data(&page, &vec![n + 1; bustubx::common::rid::PAGE_SIZE]));
        ids.push(page.page_id());
        assert!(buffer_pool.unpin_page(page));
    }
    assert_eq!(ids, vec![1, 2, 3, 4, 5]);
    assert_eq!(buffer_pool.page_table_len(), 2);
    for (n, page_id) in ids.iter().enumerate() {
        let page = buffer_pool.fetch_page(*page_id).unwrap();
        assert_eq!(
            buffer_pool.page_data(&page).unwrap(),
            vec![n as u8 + 1; bustubx::common::rid::PAGE_SIZE]
        );
        assert!(buffer_pool.unpin_page(page));
    }
    assert_eq!(
        buffer_pool.read_page(3).unwrap(),
        vec![3u8; bustubx::common::rid::PAGE_SIZE]
    );
}

#[test]
fn buffer_pool_every_frame_is_free_pinned_or_evictable() {
    let disk_manager = DiskManager::new();
    let mut buffer_pool = BufferPoolManager::new(4, disk_manager);
    let first = buffer_pool.new_page().unwrap();
    let second = buffer_pool.new_page().unwrap();
    let third = buffer_pool.new_page().unwrap();
    // 1 free, 3 pinned, 0 evictable
    assert_eq!(buffer_pool.free_list_len(), 1);
    assert_eq!(buffer_pool.replacer_size(), 0);
    buffer_pool.unpin_page(second);
    // 1 free, 2 pinned, 1 evictable
    assert_eq!(buffer_pool.free_list_len() + 2 + buffer_pool.replacer_size(), 4);
    assert_eq!(buffer_pool.replacer_size(), 1);
    let again = buffer_pool.fetch_page(first.page_id()).unwrap();
    assert_eq!(again.frame_id(), first.frame_id());
    buffer_pool.unpin_page(first);
    // the page is still pinned by the second handle
    assert_eq!(buffer_pool.replacer_size(), 1);
    buffer_pool.unpin_page(again);
    assert_eq!(buffer_pool.replacer_size(), 2);
    buffer_pool.unpin_page(third);
    assert_eq!(buffer_pool.replacer_size(), 3);
    assert_eq!(buffer_pool.free_list_len(), 1);
}

#[test]
fn buffer_pool_no_two_frames_hold_the_same_page() {
    let disk_manager = DiskManager::new();
    let mut buffer_pool = BufferPoolManager::new(3, disk_manager);
    for _ in 0..6 {
        let page = buffer_pool.new_page().unwrap();
        buffer_pool.unpin_page(page);
    }
    for page_id in [2u32, 5, 2, 6, 1, 5] {
        let page = buffer_pool.fetch_page(page_id).unwrap();
        buffer_pool.unpin_page(page);
    }
    let mut seen = Vec::new();
    for frame_id in 0..3 {
        if let Some(page_id) = buffer_pool.page_id_in(frame_id) {
            assert!(!seen.contains(&page_id));
            assert_eq!(buffer_pool.frame_id_of(page_id), Some(frame_id));
            seen.push(page_id);
        }
    }
    assert_eq!(seen.len(), buffer_pool.page_table_len());
}

#[test]
fn buffer_pool_errors() {
    let disk_manager = DiskManager::new();
    let mut buffer_pool = BufferPoolManager::new(1, disk_manager);
    let page = buffer_pool.new_page().unwrap();
    assert_eq!(buffer_pool.new_page().unwrap_err(), bustubx::BustubxError::BufferPoolFull);
    assert_eq!(buffer_pool.fetch_page(9).unwrap_err(), bustubx::BustubxError::NoFreeFrame);
    buffer_pool.unpin_page(page);
    assert_eq!(buffer_pool.fetch_page(9).unwrap_err(), bustubx::BustubxError::Io);
    assert_eq!(buffer_pool.fetch_page(0).unwrap_err(), bustubx::BustubxError::Io);
    let mut empty = BufferPoolManager::new(0, DiskManager::new());
    assert_eq!(empty.new_page().unwrap_err(), bustubx::BustubxError::BufferPoolFull);
}

#[test]
fn buffer_pool_flush_writes_to_disk() {
    let disk_manager = DiskManager::new();
    let mut buffer_pool = BufferPoolManager::new(3, disk_manager);
    let size = bustubx::common::rid::PAGE_SIZE;
    let first = buffer_pool.new_page().unwrap();
    let second = buffer_pool.new_page().unwrap();
    buffer_pool.set_page_data(&first, &vec![1u8; size]);
    buffer_pool.set_page_data(&second, &vec![2u8; size]);
    assert_eq!(buffer_pool.disk_manager().read_page(1).unwrap(), vec![0u8; size]);
    assert_eq!(buffer_pool.flush_page(1), Ok(true));
    assert_eq!(buffer_pool.flush_page(7), Ok(false));
    assert_eq!(buffer_pool.disk_manager().read_page(1).unwrap(), vec![1u8; size]);
    assert_eq!(buffer_pool.disk_manager().read_page(2).unwrap(), vec![0u8; size]);
    buffer_pool.flush_all_pages().unwrap();
    assert_eq!(buffer_pool.disk_manager().read_page(2).unwrap(), vec![2u8; size]);
    // flushing evicts nothing
    assert_eq!(buffer_pool.page_table_len(), 2);
    assert_eq!(buffer_pool.frame_id_of(1), Some(0));
}

#[test]
fn buffer_pool_delete_page_rules() {
    let disk_manager = DiskManager::new();
    let mut buffer_pool = BufferPoolManager::new(3, disk_manager);
    let size = bustubx::common::rid::PAGE_SIZE;
    let page = buffer_pool.new_page().unwrap();
    buffer_pool.set_page_data(&page, &vec![4u8; size]);
    // a pinned page cannot be deleted
    assert_eq!(buffer_pool.delete_page(1), Ok(false));
    assert_eq!(buffer_pool.frame_id_of(1), Some(0));
    // a page that is not resident counts as deleted
    assert_eq!(buffer_pool.delete_page(42), Ok(true));
    buffer_pool.unpin_page(page);
    assert_eq!(buffer_pool.delete_page(1), Ok(true));
    assert_eq!(buffer_pool.frame_id_of(1), None);
    assert_eq!(buffer_pool.page_id_in(0), None);
    assert_eq!(buffer_pool.free_list_len(), 3);
    assert_eq!(buffer_pool.replacer_size(), 0);
    assert_eq!(buffer_pool.read_page(1).unwrap(), vec![0u8; size]);
}

#[test]
fn buffer_pool_handles_of_other_pools_release_nothing() {
    let mut first = BufferPoolManager::new(2, DiskManager::new());
    let mut second = BufferPoolManager::new(2, DiskManager::new());
    let handle = first.new_page().unwrap();
    assert!(!second.unpin_page(handle));
    assert_eq!(first.replacer_size(), 0);
    let own = first.fetch_page(1).unwrap();
    assert!(first.unpin_page(own));
    assert_eq!(first.replacer_size(), 0);
}
