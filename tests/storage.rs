use nanodb::bufmgr::BufMgr;
use nanodb::diskmgr::{DiskMgr, IMAGE_BYTE, NUM_PAGES};
use nanodb::page::{Page, PAGE_BYTE};
use nanodb::types::Error;

#[test]
fn test_diskmgr() {
    let mut diskmgr = DiskMgr::new();
    let pid0 = diskmgr.allocate_page().unwrap();
    let pid1 = diskmgr.allocate_page().unwrap();
    assert_eq!((pid0, pid1), (2, 3));
    let mut page0 = diskmgr.read_page(pid0).unwrap();
    let mut page1 = diskmgr.read_page(pid1).unwrap();
    page0.set_varchar_value(10, "hello").unwrap();
    page1.set_int_value(6, 9).unwrap();
    diskmgr.write_page(pid0, &page0).unwrap();
    diskmgr.write_page(pid1, &page1).unwrap();

    let image = diskmgr.get_image().to_vec();
    assert_eq!(image.len(), IMAGE_BYTE);
    let mut diskmgr = DiskMgr::open_image(image);
    let page2 = diskmgr.read_page(pid0).unwrap();
    let page3 = diskmgr.read_page(pid1).unwrap();
    assert_eq!("hello", page2.get_varchar_value(10, 5).unwrap());
    assert_eq!(9, page3.get_int_value(6).unwrap());

    diskmgr.deallocate_page(pid0).unwrap();
    diskmgr.deallocate_page(pid1).unwrap();
    let a = diskmgr.read_page(pid0);
    assert!(a.is_err());
}

#[test]
fn disk_bitmap_consistency() {
    let mut diskmgr = DiskMgr::new();
    assert!(!diskmgr.is_free_page(0).unwrap());
    let pid = diskmgr.allocate_page().unwrap();
    assert!(!diskmgr.is_free_page(pid).unwrap());
    diskmgr.deallocate_page(pid).unwrap();
    assert!(diskmgr.is_free_page(pid).unwrap());
    diskmgr.deallocate_page(pid).unwrap();
    assert!(diskmgr.is_free_page(pid).unwrap());
    assert_eq!(diskmgr.allocate_page().unwrap(), pid);
    assert!(matches!(diskmgr.is_free_page(NUM_PAGES), Err(Error::InvalidArg { .. })));
    assert!(matches!(diskmgr.write_page(5, &Page::new()), Err(Error::InvalidArg { .. })));
}

#[test]
fn disk_runs_out_of_pages() {
    let mut diskmgr = DiskMgr::new();
    for pid in 2..NUM_PAGES {
        assert_eq!(diskmgr.allocate_page().unwrap(), pid);
    }
    assert!(matches!(diskmgr.allocate_page(), Err(Error::NoFreePage)));
}

#[test]
fn disk_image_is_cut_or_padded() {
    let d = DiskMgr::open_image(vec![7u8; IMAGE_BYTE + 3]);
    assert_eq!(d.get_image().len(), IMAGE_BYTE);
    assert_eq!(d.get_image()[0], 1);
    assert_eq!(d.get_image()[1], 7);
    let d = DiskMgr::open_image(vec![0u8, 0, 1]);
    assert_eq!(d.get_image().len(), IMAGE_BYTE);
    assert_eq!(&d.get_image()[0..4], &[1, 0, 1, 0]);
}

#[test]
fn page_codec_round_trip() {
    let mut page = Page::new();
    assert_eq!(page.len(), PAGE_BYTE);
    page.set_int_value(0, -7).unwrap();
    page.set_int_value(PAGE_BYTE - 4, 123456).unwrap();
    page.set_byte_value(20, 200).unwrap();
    page.set_varchar_value(30, "abc").unwrap();
    assert_eq!(page.get_int_value(0).unwrap(), -7);
    assert_eq!(page.get_int_value(PAGE_BYTE - 4).unwrap(), 123456);
    assert_eq!(page.get_byte_value(20).unwrap(), 200);
    assert_eq!(page.get_varchar_value(30, 3).unwrap(), "abc");
    assert_eq!(page.get_varchar_value(30, 4).unwrap(), "abc\0");
    assert_eq!(&page.get_data()[0..4], &[0xf9, 0xff, 0xff, 0xff]);
}

#[test]
fn page_codec_rejects_out_of_range() {
    let mut page = Page::new();
    assert!(matches!(page.get_int_value(PAGE_BYTE - 3), Err(Error::InvalidArg { .. })));
    assert!(matches!(page.set_int_value(PAGE_BYTE - 3, 1), Err(Error::InvalidArg { .. })));
    assert!(matches!(page.get_byte_value(PAGE_BYTE), Err(Error::InvalidArg { .. })));
    assert!(matches!(page.set_byte_value(PAGE_BYTE, 1), Err(Error::InvalidArg { .. })));
    assert!(matches!(page.set_varchar_value(PAGE_BYTE - 2, "abc"), Err(Error::InvalidArg { .. })));
    assert!(matches!(page.get_varchar_value(PAGE_BYTE - 2, 3), Err(Error::InvalidArg { .. })));
    page.set_byte_value(0, 0xff).unwrap();
    assert!(matches!(page.get_varchar_value(0, 1), Err(Error::InvalidArg { .. })));
}

#[test]
fn test_bufmgr() {
    let diskmgr = DiskMgr::new();
    let mut bufmgr = BufMgr::new(10, diskmgr);
    let (pid0, mut page0) = bufmgr.create_page().unwrap();

    page0.set_varchar_value(10, "written by bufmgr").unwrap();
    bufmgr.set_page(pid0, page0).unwrap();
    bufmgr.flush_page(pid0).unwrap();
    bufmgr.unpin_page(pid0).unwrap();

    let page1 = bufmgr.pin_page(pid0).unwrap();
    assert_eq!(page1.get_varchar_value(10, 17).unwrap(), "written by bufmgr");
    bufmgr.unpin_page(pid0).unwrap();
    let on_disk = bufmgr.get_diskmgr().read_page(pid0).unwrap();
    assert_eq!(on_disk.get_varchar_value(10, 17).unwrap(), "written by bufmgr");

    bufmgr.free_page(pid0).unwrap();
    let e = bufmgr.pin_page(pid0);
    assert!(e.is_err());
}

#[test]
fn bufmgr_pins_and_errors() {
    let mut bufmgr = BufMgr::new(10, DiskMgr::new());
    assert!(matches!(bufmgr.unpin_page(4), Err(Error::PageNotFound { .. })));
    assert!(matches!(bufmgr.flush_page(4), Err(Error::PageNotFound { .. })));
    assert!(matches!(bufmgr.pin_page(4), Err(Error::InvalidArg { .. })));
    assert!(matches!(bufmgr.pin_page(0), Err(Error::InvalidArg { .. })));
    let (pid, _) = bufmgr.create_page().unwrap();
    assert_eq!(bufmgr.get_pin_count(pid), 1);
    bufmgr.pin_page(pid).unwrap();
    assert_eq!(bufmgr.get_pin_count(pid), 2);
    assert!(matches!(bufmgr.free_page(pid), Err(Error::InvalidArg { .. })));
    bufmgr.unpin_page(pid).unwrap();
    bufmgr.unpin_page(pid).unwrap();
    assert_eq!(bufmgr.get_pin_count(pid), 0);
    assert!(matches!(bufmgr.unpin_page(pid), Err(Error::InvalidArg { .. })));
}

#[test]
fn bufmgr_buffer_full_then_room_after_unpin() {
    let mut disk = DiskMgr::new();
    let a = disk.allocate_page().unwrap();
    let b = disk.allocate_page().unwrap();
    let c = disk.allocate_page().unwrap();
    let mut bufmgr = BufMgr::new(2, disk);
    bufmgr.pin_page(a).unwrap();
    bufmgr.pin_page(b).unwrap();
    assert!(matches!(bufmgr.pin_page(c), Err(Error::BufferFull)));
    bufmgr.unpin_page(a).unwrap();
    bufmgr.pin_page(c).unwrap();
    assert_eq!(bufmgr.get_pin_count(c), 1);
    assert_eq!(bufmgr.get_pin_count(a), 0);
}

#[test]
fn bufmgr_writes_back_an_evicted_page() {
    let mut disk = DiskMgr::new();
    let a = disk.allocate_page().unwrap();
    let b = disk.allocate_page().unwrap();
    let mut bufmgr = BufMgr::new(1, disk);
    let mut page = bufmgr.pin_page(a).unwrap();
    page.set_int_value(0, 77).unwrap();
    bufmgr.set_page(a, page).unwrap();
    bufmgr.unpin_page(a).unwrap();
    bufmgr.pin_page(b).unwrap();
    bufmgr.unpin_page(b).unwrap();
    assert_eq!(bufmgr.get_diskmgr().read_page(a).unwrap().get_int_value(0).unwrap(), 77);
    assert_eq!(bufmgr.pin_page(a).unwrap().get_int_value(0).unwrap(), 77);
}
