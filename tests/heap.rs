use nanodb::bufmgr::BufMgr;
use nanodb::diskmgr::DiskMgr;
use nanodb::filemgr::heap_file::HeapFile;
use nanodb::filemgr::hfilemgr::HFileMgr;
use nanodb::filemgr::raw_file_scan::RawFileScan;
use nanodb::filemgr::{HeaderPage, RecordId, RecordPage, SlotNo, PAGE_CAPACITY, PAGE_RECORD_BYTE};
use nanodb::page::Page;
use nanodb::types::{EntryNo, Error};

fn new_mgr() -> HFileMgr {
    HFileMgr::build(BufMgr::new(10, DiskMgr::new())).unwrap()
}

fn scan_all(mgr: &mut HFileMgr, file: &HeapFile) -> Vec<(RecordId, [u8; PAGE_RECORD_BYTE])> {
    let mut scan = RawFileScan::new(HeapFile::new(file.get_entry_no()));
    let mut out = Vec::new();
    while let Some(x) = scan.get_next(&mut mgr.bufmgr).unwrap() {
        out.push(x);
    }
    out
}

fn rid(p: usize, s: usize) -> RecordId {
    RecordId::new(p, SlotNo::new(s))
}

#[test]
fn raw_file_scan_test_merge_sort() {
    let mut filemgr = new_mgr();
    let mut file = filemgr.create_file("file0").unwrap();
    for i in 0..10 {
        let mut data = [0; PAGE_RECORD_BYTE];
        data[1] = i;
        file.insert_record(&mut filemgr.bufmgr, data).unwrap();
    }
    let mut scan = RawFileScan::new(file);
    scan.get_next(&mut filemgr.bufmgr).unwrap();
    scan.get_next(&mut filemgr.bufmgr).unwrap();
    assert_eq!(2, scan.peer_next_rid(&mut filemgr.bufmgr).unwrap().unwrap().slot_no.value);
    assert_eq!(2, scan.get_next(&mut filemgr.bufmgr).unwrap().unwrap().0.slot_no.value);
    let mut count = 3;
    while let Some(_) = scan.peer_next_rid(&mut filemgr.bufmgr).unwrap() {
        scan.get_next(&mut filemgr.bufmgr).unwrap();
        count += 1;
    }
    assert_eq!(count, 10);
}

#[test]
fn heap_file_insert_delete_reuse_scenario() {
    let mut mgr = new_mgr();
    let mut file = mgr.create_file("t").unwrap();
    let mut data = [0u8; PAGE_RECORD_BYTE];
    for i in 0..10 {
        data[i] = i as u8 + 1;
    }
    let mut rids = Vec::new();
    for _ in 0..12 {
        rids.push(file.insert_record(&mut mgr.bufmgr, data).unwrap());
    }
    let rows = scan_all(&mut mgr, &file);
    assert_eq!(rows.len(), 12);
    let scanned: Vec<RecordId> = rows.iter().map(|x| x.0).collect();
    assert_eq!(scanned, rids);
    assert_eq!(rids[0], rid(2, 0));
    assert_eq!(rids[7], rid(3, 3));

    file.delete_record(&mut mgr.bufmgr, rid(3, 3)).unwrap();
    assert!(matches!(file.get_record(&mut mgr.bufmgr, rid(3, 3)), Err(Error::InvalidArg { .. })));
    let rows = scan_all(&mut mgr, &file);
    assert_eq!(rows.len(), 11);
    assert!(rows.iter().all(|x| x.0 != rid(3, 3)));

    let mut other = [0u8; PAGE_RECORD_BYTE];
    for i in 0..10 {
        other[i] = 10 + i as u8 + 1;
    }
    let r = file.insert_record(&mut mgr.bufmgr, other).unwrap();
    assert_eq!(r, rid(3, 3));
    let rec = file.get_record(&mut mgr.bufmgr, r).unwrap();
    assert_eq!(13, rec[2]);
    let rows = scan_all(&mut mgr, &file);
    assert_eq!(rows.len(), 12);
    assert_eq!(rows[7], (rid(3, 3), other));
    for i in 0..12 {
        assert_eq!(mgr.bufmgr.get_pin_count(2 + i / 4), 0);
    }
}

#[test]
fn heap_file_insert_get_identity() {
    let mut mgr = new_mgr();
    let mut file = mgr.create_file("f").unwrap();
    let mut rids = Vec::new();
    for i in 0..9u8 {
        let mut d = [0u8; PAGE_RECORD_BYTE];
        d[0] = i;
        d[PAGE_RECORD_BYTE - 1] = 255 - i;
        rids.push((file.insert_record(&mut mgr.bufmgr, d).unwrap(), d));
    }
    for (r, d) in rids.iter() {
        assert_eq!(file.get_record(&mut mgr.bufmgr, *r).unwrap(), *d);
    }
    assert!(matches!(file.get_record(&mut mgr.bufmgr, rid(1, 0)), Err(Error::InvalidArg { .. })));
    assert!(matches!(file.get_record(&mut mgr.bufmgr, rid(2, 3 + PAGE_CAPACITY)), Err(Error::InvalidArg { .. })));
}

#[test]
fn heap_file_names_are_unique() {
    let mut mgr = new_mgr();
    let a = mgr.create_file("alpha").unwrap();
    let b = mgr.create_file("beta").unwrap();
    assert_ne!(a.get_entry_no(), b.get_entry_no());
    assert!(matches!(mgr.create_file("alpha"), Err(Error::InvalidArg { .. })));
    let again = mgr.open("beta").unwrap();
    assert_eq!(again.get_entry_no(), b.get_entry_no());
    let c = mgr.open("gamma").unwrap();
    assert_eq!(c.get_entry_no(), EntryNo::new(2));
    assert!(matches!(mgr.create_file("a name longer than twenty"), Err(Error::InvalidArg { .. })));
}

#[test]
fn heap_file_runs_out_of_pages() {
    let mut mgr = new_mgr();
    let mut file = mgr.create_file("big").unwrap();
    let d = [1u8; PAGE_RECORD_BYTE];
    for _ in 0..8 * PAGE_CAPACITY {
        file.insert_record(&mut mgr.bufmgr, d).unwrap();
    }
    assert!(matches!(file.insert_record(&mut mgr.bufmgr, d), Err(Error::NoFreePage)));
}

#[test]
fn record_page_slots() {
    let mut rp = RecordPage::new(Page::new());
    assert_eq!(rp.capasity(), PAGE_CAPACITY);
    assert_eq!(rp.get_num_slots().unwrap(), 0);
    let a = [1u8; PAGE_RECORD_BYTE];
    let b = [2u8; PAGE_RECORD_BYTE];
    assert_eq!(rp.add_slot(a).unwrap(), SlotNo::new(0));
    assert_eq!(rp.add_slot(b).unwrap(), SlotNo::new(1));
    assert_eq!(rp.get_num_slots().unwrap(), 2);
    rp.swap_slot(SlotNo::new(0), SlotNo::new(1)).unwrap();
    assert_eq!(rp.get_slot(SlotNo::new(0)).unwrap(), b);
    assert_eq!(rp.get_slot(SlotNo::new(1)).unwrap(), a);
    rp.set_slot_bit(SlotNo::new(0), 0).unwrap();
    assert!(rp.is_free_slot(SlotNo::new(0)).unwrap());
    assert!(matches!(rp.get_slot(SlotNo::new(0)), Err(Error::InvalidArg { .. })));
    assert!(matches!(rp.is_free_slot(SlotNo::new(2)), Err(Error::InvalidArg { .. })));
    rp.set_slot(SlotNo::new(0), a).unwrap();
    assert_eq!(rp.get_slot(SlotNo::new(0)).unwrap(), a);
    rp.set_next_page_id(7).unwrap();
    assert_eq!(rp.get_next_page_id().unwrap(), 7);
    rp.free_all().unwrap();
    assert!(rp.is_free_slot(SlotNo::new(1)).unwrap());
    assert_eq!(rp.next_live_slot(0), None);
}

#[test]
fn record_page_reuses_freed_slot_when_full() {
    let mut rp = RecordPage::new(Page::new());
    for i in 0..PAGE_CAPACITY {
        rp.add_slot([i as u8; PAGE_RECORD_BYTE]).unwrap();
    }
    assert!(matches!(rp.add_slot([9u8; PAGE_RECORD_BYTE]), Err(Error::InvalidArg { .. })));
    assert_eq!(rp.place_record([9u8; PAGE_RECORD_BYTE]).unwrap(), None);
    rp.set_slot_bit(SlotNo::new(2), 0).unwrap();
    assert_eq!(rp.next_live_slot(2), Some(SlotNo::new(3)));
    assert_eq!(rp.place_record([9u8; PAGE_RECORD_BYTE]).unwrap(), Some(SlotNo::new(2)));
    assert_eq!(rp.get_slot(SlotNo::new(2)).unwrap(), [9u8; PAGE_RECORD_BYTE]);
}

#[test]
fn header_page_entries() {
    let mut hp = HeaderPage::new(Page::new());
    let e = hp.new_entry().unwrap();
    assert_eq!(e, EntryNo::new(0));
    hp.set_head_free_page_id(e, 5).unwrap();
    hp.set_head_full_page_id(e, 0).unwrap();
    hp.set_name(e, "students").unwrap();
    assert_eq!(hp.get_head_free_page_id(e).unwrap(), 5);
    assert_eq!(hp.new_entry().unwrap(), EntryNo::new(1));
    assert_eq!(hp.find("students").unwrap(), Some(e));
    assert_eq!(hp.find("stud").unwrap(), Some(e));
    assert_eq!(hp.find("teachers").unwrap(), None);
    let name = hp.get_name(e).unwrap().unwrap();
    assert!(name.starts_with("students"));
    assert!(matches!(hp.set_name(e, "0123456789012345678901"), Err(Error::InvalidArg { .. })));
    assert!(matches!(hp.get_head_free_page_id(EntryNo::new(10)), Err(Error::InvalidArg { .. })));
}
