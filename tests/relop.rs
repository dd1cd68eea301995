use nanodb::bufmgr::BufMgr;
use nanodb::diskmgr::DiskMgr;
use nanodb::filemgr::heap_file::HeapFile;
use nanodb::filemgr::hfilemgr::HFileMgr;
use nanodb::filemgr::PAGE_RECORD_BYTE;
use nanodb::relop::file_scan::{FileScan, FileScanOnPage};
use nanodb::relop::merge_sort::{merge_runs, sort_run, MergeSort, Relation};
use nanodb::relop::projection::Projection;
use nanodb::relop::record::Record;
use nanodb::relop::schema::{AttributeType, Schema};
use nanodb::types::Error;

fn new_mgr() -> HFileMgr {
    HFileMgr::build(BufMgr::new(10, DiskMgr::new())).unwrap()
}

fn score_schema() -> Schema {
    Schema::build(vec![
        ("id".to_string(), AttributeType::Int),
        ("name".to_string(), AttributeType::Varchar(4)),
        ("score".to_string(), AttributeType::Int),
    ])
}

fn fill_scores(mgr: &mut HFileMgr, file: &mut HeapFile, scores: &[i32]) {
    let schema = score_schema();
    for i in 0..scores.len() {
        let mut rec = Record::new_zero(&schema);
        rec.set_int_field(0, i as i32).unwrap();
        rec.set_varchar_field(1, &"KVM".to_string()).unwrap();
        rec.set_int_field(2, scores[i]).unwrap();
        file.insert_record(&mut mgr.bufmgr, *rec.get_data()).unwrap();
    }
}

fn scan_pairs(mgr: &mut HFileMgr, file: &HeapFile) -> Vec<(i32, i32)> {
    let mut scan = FileScan::new(HeapFile::new(file.get_entry_no()), score_schema());
    let mut out = Vec::new();
    while let Some((_, rec)) = scan.get_next(&mut mgr.bufmgr).unwrap() {
        out.push((rec.get_int_field(0).unwrap(), rec.get_int_field(2).unwrap()));
    }
    out
}

#[test]
fn relop_test_relmgr() {
    let mut filemgr = new_mgr();
    let mut file0 = filemgr.create_file("file0").unwrap();
    let mut data = [0; PAGE_RECORD_BYTE];
    data[0] = 4;
    data[4] = 75;
    data[5] = 76;
    data[6] = 77;
    for _ in 0..15 {
        file0.insert_record(&mut filemgr.bufmgr, data).unwrap();
    }
    let schema = Schema::build(vec![
        ("id".to_string(), AttributeType::Int),
        ("name".to_string(), AttributeType::Varchar(4)),
    ]);
    let mut count = 0;
    let mut scan = FileScan::new(file0, schema);
    let (_, rec) = scan.get_next(&mut filemgr.bufmgr).unwrap().unwrap();
    count += 1;
    assert_eq!(4, rec.get_int_field(0).unwrap());
    assert_eq!("KLM", rec.get_varchar_field(1).unwrap());
    while let Some(_) = scan.get_next(&mut filemgr.bufmgr).unwrap() {
        count += 1;
    }
    assert_eq!(15, count);
}

#[test]
fn relop_test_relmgr_projection() {
    let mut filemgr = new_mgr();
    let mut file0 = filemgr.create_file("file0").unwrap();
    let schema = Schema::build(vec![
        ("id".to_string(), AttributeType::Int),
        ("name".to_string(), AttributeType::Varchar(4)),
    ]);
    let mut rec = Record::new_zero(&schema);
    rec.set_int_field(0, 4).unwrap();
    rec.set_varchar_field(1, &"KVM".to_string()).unwrap();
    let data = rec.get_data();
    for _ in 0..2 {
        file0.insert_record(&mut filemgr.bufmgr, *data).unwrap();
    }
    let file_scan = FileScan::new(file0, Schema::build(vec![
        ("id".to_string(), AttributeType::Int),
        ("name".to_string(), AttributeType::Varchar(4)),
    ]));
    let fnos = vec![1];
    let mut iterator = Projection::build(file_scan, fnos).unwrap();
    let (_, rec) = iterator.get_next(&mut filemgr.bufmgr).unwrap().unwrap();
    assert_eq!(1, rec.get_field_len());
    assert_eq!("KVM", rec.get_varchar_field(0).unwrap());
    assert!(iterator.get_next(&mut filemgr.bufmgr).unwrap().is_some());
    assert!(iterator.get_next(&mut filemgr.bufmgr).unwrap().is_none());
}

#[test]
fn projection_reorders_fields() {
    let mut mgr = new_mgr();
    let mut file = mgr.create_file("p").unwrap();
    fill_scores(&mut mgr, &mut file, &[70, 71, 72]);
    let mut proj = Projection::build(FileScan::new(file, score_schema()), vec![2, 1, 0]).unwrap();
    let mut i = 0;
    while let Some((_, rec)) = proj.get_next(&mut mgr.bufmgr).unwrap() {
        assert_eq!(rec.get_int_field(0).unwrap(), 70 + i);
        assert_eq!(rec.get_varchar_field(1).unwrap(), "KVM");
        assert_eq!(rec.get_int_field(2).unwrap(), i);
        assert_eq!(&rec.get_data()[0..4], &[70 + i as u8, 0, 0, 0]);
        i += 1;
    }
    assert_eq!(i, 3);
    let bad = Projection::build(FileScan::new(HeapFile::new(proj_entry()), score_schema()), vec![3]);
    assert!(matches!(bad, Err(Error::InvalidArg { .. })));
}

fn proj_entry() -> nanodb::types::EntryNo {
    nanodb::types::EntryNo::new(0)
}

#[test]
fn file_scan_test_merge_sort() {
    let mut mgr = new_mgr();
    let mut file = mgr.create_file("file0").unwrap();
    let scores = [1, 5, 2, 6, 7, 3, 8, 9, 2, 5, 1, 3, 9, 21, 10, 13];
    fill_scores(&mut mgr, &mut file, &scores);
    assert_eq!(scan_pairs(&mut mgr, &file).len(), 16);

    let entry = file.get_entry_no();
    let mut scan = FileScanOnPage::new(HeapFile::new(entry), score_schema(), 3);
    let mut on_page = 0;
    while let Some((rid, _)) = scan.get_next(&mut mgr.bufmgr).unwrap() {
        assert_eq!(rid.page_id, 3);
        on_page += 1;
    }
    assert_eq!(on_page, 4);

    let mut scan = FileScanOnPage::new(HeapFile::new(entry), score_schema(), 3);
    scan.get_next(&mut mgr.bufmgr).unwrap();
    let (rid, _b) = scan.get_next(&mut mgr.bufmgr).unwrap().unwrap();
    assert_eq!(rid.page_id, 3);
    assert_eq!(rid.slot_no.value, 1);
}

#[test]
fn merge_sort_test_merge_sort() {
    let mut mgr = new_mgr();
    let mut file = mgr.create_file("file0").unwrap();
    let scores = [1, 5, 2, 6, 7, 3, 8, 9, 2, 5, 1, 3, 9];
    fill_scores(&mut mgr, &mut file, &scores);
    let entry = file.get_entry_no();
    let rel = Relation::new(file, score_schema());
    let mut merge_sort = MergeSort::new(rel, 2);
    merge_sort.sort(&mut mgr.bufmgr).unwrap();
    let pairs = scan_pairs(&mut mgr, &HeapFile::new(entry));
    let sorted: Vec<i32> = pairs.iter().map(|p| p.1).collect();
    assert_eq!(sorted, vec![1, 1, 2, 2, 3, 3, 5, 5, 6, 7, 8, 9, 9]);
    let mut before: Vec<(i32, i32)> = scores.iter().enumerate().map(|(i, s)| (i as i32, *s)).collect();
    let mut after = pairs.clone();
    before.sort();
    after.sort();
    assert_eq!(before, after);
}

#[test]
fn merge_sort_two_pages() {
    let mut mgr = new_mgr();
    let mut file = mgr.create_file("two").unwrap();
    fill_scores(&mut mgr, &mut file, &[5, 1, 4, 2, 3, 6, 0, 7]);
    let entry = file.get_entry_no();
    let mut ms = MergeSort::new(Relation::new(file, score_schema()), 2);
    ms.sort(&mut mgr.bufmgr).unwrap();
    let sorted: Vec<i32> = scan_pairs(&mut mgr, &HeapFile::new(entry)).iter().map(|p| p.1).collect();
    assert_eq!(sorted, vec![0, 1, 2, 3, 4, 5, 6, 7]);
    for pid in 2..4 {
        assert_eq!(mgr.bufmgr.get_pin_count(pid), 0);
    }
}

#[test]
fn merge_sort_rejects_text_key() {
    let mut mgr = new_mgr();
    let mut file = mgr.create_file("k").unwrap();
    fill_scores(&mut mgr, &mut file, &[2, 1]);
    let mut ms = MergeSort::new(Relation::new(file, score_schema()), 1);
    assert!(matches!(ms.sort(&mut mgr.bufmgr), Err(Error::InvalidArg { .. })));
}

#[test]
fn merge_runs_keeps_every_record() {
    let mut a = Vec::new();
    for k in [1i32, 4, 4, 9] {
        let mut r = [0u8; PAGE_RECORD_BYTE];
        r[4..8].copy_from_slice(&k.to_le_bytes());
        r[0] = a.len() as u8;
        a.push(r);
    }
    let mut b = Vec::new();
    for k in [-3i32, 4, 10] {
        let mut r = [0u8; PAGE_RECORD_BYTE];
        r[4..8].copy_from_slice(&k.to_le_bytes());
        r[0] = 100 + b.len() as u8;
        b.push(r);
    }
    let m = merge_runs(&a, &b, 4);
    let keys: Vec<i32> = m.iter().map(|r| i32::from_le_bytes([r[4], r[5], r[6], r[7]])).collect();
    assert_eq!(keys, vec![-3, 1, 4, 4, 4, 9, 10]);
    assert_eq!(m[2][0], 1);
    assert_eq!(m[4][0], 101);
    let s = sort_run(&vec![b[2], b[0], b[1]], 4);
    assert_eq!(s, b);
}

#[test]
fn merge_sort_partly_filled_pages() {
    for scores in [vec![3, 1, 2], vec![9, 8, 7, 6, 5, 4, 3], vec![2, 2, 1, 1, 0]] {
        let mut mgr = new_mgr();
        let mut file = mgr.create_file("part").unwrap();
        fill_scores(&mut mgr, &mut file, &scores);
        let entry = file.get_entry_no();
        let mut ms = MergeSort::new(Relation::new(file, score_schema()), 2);
        ms.sort(&mut mgr.bufmgr).unwrap();
        let got: Vec<i32> = scan_pairs(&mut mgr, &HeapFile::new(entry)).iter().map(|p| p.1).collect();
        let mut want = scores.clone();
        want.sort();
        assert_eq!(got, want);
    }
}
