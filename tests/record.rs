use nanodb::filemgr::PAGE_RECORD_BYTE;
use nanodb::relop::record::Record;
use nanodb::relop::schema::{AttributeType, Schema};
use nanodb::types::Error;

#[test]
fn test_record() {
    let schema = Schema::build(vec![
        ("id".to_string(), AttributeType::Int),
        ("name".to_string(), AttributeType::Varchar(10)),
        ("qty".to_string(), AttributeType::Int),
    ]);
    let mut record = Record::new_zero(&schema);

    let id = 5;
    let name = "MyName".to_string();
    let qty = 6;
    record.set_int_field(0, id).unwrap();
    record.set_varchar_field(1, &name).unwrap();
    record.set_int_field(2, qty).unwrap();

    assert_eq!(id, record.get_int_field(0).unwrap());
    assert_eq!(name, record.get_varchar_field(1).unwrap());
    assert_eq!(qty, record.get_int_field(2).unwrap());
}

#[test]
fn record_field_layout() {
    let schema = Schema::build(vec![
        ("id".to_string(), AttributeType::Int),
        ("name".to_string(), AttributeType::Varchar(4)),
        ("score".to_string(), AttributeType::Int),
    ]);
    let mut rec = Record::new_zero(&schema);
    rec.set_int_field(0, 4).unwrap();
    rec.set_varchar_field(1, &"KVM".to_string()).unwrap();
    rec.set_int_field(2, -1).unwrap();
    let data = rec.get_data();
    assert_eq!(&data[0..12], &[4, 0, 0, 0, 75, 86, 77, 0, 255, 255, 255, 255]);
    assert_eq!(rec.get_field_len(), 3);
}

#[test]
fn record_reads_text_up_to_terminator() {
    let schema = Schema::build(vec![
        ("id".to_string(), AttributeType::Int),
        ("name".to_string(), AttributeType::Varchar(4)),
    ]);
    let mut data = [0u8; PAGE_RECORD_BYTE];
    data[0] = 4;
    data[4] = 75;
    data[5] = 76;
    data[6] = 77;
    let rec = Record::new(data, &schema);
    assert_eq!(4, rec.get_int_field(0).unwrap());
    assert_eq!("KLM", rec.get_varchar_field(1).unwrap());

    let mut full = [0u8; PAGE_RECORD_BYTE];
    full[4] = 75;
    full[5] = 76;
    full[6] = 77;
    full[7] = 78;
    let rec = Record::new(full, &schema);
    assert_eq!(None, rec.get_varchar_field(1));
}

#[test]
fn record_rejects_wrong_type_and_long_text() {
    let schema = Schema::build(vec![
        ("id".to_string(), AttributeType::Int),
        ("name".to_string(), AttributeType::Varchar(4)),
    ]);
    let mut rec = Record::new_zero(&schema);
    assert!(matches!(rec.set_int_field(1, 3), Err(Error::InvalidArg { .. })));
    assert!(matches!(rec.set_varchar_field(0, &"a".to_string()), Err(Error::InvalidArg { .. })));
    assert!(matches!(rec.set_varchar_field(1, &"ABCD".to_string()), Err(Error::InvalidArg { .. })));
    assert!(matches!(rec.set_int_field(7, 3), Err(Error::InvalidArg { .. })));
    assert_eq!(rec.get_int_field(1), None);
    assert_eq!(rec.get_varchar_field(0), None);
    rec.set_varchar_field(1, &"ABC".to_string()).unwrap();
    assert_eq!(rec.get_varchar_field(1).unwrap(), "ABC");
}

#[test]
fn record_round_trip_of_every_field() {
    let schema = Schema::build(vec![
        ("a".to_string(), AttributeType::Varchar(6)),
        ("b".to_string(), AttributeType::Int),
        ("c".to_string(), AttributeType::Varchar(3)),
    ]);
    let mut rec = Record::new_zero(&schema);
    rec.set_varchar_field(0, &"hello".to_string()).unwrap();
    rec.set_int_field(1, i32::MIN).unwrap();
    rec.set_varchar_field(2, &"".to_string()).unwrap();
    assert_eq!(rec.get_varchar_field(0).unwrap(), "hello");
    assert_eq!(rec.get_int_field(1).unwrap(), i32::MIN);
    assert_eq!(rec.get_varchar_field(2).unwrap(), "");
}

#[test]
fn record_fields_as_text() {
    let schema = Schema::build(vec![
        ("id".to_string(), AttributeType::Int),
        ("name".to_string(), AttributeType::Varchar(10)),
    ]);
    let mut rec = Record::new_zero(&schema);
    rec.set_int_field(0, -120).unwrap();
    rec.set_varchar_field(1, &"MyName".to_string()).unwrap();
    assert_eq!(rec.get_as_string(0).unwrap(), "-120");
    assert_eq!(rec.get_as_string(1).unwrap(), "MyName");
    assert_eq!(rec.get_as_string(2), None);
    rec.set_int_field(0, 7).unwrap();
    assert_eq!(rec.get_as_string(0).unwrap(), "7");
}
