use nanodb::relop::schema::{AttributeType, Schema};

#[test]
fn test_schema() {
    let schema = Schema::build(vec![
        ("id".to_string(), AttributeType::Int),
        ("name".to_string(), AttributeType::Varchar(3)),
        ("qty".to_string(), AttributeType::Int),
    ]);
    let fnos = vec![1, 2];
    let schema = schema.projection(&fnos).unwrap();
    assert_eq!(2, schema.len());
    assert_eq!("name", schema.get_name(0).unwrap());
    assert!(match schema.get_type(1).unwrap() {
        AttributeType::Int => true,
        _ => false,
    });
    println!("{:?}", schema);
}

#[test]
fn schema_offsets_are_prefix_sums() {
    let schema = Schema::build(vec![
        ("id".to_string(), AttributeType::Int),
        ("name".to_string(), AttributeType::Varchar(10)),
        ("score".to_string(), AttributeType::Int),
    ]);
    assert_eq!(*schema.get_offset(0).unwrap(), 0);
    assert_eq!(*schema.get_offset(1).unwrap(), 4);
    assert_eq!(*schema.get_offset(2).unwrap(), 14);
    assert_eq!(schema.get_offset(3), None);
    assert_eq!(AttributeType::Varchar(10).get_size(), 10);
    assert_eq!(AttributeType::Int.get_size(), 4);
    let p = schema.projection(&vec![2, 0]).unwrap();
    assert_eq!(*p.get_offset(1).unwrap(), 4);
    assert_eq!(p.get_name(1).unwrap(), "id");
    assert!(schema.projection(&vec![0, 3]).is_none());
}
