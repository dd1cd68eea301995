use nanodb::diskmgr::DiskMgr;
use nanodb::filemgr::PAGE_RECORD_BYTE;
use nanodb::nanodb::{NanoDb, SelectResult, CATALOG_ATTRIBUTE_CAT};
use nanodb::parser::ast::{
    ColumnDef, CreateTableStatement, DataType, InsertIntoStatement, SelectStatement, SqlStatement, Value,
};
use nanodb::relop::record::Record;
use nanodb::types::Error;

fn select(db: &mut NanoDb, table: &str, columns: &[&str]) -> SelectResult {
    let statement = SqlStatement::Select(SelectStatement {
        table_name: table.to_string(),
        columns: columns.iter().map(|c| c.to_string()).collect(),
    });
    db.execute_statement(statement).unwrap().unwrap()
}

fn create_student(db: &mut NanoDb) {
    let statement = CreateTableStatement {
        table_name: "student".to_string(),
        columns: vec![
            ColumnDef { name: "id".to_string(), data_type: DataType::Int },
            ColumnDef { name: "name".to_string(), data_type: DataType::Varchar(10) },
            ColumnDef { name: "score".to_string(), data_type: DataType::Int },
        ],
    };
    assert!(db.execute_statement(SqlStatement::CreateTable(statement)).unwrap().is_none());
}

#[test]
fn executor_student_table() {
    let mut db = NanoDb::build(DiskMgr::new()).unwrap();
    db.init().unwrap();
    create_student(&mut db);
    for i in 0..10 {
        let statement = InsertIntoStatement {
            table_name: "student".to_string(),
            values: vec![Value::Int(3 + i), Value::String(format!("MyName{}", i)), Value::Int(80 + i)],
        };
        db.execute_statement(SqlStatement::InsertInto(statement)).unwrap();
    }
    let result = select(&mut db, "student", &["id", "score"]);
    assert_eq!(result.rows.len(), 10);
    assert_eq!(result.schema.len(), 2);
    for (i, (_, data)) in result.rows.iter().enumerate() {
        let rec = Record::new(*data, &result.schema);
        assert_eq!(rec.get_int_field(0).unwrap(), 3 + i as i32);
        assert_eq!(rec.get_int_field(1).unwrap(), 80 + i as i32);
    }
    let names = select(&mut db, "student", &["name"]);
    let rec = Record::new(names.rows[4].1, &names.schema);
    assert_eq!(rec.get_varchar_field(0).unwrap(), "MyName4");
}

#[test]
fn executor_catalog_describes_itself() {
    let mut db = NanoDb::build(DiskMgr::new()).unwrap();
    db.init().unwrap();
    db.init().unwrap();
    let result = select(&mut db, CATALOG_ATTRIBUTE_CAT, &["aname", "rname"]);
    assert_eq!(result.rows.len(), 5);
    let expected = ["aname", "rname", "type_", "size", "posit"];
    for (i, (_, data)) in result.rows.iter().enumerate() {
        let rec = Record::new(*data, &result.schema);
        assert_eq!(rec.get_varchar_field(0).unwrap(), expected[i]);
        assert_eq!(rec.get_varchar_field(1).unwrap(), "attr_");
    }
}

#[test]
fn executor_errors() {
    let mut db = NanoDb::build(DiskMgr::new()).unwrap();
    db.init().unwrap();
    let missing = SqlStatement::Select(SelectStatement { table_name: "nope".to_string(), columns: vec![] });
    assert!(matches!(db.execute_statement(missing), Err(Error::RelationNotFound { .. })));
    create_student(&mut db);
    let bad = InsertIntoStatement { table_name: "student".to_string(), values: vec![Value::Int(1)] };
    assert!(matches!(db.execute_statement(SqlStatement::InsertInto(bad)), Err(Error::InvalidArg { .. })));
    let long = InsertIntoStatement {
        table_name: "student".to_string(),
        values: vec![Value::Int(1), Value::String("much too long".to_string()), Value::Int(2)],
    };
    assert!(matches!(db.execute_statement(SqlStatement::InsertInto(long)), Err(Error::InvalidArg { .. })));
    let statement = CreateTableStatement { table_name: "student".to_string(), columns: vec![] };
    assert!(matches!(db.execute_statement(SqlStatement::CreateTable(statement)), Err(Error::InvalidArg { .. })));
}

#[test]
fn executor_survives_reopen() {
    let mut db = NanoDb::build(DiskMgr::new()).unwrap();
    db.init().unwrap();
    create_student(&mut db);
    let statement = InsertIntoStatement {
        table_name: "student".to_string(),
        values: vec![Value::Int(7), Value::String("Ann".to_string()), Value::Int(99)],
    };
    db.execute_statement(SqlStatement::InsertInto(statement)).unwrap();
    let image = db.flush().to_vec();
    let mut db = NanoDb::build(DiskMgr::open_image(image)).unwrap();
    db.init().unwrap();
    let result = select(&mut db, "student", &["score", "id"]);
    assert_eq!(result.rows.len(), 1);
    let rec = Record::new(result.rows[0].1, &result.schema);
    assert_eq!(rec.get_int_field(0).unwrap(), 99);
    assert_eq!(rec.get_int_field(1).unwrap(), 7);
    let cat = select(&mut db, CATALOG_ATTRIBUTE_CAT, &["aname"]);
    assert_eq!(cat.rows.len(), 8);
    assert_eq!(result.rows[0].1.len(), PAGE_RECORD_BYTE);
}
