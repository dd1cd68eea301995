use vstd::prelude::*;

verus! {

/// The type of a column in a statement.
#[derive(Debug, Clone, Copy, PartialEq, Eq, Structural)]
pub enum DataType {
    Int,
    Varchar(usize),
}

/// A column of a table to create.
#[derive(Debug)]
pub struct ColumnDef {
    pub name: String,
    pub data_type: DataType,
}

/// `CREATE TABLE name (column type, ...)`.
#[derive(Debug)]
pub struct CreateTableStatement {
    pub table_name: String,
    pub columns: Vec<ColumnDef>,
}

/// A value to insert.
#[derive(Debug, Clone)]
pub enum Value {
    Int(i32),
    String(String),
}

/// `INSERT INTO name VALUES (value, ...)`.
#[derive(Debug)]
pub struct InsertIntoStatement {
    pub table_name: String,
    pub values: Vec<Value>,
}

/// `SELECT column, ... FROM name`.
#[derive(Debug)]
pub struct SelectStatement {
    pub table_name: String,
    pub columns: Vec<String>,
}

/// A statement the executor runs.
#[derive(Debug)]
pub enum SqlStatement {
    CreateTable(CreateTableStatement),
    InsertInto(InsertIntoStatement),
    Select(SelectStatement),
}

} // verus!
