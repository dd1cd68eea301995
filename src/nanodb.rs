use vstd::prelude::*;

use crate::bufmgr::{same_pins_all, BufMgr};
use crate::diskmgr::{DiskMgr, HEADER_PAGE_ID, NUM_PAGES};
use crate::filemgr::heap_file::{lemma_same_pages_stored, no_record, records_kept, stored, HeapFile};
use crate::filemgr::hfilemgr::HFileMgr;
use crate::filemgr::raw_file_scan::{lemma_scan_next_same, scan_complete, scan_next, ScanStatus};
use crate::filemgr::{entry_matches, SlotNo, RecordId, HEADER_MAX_ENTRY, PAGE_CAPACITY, PAGE_RECORD_BYTE};
use crate::parser::ast::{
    CreateTableStatement, DataType, InsertIntoStatement, SelectStatement, SqlStatement, Value,
};
use crate::relop::file_scan::FileScan;
use crate::relop::projection::{projected, projects, Projection};
use crate::relop::record::{with_int_field, with_varchar_field, field_in_frame, int_field, lemma_tuple_round_trip, varchar_field, varchar_width, Record};
use crate::relop::schema::{AttributeType, Schema, SchemaView};
use vstd::utf8::encode_utf8;
use crate::types::{invalid_arg, EntryNo, Error, Res};
use vstd::string::StringSliceAdditionalSpecFns;

verus! {

/// The name of the catalog relation.
pub const CATALOG_ATTRIBUTE_CAT: &'static str = "attr_";

/// The number of frames of the buffer pool.
pub const BUFFER_POOL_SIZE: usize = 10;

/// The rows of a query: the schema they are read through and each record with its place.
pub struct SelectResult {
    pub schema: Schema,
    pub rows: Vec<(RecordId, [u8; PAGE_RECORD_BYTE])>,
}

/// The schema of the catalog: one row per attribute of every relation.
pub fn catalog_schema() -> (r: Schema)
    ensures
        r@.packed(),
        r@.types == seq![
            AttributeType::Varchar(10),
            AttributeType::Varchar(10),
            AttributeType::Varchar(10),
            AttributeType::Int,
            AttributeType::Int,
        ],
{
    let list = vec![
        ("aname".to_string(), AttributeType::Varchar(10)),
        ("rname".to_string(), AttributeType::Varchar(10)),
        ("type_".to_string(), AttributeType::Varchar(10)),
        ("size".to_string(), AttributeType::Int),
        ("posit".to_string(), AttributeType::Int),
    ];
    let r = Schema::build(list);
    assert(r@.types =~= seq![
        AttributeType::Varchar(10),
        AttributeType::Varchar(10),
        AttributeType::Varchar(10),
        AttributeType::Int,
        AttributeType::Int,
    ]);
    r
}

/// The column type of an attribute type.
pub open spec fn data_type_spec(t: AttributeType) -> DataType {
    match t {
        AttributeType::Int => DataType::Int,
        AttributeType::Varchar(n) => DataType::Varchar(n),
    }
}

/// The column type of an attribute type.
pub fn data_type_of(t: AttributeType) -> (r: DataType)
    ensures
        r == data_type_spec(t),
        t == AttributeType::Int ==> r == DataType::Int,
        t matches AttributeType::Varchar(n) ==> r == DataType::Varchar(n),
{
    match t {
        AttributeType::Int => DataType::Int,
        AttributeType::Varchar(n) => DataType::Varchar(n),
    }
}

/// The attribute type a catalog row names: `"int"`, or `"varchar"` of width `size`.
pub fn decode_attribute_type(kind_name: &String, size: usize) -> (r: Option<AttributeType>)
    ensures
        r matches Some(t) ==> (t == AttributeType::Int && kind_name@ == "int"@)
            || (t == AttributeType::Varchar(size) && kind_name@ == "varchar"@),
{
    let int_name = "int".to_string();
    let varchar_name = "varchar".to_string();
    if *kind_name == int_name {
        Some(AttributeType::Int)
    } else if *kind_name == varchar_name {
        Some(AttributeType::Varchar(size))
    } else {
        None
    }
}

/// The value `v` fits field `fno` of a record read through `sv`.
pub open spec fn value_fits(sv: SchemaView, fno: int, v: Value) -> bool {
    field_in_frame(sv, fno) && match v {
        Value::Int(_) => sv.types[fno] == AttributeType::Int,
        Value::String(s) => sv.types[fno] is Varchar && encode_utf8(s@).len() + 1 <= varchar_width(sv.types[fno]),
    }
}

/// The zero frame with the first `k` of `values` written into fields `0 .. k` of `sv`, in order.
pub open spec fn frame_of(sv: SchemaView, values: Seq<Value>, k: int) -> Seq<u8>
    decreases k,
{
    if k <= 0 {
        Seq::new(PAGE_RECORD_BYTE as nat, |i: int| 0u8)
    } else {
        let d = frame_of(sv, values, k - 1);
        match values[k - 1] {
            Value::Int(x) => with_int_field(sv, d, k - 1, x),
            Value::String(t) => with_varchar_field(sv, d, k - 1, encode_utf8(t@)),
        }
    }
}

/// The catalog row `(attr, rel, type name, size, fno)` read through `sv`; the size of an
/// integer column is 1.
pub open spec fn catalog_row(sv: SchemaView, attr: Seq<char>, rel: Seq<char>, ty: DataType, fno: int) -> Seq<u8> {
    let kind = match ty {
        DataType::Int => "int"@,
        DataType::Varchar(_) => "varchar"@,
    };
    let size: usize = match ty {
        DataType::Int => 1usize,
        DataType::Varchar(n) => n,
    };
    let d0 = Seq::new(PAGE_RECORD_BYTE as nat, |i: int| 0u8);
    let d1 = with_varchar_field(sv, d0, 0, encode_utf8(attr));
    let d2 = with_varchar_field(sv, d1, 1, encode_utf8(rel));
    let d3 = with_varchar_field(sv, d2, 2, encode_utf8(kind));
    let d4 = with_int_field(sv, d3, 3, size as i32);
    with_int_field(sv, d4, 4, fno as i32)
}

/// The record frame of schema `schema` whose fields hold `values`, one per column, on zero
/// bytes; `InvalidArg` where the number of values is not the number of columns or a value does
/// not fit its column.
pub fn fill_record(schema: &Schema, values: &Vec<Value>) -> (r: Res<[u8; PAGE_RECORD_BYTE]>)
    ensures
        r is Ok <==> values@.len() == schema@.names.len()
            && forall|j: int| 0 <= j < values@.len() ==> #[trigger] value_fits(schema@, j, values@[j]),
        r matches Err(e) ==> e is InvalidArg,
        r matches Ok(d) ==> forall|j: int| 0 <= j < values@.len() ==> (values@[j] matches Value::Int(x)
            ==> #[trigger] int_field(schema@, d@, j) is Some),
        r matches Ok(d) ==> d@ == frame_of(schema@, values@, values@.len() as int),
{
    if schema.len() != values.len() {
        return Err(invalid_arg("the number of values is not the number of columns"));
    }
    let mut rec = Record::new_zero(schema);
    let mut fno: usize = 0;
    assert(rec@ == frame_of(schema@, values@, 0));
    while fno < values.len()
        invariant
            rec.sch() == schema@,
            fno <= values@.len(),
            forall|j: int| 0 <= j < fno ==> #[trigger] value_fits(schema@, j, values@[j]),
            rec@ == frame_of(schema@, values@, fno as int),
        decreases values@.len() - fno,
    {
        let res = match &values[fno] {
            Value::Int(x) => rec.set_int_field(fno, *x),
            Value::String(x) => rec.set_varchar_field(fno, x),
        };
        if res.is_err() {
            proof {
                assert(!value_fits(schema@, fno as int, values@[fno as int]));
            }
            return Err(invalid_arg("a value does not fit its column"));
        }
        fno = fno + 1;
    }
    proof {
        assert forall|j: int| 0 <= j < values@.len() implies (values@[j] matches Value::Int(x)
            ==> #[trigger] int_field(schema@, rec@, j) is Some) by {
            assert(value_fits(schema@, j, values@[j]));
        }
    }
    Ok(*rec.get_data())
}

/// The executor: heap files, the catalog describing them, and the statements run on them.
pub struct NanoDb {
    filemgr: HFileMgr,
    catalog_attr_cat_file: HeapFile,
    catalog_attr_cat_schema: Schema,
}

impl NanoDb {
    /// The buffer pool underneath.
    pub closed spec fn pool(&self) -> BufMgr {
        self.filemgr.bufmgr
    }

    /// The directory entry of the catalog file.
    pub closed spec fn catalog(&self) -> EntryNo {
        self.catalog_attr_cat_file.entry()
    }

    /// The schema of the catalog rows.
    pub closed spec fn catalog_sch(&self) -> SchemaView {
        self.catalog_attr_cat_schema@
    }

    /// The file manager is well formed and the catalog schema is the catalog's.
    pub closed spec fn wf(&self) -> bool {
        &&& self.filemgr.wf()
        &&& self.catalog_attr_cat_schema@.packed()
        &&& self.catalog_attr_cat_schema@.types == seq![
            AttributeType::Varchar(10),
            AttributeType::Varchar(10),
            AttributeType::Varchar(10),
            AttributeType::Int,
            AttributeType::Int,
        ]
    }

    /// An executor over the store `diskmgr`, with the catalog file opened or created.
    pub fn build(diskmgr: DiskMgr) -> (r: Res<NanoDb>)
        requires
            diskmgr.wf(),
        ensures
            r matches Ok(db) ==> db.wf() && db.catalog().value < HEADER_MAX_ENTRY
                && entry_matches(db.pool().content(HEADER_PAGE_ID as int), db.catalog().value as int, encode_utf8(CATALOG_ATTRIBUTE_CAT@)),
    {
        let bufmgr = BufMgr::new(BUFFER_POOL_SIZE, diskmgr);
        let mut filemgr = HFileMgr::build(bufmgr)?;
        let catalog_attr_cat_file = filemgr.open(CATALOG_ATTRIBUTE_CAT)?;
        let catalog_attr_cat_schema = catalog_schema();
        Ok(NanoDb { filemgr, catalog_attr_cat_file, catalog_attr_cat_schema })
    }

    /// The file contents, with every changed page written back.
    pub fn flush(&mut self) -> (r: &[u8])
        requires
            old(self).wf(),
        ensures
            final(self).wf(),
            same_pins_all(&final(self).pool(), &old(self).pool()),
    {
        self.filemgr.bufmgr.flush_all();
        self.filemgr.bufmgr.get_diskmgr().get_image()
    }

    /// Writes the rows describing the catalog itself, unless the catalog has them already.
    #[verifier::spinoff_prover]
    #[verifier::rlimit(100)]
    pub fn init(&mut self) -> (r: Res<()>)
        requires
            old(self).wf(),
        ensures
            final(self).wf(),
            same_pins_all(&final(self).pool(), &old(self).pool()),
            records_kept(&old(self).pool(), &final(self).pool(), no_record()),
            final(self).catalog_sch() == old(self).catalog_sch(),
    {
        let ghost b0 = self.pool();
        let found = self.open_relation(CATALOG_ATTRIBUTE_CAT);
        proof {
            if self.pool().same_pages(&b0) {
                lemma_same_pages_stored(&b0, &self.pool());
            }
        }
        match found {
            Ok(_) => return Ok(()),
            Err(Error::RelationNotFound { .. }) => {},
            Err(e) => return Err(e),
        }
        let ghost b1 = self.pool();
        let flen = self.catalog_attr_cat_schema.len();
        let mut fno: usize = 0;
        while fno < flen
            invariant
                self.wf(),
                same_pins_all(&self.pool(), &old(self).pool()),
                records_kept(&old(self).pool(), &b1, no_record()),
                records_kept(&b1, &self.pool(), no_record()),
                self.catalog_sch() == old(self).catalog_sch(),
                flen == old(self).catalog_sch().names.len(),
                fno <= flen,
                forall|f: int| #![trigger old(self).catalog_sch().names[f]] 0 <= f < fno ==> exists|rid: RecordId| #[trigger] stored(&self.pool(), rid)
                    == Some(catalog_row(old(self).catalog_sch(), old(self).catalog_sch().names[f], CATALOG_ATTRIBUTE_CAT@,
                        data_type_spec(old(self).catalog_sch().types[f]), f))
                    && stored(&old(self).pool(), rid) is None,
            decreases flen - fno,
        {
            let attr_name = match self.catalog_attr_cat_schema.get_name(fno) {
                Some(n) => n.clone(),
                None => return Err(invalid_arg("the catalog schema has no such field")),
            };
            let ty = match self.catalog_attr_cat_schema.get_type(fno) {
                Some(t) => data_type_of(*t),
                None => return Err(invalid_arg("the catalog schema has no such field")),
            };
            let ghost bb = self.pool();
            let res = self.insert_into_catalog_attr_type(attr_name.as_str(), CATALOG_ATTRIBUTE_CAT, ty, fno);
            proof {
                assert forall|x: RecordId| #[trigger] stored(&b1, x) is Some implies stored(&self.pool(), x) == stored(&b1, x) by {
                    assert(stored(&bb, x) == stored(&b1, x));
                }
                assert forall|x: RecordId| #[trigger] stored(&old(self).pool(), x) is Some implies stored(&self.pool(), x) == stored(&old(self).pool(), x) by {
                    assert(stored(&b1, x) == stored(&old(self).pool(), x));
                }
            }
            res?;
            proof {
                assert forall|f: int| #![trigger old(self).catalog_sch().names[f]] 0 <= f < fno + 1 implies exists|rid: RecordId| #[trigger] stored(&self.pool(), rid)
                    == Some(catalog_row(old(self).catalog_sch(), old(self).catalog_sch().names[f], CATALOG_ATTRIBUTE_CAT@,
                        data_type_spec(old(self).catalog_sch().types[f]), f))
                    && stored(&old(self).pool(), rid) is None by {
                    if f < fno {
                        let rid = choose|rid: RecordId| #[trigger] stored(&bb, rid)
                            == Some(catalog_row(old(self).catalog_sch(), old(self).catalog_sch().names[f], CATALOG_ATTRIBUTE_CAT@,
                                data_type_spec(old(self).catalog_sch().types[f]), f))
                            && stored(&old(self).pool(), rid) is None;
                        assert(stored(&self.pool(), rid) == stored(&bb, rid));
                    } else {
                        let rid = choose|rid: RecordId| #[trigger] stored(&self.pool(), rid)
                            == Some(catalog_row(old(self).catalog_sch(), attr_name@, CATALOG_ATTRIBUTE_CAT@, ty, fno as int))
                            && stored(&bb, rid) is None;
                        if stored(&old(self).pool(), rid) is Some {
                            assert(stored(&b1, rid) == stored(&old(self).pool(), rid));
                            assert(stored(&bb, rid) == stored(&b1, rid));
                        }
                    }
                }
            }
            fno = fno + 1;
        }
        proof {
            assert forall|x: RecordId| #[trigger] stored(&old(self).pool(), x) is Some implies stored(&self.pool(), x) == stored(&old(self).pool(), x) by {
                assert(stored(&b1, x) == stored(&old(self).pool(), x));
            }
        }
        Ok(())
    }

    /// Runs `statement`; a query gives its rows.
    pub fn execute_statement(&mut self, statement: SqlStatement) -> (r: Res<Option<SelectResult>>)
        requires
            old(self).wf(),
        ensures
            final(self).wf(),
            same_pins_all(&final(self).pool(), &old(self).pool()),
            r matches Ok(x) ==> (x is Some <==> statement is Select),
            !(statement is Select) ==> records_kept(&old(self).pool(), &final(self).pool(), no_record()),
            statement is InsertInto && r is Ok ==> exists|rid: RecordId| #[trigger] stored(&final(self).pool(), rid) is Some
                && stored(&old(self).pool(), rid) is None,
            match statement {
                SqlStatement::InsertInto(st) => (r is Ok ==> exists|rid: RecordId, sv: SchemaView|
                    #![trigger stored(&final(self).pool(), rid), frame_of(sv, st.values@, st.values@.len() as int)]
                    stored(&final(self).pool(), rid) == Some(frame_of(sv, st.values@, st.values@.len() as int))
                    && sv.packed() && sv.names.len() == st.values@.len() && stored(&old(self).pool(), rid) is None),
                SqlStatement::Select(st) => (r matches Ok(Some(res)) ==> exists|inp: SchemaView, fnos: Seq<usize>|
                    #[trigger] projects(inp, res.schema@, fnos)
                    && forall|i: int| 0 <= i < res.rows@.len() ==> (stored(&final(self).pool(), #[trigger] res.rows@[i].0) matches Some(t)
                        && projected(inp, res.schema@, fnos, t, res.rows@[i].1@))),
                _ => true,
            },
            statement matches SqlStatement::CreateTable(st) && (exists|j: int| 0 <= j < HEADER_MAX_ENTRY
                && entry_matches(old(self).pool().content(HEADER_PAGE_ID as int), j, encode_utf8(st.table_name@))) ==> r is Err,
            r matches Ok(Some(res)) ==> res.schema@.packed() && forall|i: int| 0 <= i < res.rows@.len()
                ==> #[trigger] stored(&final(self).pool(), res.rows@[i].0) is Some,
            match statement {
                SqlStatement::Select(st) => (r matches Ok(Some(res)) ==> exists|fe: EntryNo| fe.value < HEADER_MAX_ENTRY
                    && #[trigger] entry_matches(final(self).pool().content(HEADER_PAGE_ID as int), fe.value as int, encode_utf8(st.table_name@))
                    && scan_complete(&final(self).pool(), fe, res.rows@.map_values(|p: (RecordId, [u8; PAGE_RECORD_BYTE])| p.0))),
                _ => true,
            },
    {
        match statement {
            SqlStatement::CreateTable(s) => {
                self.execute_create_table(s)?;
                Ok(None)
            },
            SqlStatement::InsertInto(s) => {
                self.execute_insert_into(s)?;
                Ok(None)
            },
            SqlStatement::Select(s) => {
                let rows = self.execute_select(s)?;
                Ok(Some(rows))
            },
        }
    }

    /// Creates the heap file of a table and writes a catalog row for each of its columns.
    pub fn execute_create_table(&mut self, statement: CreateTableStatement) -> (r: Res<HeapFile>)
        requires
            old(self).wf(),
        ensures
            final(self).wf(),
            same_pins_all(&final(self).pool(), &old(self).pool()),
            records_kept(&old(self).pool(), &final(self).pool(), no_record()),
            (exists|j: int| 0 <= j < HEADER_MAX_ENTRY && entry_matches(old(self).pool().content(HEADER_PAGE_ID as int), j,
                encode_utf8(statement.table_name@)))
                ==> r is Err,
            r matches Ok(hf) ==> hf.entry().value < HEADER_MAX_ENTRY && entry_matches(final(self).pool().content(HEADER_PAGE_ID as int),
                hf.entry().value as int, encode_utf8(statement.table_name@)),
            final(self).catalog() == old(self).catalog(),
            final(self).catalog_sch() == old(self).catalog_sch(),
            r is Ok ==> forall|f: int| #![trigger statement.columns@[f]] 0 <= f < statement.columns@.len() ==> exists|rid: RecordId|
                #[trigger] stored(&final(self).pool(), rid) == Some(catalog_row(old(self).catalog_sch(),
                    statement.columns@[f].name@, statement.table_name@, statement.columns@[f].data_type, f))
                && stored(&old(self).pool(), rid) is None,
    {
        let heap_file = self.filemgr.create_file(statement.table_name.as_str())?;
        let ghost hp = self.pool().content(HEADER_PAGE_ID as int);
        let ghost b1 = self.pool();
        let mut fno: usize = 0;
        while fno < statement.columns.len()
            invariant
                self.wf(),
                same_pins_all(&self.pool(), &old(self).pool()),
                records_kept(&old(self).pool(), &b1, no_record()),
                records_kept(&b1, &self.pool(), no_record()),
                self.pool().content(HEADER_PAGE_ID as int) == hp,
                self.catalog() == old(self).catalog(),
                self.catalog_sch() == old(self).catalog_sch(),
                fno <= statement.columns@.len(),
                forall|f: int| #![trigger statement.columns@[f]] 0 <= f < fno ==> exists|rid: RecordId|
                    #[trigger] stored(&self.pool(), rid) == Some(catalog_row(old(self).catalog_sch(),
                        statement.columns@[f].name@, statement.table_name@, statement.columns@[f].data_type, f))
                    && stored(&old(self).pool(), rid) is None,
            decreases statement.columns@.len() - fno,
        {
            let c = &statement.columns[fno];
            let ghost bb = self.pool();
            let res = self.insert_into_catalog_attr_type(c.name.as_str(), statement.table_name.as_str(), c.data_type, fno);
            proof {
                assert forall|x: RecordId| #[trigger] stored(&b1, x) is Some implies stored(&self.pool(), x) == stored(&b1, x) by {
                    assert(stored(&bb, x) == stored(&b1, x));
                }
                assert forall|x: RecordId| #[trigger] stored(&old(self).pool(), x) is Some implies stored(&self.pool(), x) == stored(&old(self).pool(), x) by {
                    assert(stored(&b1, x) == stored(&old(self).pool(), x));
                }
            }
            res?;
            proof {
                assert forall|f: int| #![trigger statement.columns@[f]] 0 <= f < fno + 1 implies exists|rid: RecordId|
                    #[trigger] stored(&self.pool(), rid) == Some(catalog_row(old(self).catalog_sch(),
                        statement.columns@[f].name@, statement.table_name@, statement.columns@[f].data_type, f))
                    && stored(&old(self).pool(), rid) is None by {
                    if f < fno {
                        let rid = choose|rid: RecordId| #[trigger] stored(&bb, rid) == Some(catalog_row(old(self).catalog_sch(),
                            statement.columns@[f].name@, statement.table_name@, statement.columns@[f].data_type, f))
                            && stored(&old(self).pool(), rid) is None;
                        assert(stored(&self.pool(), rid) == stored(&bb, rid));
                    } else {
                        let rid = choose|rid: RecordId| #[trigger] stored(&self.pool(), rid) == Some(catalog_row(old(self).catalog_sch(),
                            statement.columns@[f].name@, statement.table_name@, statement.columns@[f].data_type, f))
                            && stored(&bb, rid) is None;
                        if stored(&old(self).pool(), rid) is Some {
                            assert(stored(&b1, rid) == stored(&old(self).pool(), rid));
                            assert(stored(&bb, rid) == stored(&b1, rid));
                        }
                    }
                }
            }
            fno = fno + 1;
        }
        proof {
            assert forall|x: RecordId| #[trigger] stored(&old(self).pool(), x) is Some implies stored(&self.pool(), x) == stored(&old(self).pool(), x) by {
                assert(stored(&b1, x) == stored(&old(self).pool(), x));
            }
        }
        Ok(heap_file)
    }

    /// Appends the catalog row `(attr_name, rel_name, type name, size, fno)`; the size of an
    /// integer column is 1.
    fn insert_into_catalog_attr_type(&mut self, attr_name: &str, rel_name: &str, ty: DataType, fno: usize) -> (r: Res<()>)
        requires
            old(self).wf(),
        ensures
            final(self).wf(),
            same_pins_all(&final(self).pool(), &old(self).pool()),
            records_kept(&old(self).pool(), &final(self).pool(), no_record()),
            final(self).pool().content(HEADER_PAGE_ID as int) == old(self).pool().content(HEADER_PAGE_ID as int),
            final(self).catalog_sch() == old(self).catalog_sch(),
            final(self).catalog() == old(self).catalog(),
            r is Ok ==> exists|rid: RecordId| #[trigger] stored(&final(self).pool(), rid)
                == Some(catalog_row(old(self).catalog_sch(), attr_name@, rel_name@, ty, fno as int))
                && stored(&old(self).pool(), rid) is None,
    {
        let (kind_name, size) = match ty {
            DataType::Int => ("int".to_string(), 1usize),
            DataType::Varchar(n) => ("varchar".to_string(), n),
        };
        let an = attr_name.to_string();
        let rn = rel_name.to_string();
        proof {
            vstd::string::to_string_from_display_ensures_for_str(attr_name, an);
            vstd::string::to_string_from_display_ensures_for_str(rel_name, rn);
        }
        let mut rec = Record::new_zero(&self.catalog_attr_cat_schema);
        rec.set_varchar_field(0, &an)?;
        rec.set_varchar_field(1, &rn)?;
        rec.set_varchar_field(2, &kind_name)?;
        rec.set_int_field(3, #[verifier::truncate] (size as i32))?;
        rec.set_int_field(4, #[verifier::truncate] (fno as i32))?;
        let data = *rec.get_data();
        assert(data@ == catalog_row(self.catalog_sch(), attr_name@, rel_name@, ty, fno as int));
        let rid = self.catalog_attr_cat_file.insert_record(&mut self.filemgr.bufmgr, data)?;
        Ok(())
    }

    /// Stores a row of a table; `InvalidArg` where the number of values is not the number
    /// of columns or a value does not fit its column.
    pub fn execute_insert_into(&mut self, statement: InsertIntoStatement) -> (r: Res<()>)
        requires
            old(self).wf(),
        ensures
            final(self).wf(),
            same_pins_all(&final(self).pool(), &old(self).pool()),
            records_kept(&old(self).pool(), &final(self).pool(), no_record()),
            r is Ok ==> exists|rid: RecordId| #[trigger] stored(&final(self).pool(), rid) is Some
                && stored(&old(self).pool(), rid) is None,
            r is Ok ==> exists|rid: RecordId, sv: SchemaView| #![trigger stored(&final(self).pool(), rid), frame_of(sv, statement.values@, statement.values@.len() as int)]
                stored(&final(self).pool(), rid) == Some(frame_of(sv, statement.values@, statement.values@.len() as int))
                && sv.packed() && sv.names.len() == statement.values@.len()
                && stored(&old(self).pool(), rid) is None,
    {
        let (mut file, schema) = self.open_relation(statement.table_name.as_str())?;
        let data = fill_record(&schema, &statement.values)?;
        let ghost b0 = self.pool();
        proof {
            if b0.same_pages(&old(self).pool()) {
                lemma_same_pages_stored(&old(self).pool(), &b0);
            }
        }
        let rid = file.insert_record(&mut self.filemgr.bufmgr, data)?;
        proof {
            assert(stored(&self.pool(), rid) is Some);
            if stored(&old(self).pool(), rid) is Some {
                assert(stored(&b0, rid) is Some);
            }
            assert(stored(&self.pool(), rid) == Some(frame_of(schema@, statement.values@, statement.values@.len() as int)));
        }
        Ok(())
    }

    /// The rows of a table with the columns asked for, in that order; a column the table
    /// does not have is left out.
    #[verifier::spinoff_prover]
    #[verifier::rlimit(100)]
    pub fn execute_select(&mut self, statement: SelectStatement) -> (r: Res<SelectResult>)
        requires
            old(self).wf(),
        ensures
            final(self).wf(),
            same_pins_all(&final(self).pool(), &old(self).pool()),
            r matches Ok(res) ==> res.schema@.packed() && forall|i: int| 0 <= i < res.rows@.len()
                ==> #[trigger] stored(&final(self).pool(), res.rows@[i].0) is Some,
            r matches Ok(res) ==> exists|inp: SchemaView, fnos: Seq<usize>| #[trigger] projects(inp, res.schema@, fnos)
                && forall|i: int| 0 <= i < res.rows@.len() ==> (stored(&final(self).pool(), #[trigger] res.rows@[i].0) matches Some(t)
                    && projected(inp, res.schema@, fnos, t, res.rows@[i].1@)),
            r matches Ok(res) ==> exists|fe: EntryNo| fe.value < HEADER_MAX_ENTRY
                && #[trigger] entry_matches(final(self).pool().content(HEADER_PAGE_ID as int), fe.value as int, encode_utf8(statement.table_name@))
                && scan_complete(&final(self).pool(), fe, res.rows@.map_values(|p: (RecordId, [u8; PAGE_RECORD_BYTE])| p.0)),
    {
        let (file, schema) = self.open_relation(statement.table_name.as_str())?;
        let ghost fe = file.entry();
        let ghost hp = self.pool().content(HEADER_PAGE_ID as int);
        let mut fnos: Vec<usize> = Vec::new();
        let mut i: usize = 0;
        while i < statement.columns.len()
            invariant
                forall|k: int| 0 <= k < fnos@.len() ==> #[trigger] fnos@[k] < schema@.names.len(),
                self.wf(),
                same_pins_all(&self.pool(), &old(self).pool()),
            decreases statement.columns@.len() - i,
        {
            let c = &statement.columns[i];
            let mut fno: usize = 0;
            while fno < schema.len()
                invariant
                    forall|k: int| 0 <= k < fnos@.len() ==> #[trigger] fnos@[k] < schema@.names.len(),
                    self.wf(),
                    same_pins_all(&self.pool(), &old(self).pool()),
                decreases schema@.names.len() - fno,
            {
                let name = schema.get_name(fno).unwrap();
                if *c == *name {
                    fnos.push(fno);
                    break;
                }
                fno = fno + 1;
            }
            i = i + 1;
        }
        let scan = FileScan::new(file, schema);
        let mut projection = Projection::build(scan, fnos)?;
        let out_schema = projection.get_schema().copy();
        let mut rows: Vec<(RecordId, [u8; PAGE_RECORD_BYTE])> = Vec::new();
        let mut steps: usize = 0;
        while steps <= NUM_PAGES * PAGE_CAPACITY
            invariant
                self.wf(),
                same_pins_all(&self.pool(), &old(self).pool()),
                crate::relop::projection::projects(projection.in_sch(), projection.sch(), projection.fields()),
                projection.in_sch().wf(),
                out_schema@ == projection.sch(),
                forall|i: int| 0 <= i < rows@.len() ==> #[trigger] stored(&self.pool(), rows@[i].0) is Some,
                projection.file() == fe,
                self.pool().content(HEADER_PAGE_ID as int) == hp,
                forall|i: int| 0 <= i < rows@.len() ==> (stored(&self.pool(), #[trigger] rows@[i].0) matches Some(t)
                    && projected(projection.in_sch(), projection.sch(), projection.fields(), t, rows@[i].1@)),
                fe.value < HEADER_MAX_ENTRY,
                entry_matches(hp, fe.value as int, encode_utf8(statement.table_name@)),
                rows@.len() == 0 ==> projection.position() == ScanStatus::Starting,
                rows@.len() > 0 ==> projection.position() == ScanStatus::Scanning(rows@.last().0),
                ({
                    let rids = rows@.map_values(|p: (RecordId, [u8; PAGE_RECORD_BYTE])| p.0);
                    &&& rids.len() > 0 ==> scan_next(&self.pool(), fe, ScanStatus::Starting) == Some(rids[0])
                    &&& forall|i: int| 0 <= i < rids.len() - 1 ==> scan_next(&self.pool(), fe, ScanStatus::Scanning(#[trigger] rids[i])) == Some(rids[i + 1])
                }),
            decreases NUM_PAGES * PAGE_CAPACITY + 1 - steps,
        {
            let ghost before = self.pool();
            let ghost old_rows = rows@;
            let next = projection.get_next(&mut self.filemgr.bufmgr);
            proof {
                lemma_same_pages_stored(&before, &self.pool());
                lemma_scan_next_same(&before, &self.pool(), fe);
                assert(self.pool().content(HEADER_PAGE_ID as int) == before.content(HEADER_PAGE_ID as int));
            }
            match next? {
                None => {
                    proof {
                        let rids = rows@.map_values(|p: (RecordId, [u8; PAGE_RECORD_BYTE])| p.0);
                        if rids.len() > 0 {
                            assert(rids.last() == rows@.last().0);
                        }
                        assert(scan_complete(&self.pool(), fe, rids));
                        assert(projects(projection.in_sch(), out_schema@, projection.fields()));
                        assert forall|i: int| 0 <= i < rows@.len() implies (stored(&self.pool(), #[trigger] rows@[i].0) matches Some(t)
                            && projected(projection.in_sch(), out_schema@, projection.fields(), t, rows@[i].1@)) by {
                            assert(stored(&self.pool(), rows@[i].0) == stored(&before, rows@[i].0));
                        }
                        assert(entry_matches(self.pool().content(HEADER_PAGE_ID as int), fe.value as int, encode_utf8(statement.table_name@)));
                        let inp = projection.in_sch();
                        let fnos = projection.fields();
                        assert(exists|inp: SchemaView, fnos: Seq<usize>| #[trigger] projects(inp, out_schema@, fnos)
                            && forall|i: int| 0 <= i < rows@.len() ==> (stored(&self.pool(), #[trigger] rows@[i].0) matches Some(t)
                                && projected(inp, out_schema@, fnos, t, rows@[i].1@)));
                    }
                    let ghost rows_v = rows@;
                    let ghost sch_v = out_schema@;
                    let res = SelectResult { schema: out_schema, rows };
                    proof {
                        assert(res.rows@ == rows_v);
                        assert(res.schema@ == sch_v);
                        let inp = projection.in_sch();
                        let fnos = projection.fields();
                        assert(projects(inp, res.schema@, fnos));
                        assert forall|i: int| 0 <= i < res.rows@.len() implies (stored(&self.pool(), #[trigger] res.rows@[i].0) matches Some(t)
                            && projected(inp, res.schema@, fnos, t, res.rows@[i].1@)) by {
                            assert(res.rows@[i] == rows_v[i]);
                        }
                    }
                    return Ok(res);
                },
                Some((rid, rec)) => {
                    rows.push((rid, *rec.get_data()));
                    proof {
                        assert forall|i: int| 0 <= i < rows@.len() implies (stored(&self.pool(), #[trigger] rows@[i].0) matches Some(t)
                            && projected(projection.in_sch(), projection.sch(), projection.fields(), t, rows@[i].1@)) by {
                            if i < old_rows.len() {
                                assert(rows@[i] == old_rows[i]);
                                assert(stored(&self.pool(), rows@[i].0) == stored(&before, rows@[i].0));
                            }
                        }
                        let rids = rows@.map_values(|p: (RecordId, [u8; PAGE_RECORD_BYTE])| p.0);
                        let orids = old_rows.map_values(|p: (RecordId, [u8; PAGE_RECORD_BYTE])| p.0);
                        assert(rids =~= orids.push(rid));
                        if orids.len() > 0 {
                            assert(orids.last() == old_rows.last().0);
                        }
                        assert forall|i: int| 0 <= i < rids.len() - 1 implies scan_next(&self.pool(), fe, ScanStatus::Scanning(#[trigger] rids[i])) == Some(rids[i + 1]) by {
                            if i < orids.len() - 1 {
                                assert(rids[i] == orids[i] && rids[i + 1] == orids[i + 1]);
                            }
                        }
                    }
                },
            }
            steps = steps + 1;
        }
        Err(invalid_arg("the scan does not end"))
    }

    /// The heap file of relation `name` and its schema, rebuilt from the catalog rows of the
    /// relation in order of position; `RelationNotFound` where the catalog has none.
    pub fn open_relation(&mut self, name: &str) -> (r: Res<(HeapFile, Schema)>)
        requires
            old(self).wf(),
        ensures
            final(self).wf(),
            same_pins_all(&final(self).pool(), &old(self).pool()),
            r matches Ok((_, schema)) ==> schema@.packed() && schema@.types.len() >= 1,
            r matches Ok((f, _)) ==> f.entry().value < HEADER_MAX_ENTRY
                && entry_matches(final(self).pool().content(HEADER_PAGE_ID as int), f.entry().value as int, name.spec_bytes()),
            final(self).pool().same_pages(&old(self).pool()) || records_kept(&old(self).pool(), &final(self).pool(), no_record()),
            final(self).catalog() == old(self).catalog(),
            final(self).catalog_sch() == old(self).catalog_sch(),
            r is Ok ==> exists|rid: RecordId| (#[trigger] stored(&final(self).pool(), rid) matches Some(t)
                && varchar_field(old(self).catalog_sch(), t, 1) == Some(name.spec_bytes())),
            r matches Err(Error::RelationNotFound { .. }) ==> exists|rids: Seq<RecordId>|
                #[trigger] scan_complete(&final(self).pool(), old(self).catalog(), rids)
                && forall|i: int| 0 <= i < rids.len() ==> (stored(&final(self).pool(), #[trigger] rids[i]) matches Some(t)
                    && varchar_field(old(self).catalog_sch(), t, 1) != Some(name.spec_bytes())),
    {
        let wanted = name.to_string();
        proof {
            vstd::string::to_string_from_display_ensures_for_str(name, wanted);
        }
        let catalog = HeapFile::new(self.catalog_attr_cat_file.get_entry_no());
        let ghost fe = catalog.entry();
        let mut file_scan = FileScan::new(catalog, self.catalog_attr_cat_schema.copy());
        let mut buf: Vec<(String, AttributeType, usize)> = Vec::new();
        let mut steps: usize = 0;
        let mut done = false;
        let ghost mut seen: Seq<RecordId> = Seq::empty();
        let ghost mut witness: RecordId = RecordId { page_id: 0, slot_no: SlotNo { value: 0 } };
        while !done
            invariant
                self.wf(),
                same_pins_all(&self.pool(), &old(self).pool()),
                self.pool().same_pages(&old(self).pool()),
                steps <= NUM_PAGES * PAGE_CAPACITY + 1,
                fe == self.catalog(),
                self.catalog() == old(self).catalog(),
                self.catalog_sch() == old(self).catalog_sch(),
                file_scan.file() == fe,
                file_scan.sch() == self.catalog_sch(),
                wanted@ == name@,
                !done && seen.len() == 0 ==> file_scan.position() == ScanStatus::Starting,
                !done && seen.len() > 0 ==> file_scan.position() == ScanStatus::Scanning(seen.last()),
                seen.len() > 0 ==> scan_next(&self.pool(), fe, ScanStatus::Starting) == Some(seen[0]),
                forall|i: int| 0 <= i < seen.len() - 1 ==> scan_next(&self.pool(), fe, ScanStatus::Scanning(#[trigger] seen[i])) == Some(seen[i + 1]),
                done ==> scan_next(&self.pool(), fe, if seen.len() == 0 { ScanStatus::Starting } else { ScanStatus::Scanning(seen.last()) }) is None,
                buf@.len() > 0 ==> (stored(&self.pool(), witness) matches Some(t)
                    && varchar_field(self.catalog_sch(), t, 1) == Some(encode_utf8(name@))),
                buf@.len() == 0 ==> forall|i: int| 0 <= i < seen.len() ==> (stored(&self.pool(), #[trigger] seen[i]) matches Some(t)
                    && varchar_field(self.catalog_sch(), t, 1) != Some(encode_utf8(name@))),
            decreases NUM_PAGES * PAGE_CAPACITY + 1 - steps,
        {
            if steps > NUM_PAGES * PAGE_CAPACITY {
                return Err(invalid_arg("the catalog scan does not end"));
            }
            steps = steps + 1;
            let ghost before = self.pool();
            let ghost old_seen = seen;
            let got = file_scan.get_next(&mut self.filemgr.bufmgr);
            proof {
                lemma_same_pages_stored(&before, &self.pool());
                lemma_scan_next_same(&before, &self.pool(), fe);
            }
            let got = match got {
                Err(Error::RelationNotFound { .. }) => return Err(invalid_arg("the catalog scan failed")),
                Err(e) => return Err(e),
                Ok(x) => x,
            };
            match got {
                None => {
                    done = true;
                },
                Some((rid, rec)) => {
                    proof {
                        seen = seen.push(rid);
                        assert forall|i: int| 0 <= i < seen.len() - 1 implies scan_next(&self.pool(), fe, ScanStatus::Scanning(#[trigger] seen[i])) == Some(seen[i + 1]) by {
                            if i < old_seen.len() - 1 {
                                assert(seen[i] == old_seen[i] && seen[i + 1] == old_seen[i + 1]);
                            }
                        }
                        lemma_tuple_round_trip(self.catalog_sch(), rec@, 1, 0, Seq::empty());
                    }
                    let aname = rec.get_varchar_field(0);
                    let rname = rec.get_varchar_field(1);
                    let kind_name = rec.get_varchar_field(2);
                    let type_size = rec.get_int_field(3);
                    let position = rec.get_int_field(4);
                    match (aname, rname, kind_name, type_size, position) {
                        (Some(aname), Some(rname), Some(kind_name), Some(type_size), Some(position)) => {
                            let same = rname == wanted;
                            proof {
                                if buf@.len() == 0 && !same {
                                    assert(rname@ != name@);
                                    assert forall|i: int| 0 <= i < seen.len() implies (stored(&self.pool(), #[trigger] seen[i]) matches Some(t)
                                        && varchar_field(self.catalog_sch(), t, 1) != Some(encode_utf8(name@))) by {
                                        if i < old_seen.len() {
                                            assert(seen[i] == old_seen[i]);
                                        }
                                    }
                                }
                            }
                            if same {
                                if type_size < 0 || position < 0 {
                                    return Err(invalid_arg("a catalog row has a negative number"));
                                }
                                let attr_type = match decode_attribute_type(&kind_name, type_size as usize) {
                                    Some(t) => t,
                                    None => return Err(invalid_arg("a catalog row names an unknown type")),
                                };
                                buf.push((aname, attr_type, position as usize));
                                proof {
                                    witness = rid;
                                    assert(rname@ == name@);
                                }
                            }
                        },
                        _ => return Err(invalid_arg("a catalog row cannot be read")),
                    }
                },
            }
        }
        if buf.len() == 0 {
            proof {
                assert(scan_complete(&self.pool(), fe, seen));
            }
            return Err(Error::RelationNotFound { name: wanted });
        }
        let ghost wit_pool = self.pool();
        let n = buf.len();
        let mut xs: Vec<(String, AttributeType)> = Vec::new();
        let mut i: usize = 0;
        while i < n
            invariant
                n == buf@.len(),
                self.catalog() == old(self).catalog(),
                self.catalog_sch() == old(self).catalog_sch(),
                xs@.len() == i,
                i <= n,
                self.wf(),
                same_pins_all(&self.pool(), &old(self).pool()),
                self.pool().same_pages(&old(self).pool()),
            decreases n - i,
        {
            let mut found: Option<usize> = None;
            let mut k: usize = 0;
            while k < n
                invariant
                    n == buf@.len(),
                    self.catalog() == old(self).catalog(),
                    self.catalog_sch() == old(self).catalog_sch(),
                    found matches Some(j) ==> j < n,
                    self.wf(),
                    same_pins_all(&self.pool(), &old(self).pool()),
                    self.pool().same_pages(&old(self).pool()),
                self.pool().same_pages(&old(self).pool()),
                decreases n - k,
            {
                if buf[k].2 == i {
                    found = Some(k);
                    break;
                }
                k = k + 1;
            }
            match found {
                Some(j) => {
                    xs.push((buf[j].0.clone(), buf[j].1));
                },
                None => return Err(invalid_arg("the catalog rows of the relation skip a position")),
            }
            i = i + 1;
        }
        let schema = Schema::build(xs);
        assert(schema@.types.len() == n);
        let ghost b0 = self.pool();
        proof {
            lemma_same_pages_stored(&old(self).pool(), &b0);
        }
        let opened = self.filemgr.open(name);
        proof {
            assert forall|x: RecordId| #[trigger] stored(&old(self).pool(), x) is Some implies
                stored(&self.pool(), x) == stored(&old(self).pool(), x) by {
                assert(stored(&b0, x) == stored(&old(self).pool(), x));
            }
        }
        let file = match opened {
            Err(Error::RelationNotFound { .. }) => return Err(invalid_arg("the relation file cannot be opened")),
            Err(e) => return Err(e),
            Ok(f) => f,
        };
        Ok((file, schema))
    }
}

} // verus!
