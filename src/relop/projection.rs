use vstd::prelude::*;

use crate::bufmgr::{same_pins_all, BufMgr};
use crate::filemgr::heap_file::stored;
use crate::filemgr::raw_file_scan::{scan_next, scan_step_ok, ScanStatus};
use crate::filemgr::{RecordId, PAGE_RECORD_BYTE};
use crate::relop::file_scan::FileScan;
use crate::relop::record::{field_in_frame, int_field, varchar_field, varchar_width, Record};
use crate::relop::schema::{lemma_width_mono, packed_offsets, width, Schema, SchemaView};
use crate::types::{invalid_arg, EntryNo, Res};

verus! {

/// The bytes of field `j` of the frame `data`.
pub open spec fn field_bytes(sv: SchemaView, data: Seq<u8>, j: int) -> Seq<u8> {
    data.subrange(sv.offsets[j], sv.offsets[j] + sv.types[j].size())
}

/// `out` is the schema of fields `fnos` of `inp`, laid out one after the other.
pub open spec fn projects(inp: SchemaView, out: SchemaView, fnos: Seq<usize>) -> bool {
    &&& out.packed()
    &&& out.types.len() == fnos.len()
    &&& forall|j: int| 0 <= j < fnos.len() ==> fnos[j] < inp.types.len() && #[trigger] out.types[j] == inp.types[fnos[j] as int]
}

/// Field `j` of the frame `d` holds the bytes of field `fnos[j]` of the frame `t`, for each `j`.
pub open spec fn projected(inp: SchemaView, out: SchemaView, fnos: Seq<usize>, t: Seq<u8>, d: Seq<u8>) -> bool {
    forall|j: int| 0 <= j < fnos.len() ==> field_in_frame(out, j) && field_in_frame(inp, fnos[j] as int)
        && #[trigger] field_bytes(out, d, j) == field_bytes(inp, t, fnos[j] as int)
}

/// A projected record reads, field by field, what the input record reads in the field it
/// was projected from.
pub proof fn lemma_projection_reads(inp: SchemaView, out: SchemaView, fnos: Seq<usize>, t: Seq<u8>, d: Seq<u8>, j: int)
    requires
        projects(inp, out, fnos),
        projected(inp, out, fnos, t, d),
        0 <= j < fnos.len(),
        t.len() == PAGE_RECORD_BYTE,
        d.len() == PAGE_RECORD_BYTE,
    ensures
        int_field(out, d, j) == int_field(inp, t, fnos[j] as int),
        varchar_field(out, d, j) == varchar_field(inp, t, fnos[j] as int),
{
    let f = fnos[j] as int;
    let a = field_bytes(out, d, j);
    let b = field_bytes(inp, t, f);
    assert(out.types[j] == inp.types[f]);
    assert(a == b);
    if out.types[j] is Int {
        assert(d[out.offsets[j]] == a[0] && t[inp.offsets[f]] == b[0]);
        assert(d[out.offsets[j] + 1] == a[1] && t[inp.offsets[f] + 1] == b[1]);
        assert(d[out.offsets[j] + 2] == a[2] && t[inp.offsets[f] + 2] == b[2]);
        assert(d[out.offsets[j] + 3] == a[3] && t[inp.offsets[f] + 3] == b[3]);
    } else {
        assert(varchar_width(out.types[j]) == out.types[j].size());
    }
}

/// The frame whose field `j` holds the bytes of field `fnos[j]` of `rec`, for each `j`;
/// `InvalidArg` where a field lies outside a frame.
#[verifier::spinoff_prover]
#[verifier::rlimit(50)]
pub fn project_record(rec: &Record, inp: &Schema, out: &Schema, fnos: &Vec<usize>) -> (r: Res<[u8; PAGE_RECORD_BYTE]>)
    requires
        rec.sch() == inp@,
        inp@.wf(),
        projects(inp@, out@, fnos@),
    ensures
        r matches Ok(d) ==> projected(inp@, out@, fnos@, rec@, d@),
        (forall|j: int| 0 <= j < fnos@.len() ==> field_in_frame(out@, j) && field_in_frame(inp@, fnos@[j] as int)) ==> r is Ok,
{
    let src = rec.get_data();
    let mut data = [0u8; PAGE_RECORD_BYTE];
    let mut j: usize = 0;
    while j < fnos.len()
        invariant
            j <= fnos@.len(),
            src@ == rec@,
            src@.len() == PAGE_RECORD_BYTE,
            data@.len() == PAGE_RECORD_BYTE,
            inp@.wf(),
            projects(inp@, out@, fnos@),
            forall|i: int| 0 <= i < j ==> #[trigger] field_in_frame(out@, i) && field_in_frame(inp@, fnos@[i] as int),
            forall|i: int| 0 <= i < j ==> #[trigger] field_bytes(out@, data@, i) == field_bytes(inp@, rec@, fnos@[i] as int),
            j > 0 ==> out@.offsets[j - 1] + out@.types[j - 1].size() <= PAGE_RECORD_BYTE,
        decreases fnos@.len() - j,
    {
        let f = fnos[j];
        assert((forall|i: int| 0 <= i < fnos@.len() ==> field_in_frame(out@, i) && field_in_frame(inp@, fnos@[i] as int))
            ==> field_in_frame(out@, j as int) && field_in_frame(inp@, f as int));
        let size = match inp.get_type(f) {
            Some(t) => t.get_size(),
            None => return Err(invalid_arg("no such field")),
        };
        let off_in = *inp.get_offset(f).unwrap();
        let off_out = match out.get_offset(j) {
            Some(o) => *o,
            None => return Err(invalid_arg("no such field")),
        };
        proof {
            assert(f == fnos@[j as int]);
            assert(out@.types[j as int] == inp@.types[f as int]);
        }
        if off_in > PAGE_RECORD_BYTE || size > PAGE_RECORD_BYTE - off_in || off_out > PAGE_RECORD_BYTE
            || size > PAGE_RECORD_BYTE - off_out {
            return Err(invalid_arg("the field lies outside the record frame"));
        }
        proof {
            assert(out@.types[j as int] == inp@.types[f as int]);
            let ts = out@.types;
            assert(out@.offsets == packed_offsets(ts));
            if j > 0 {
                lemma_width_mono(ts, (j - 1) as int, j as int);
                assert(out@.offsets[j - 1] == crate::relop::schema::clamp(width(ts.subrange(0, j - 1))));
            }
            assert forall|i: int| 0 <= i < j implies out@.offsets[i] + out@.types[i].size() <= off_out by {
                lemma_width_mono(ts, i, i);
                lemma_width_mono(ts, i + 1, j as int);
            }
        }
        let ghost before = data@;
        let mut k: usize = 0;
        while k < size
            invariant
                k <= size,
                off_in + size <= PAGE_RECORD_BYTE,
                off_out + size <= PAGE_RECORD_BYTE,
                src@.len() == PAGE_RECORD_BYTE,
                data@.len() == PAGE_RECORD_BYTE,
                before.len() == PAGE_RECORD_BYTE,
                src@ == rec@,
                forall|x: int| 0 <= x < PAGE_RECORD_BYTE && !(off_out <= x < off_out + k) ==> data@[x] == before[x],
                forall|x: int| 0 <= x < k ==> #[trigger] data@[off_out + x] == src@[off_in + x],
            decreases size - k,
        {
            data[off_out + k] = src[off_in + k];
            k = k + 1;
        }
        proof {
            assert(off_out == out@.offsets[j as int] && off_in == inp@.offsets[f as int]);
            assert(size == out@.types[j as int].size() && size == inp@.types[f as int].size());
            assert forall|x: int| 0 <= x < size implies #[trigger] field_bytes(out@, data@, j as int)[x] == field_bytes(inp@, rec@, f as int)[x] by {
                assert(data@[off_out + x] == src@[off_in + x]);
            }
            assert(field_bytes(out@, data@, j as int) =~= field_bytes(inp@, rec@, f as int));
            assert(field_in_frame(out@, j as int));
            assert(field_in_frame(inp@, fnos@[j as int] as int));
            assert(field_bytes(out@, data@, j as int) == field_bytes(inp@, rec@, fnos@[j as int] as int));
            assert forall|i: int| 0 <= i < j implies #[trigger] field_bytes(out@, data@, i) == field_bytes(inp@, rec@, fnos@[i] as int) by {
                assert(field_in_frame(out@, i));
                assert(field_bytes(out@, data@, i) =~= field_bytes(out@, before, i));
            }
        }
        let ghost old_j = j;
        j = j + 1;
        assert forall|i: int| 0 <= i < j implies #[trigger] field_in_frame(out@, i) && field_in_frame(inp@, fnos@[i] as int) by {
            if i < old_j {
            } else {
                assert(i == old_j);
            }
        }
    }
    Ok(data)
}

/// An operator that keeps fields `fnos` of each record of a file scan, in that order.
pub struct Projection {
    iterator: FileScan,
    schema: Schema,
    fnos: Vec<usize>,
}

impl Projection {
    /// The schema of the records read.
    pub closed spec fn in_sch(&self) -> SchemaView {
        self.iterator.sch()
    }

    /// The schema of the records returned.
    pub closed spec fn sch(&self) -> SchemaView {
        self.schema@
    }

    /// The directory entry of the file scanned.
    pub closed spec fn file(&self) -> EntryNo {
        self.iterator.file()
    }

    /// Where the scan underneath stands.
    pub closed spec fn position(&self) -> ScanStatus {
        self.iterator.position()
    }

    /// The fields kept.
    pub closed spec fn fields(&self) -> Seq<usize> {
        self.fnos@
    }

    /// The schema of the records returned.
    pub fn get_schema(&self) -> (r: &Schema)
        ensures
            r@ == self.sch(),
    {
        &self.schema
    }

    /// The projection of `iterator` on fields `fnos`; `InvalidArg` where a field does not
    /// exist or the schema is inconsistent.
    pub fn build(iterator: FileScan, fnos: Vec<usize>) -> (r: Res<Projection>)
        ensures
            r matches Ok(p) ==> p.file() == iterator.file() && p.position() == iterator.position(),
            r matches Ok(p) ==> p.in_sch() == iterator.sch() && p.fields() == fnos@
                && projects(iterator.sch(), p.sch(), fnos@) && iterator.sch().wf(),
            iterator.sch().wf() && (forall|j: int| 0 <= j < fnos@.len() ==> fnos@[j] < iterator.sch().types.len()) ==> r is Ok,
    {
        if !iterator.get_schema().is_consistent() {
            return Err(invalid_arg("the schema of the scan is inconsistent"));
        }
        let schema = match iterator.get_schema().projection(&fnos) {
            Some(s) => s,
            None => return Err(invalid_arg("a field to keep exceeds the fields of the scan")),
        };
        proof {
            let inp = iterator.sch();
            assert forall|j: int| 0 <= j < fnos@.len() implies fnos@[j] < inp.types.len()
                && #[trigger] schema@.types[j] == inp.types[fnos@[j] as int] by {
            }
        }
        Ok(Projection { iterator, schema, fnos })
    }

    /// The next record with the kept fields, and the place of the record it came from.
    pub fn get_next<'a>(&'a mut self, bm: &mut BufMgr) -> (r: Res<Option<(RecordId, Record<'a>)>>)
        requires
            old(bm).wf(),
            projects(old(self).in_sch(), old(self).sch(), old(self).fields()),
            old(self).in_sch().wf(),
        ensures
            final(bm).wf(),
            final(bm).capacity() == old(bm).capacity(),
            final(bm).same_pages(old(bm)),
            same_pins_all(final(bm), old(bm)),
            final(self).in_sch() == old(self).in_sch(),
            final(self).sch() == old(self).sch(),
            final(self).fields() == old(self).fields(),
            final(self).file() == old(self).file(),
            r matches Ok(Some((rid, _))) ==> scan_next(old(bm), old(self).file(), old(self).position()) == Some(rid)
                && final(self).position() == ScanStatus::Scanning(rid),
            r matches Ok(None) ==> scan_next(old(bm), old(self).file(), old(self).position()) is None
                && final(self).position() is Finished,
            scan_step_ok(old(bm), old(self).file(), old(self).position())
                && (forall|j: int| 0 <= j < old(self).fields().len() ==> field_in_frame(old(self).sch(), j)
                    && field_in_frame(old(self).in_sch(), old(self).fields()[j] as int)) ==> r is Ok,
            r matches Ok(Some((rid, rec))) ==> rec@.len() == PAGE_RECORD_BYTE && rec.sch() == old(self).sch() && (stored(old(bm), rid) matches Some(t)
                && projected(old(self).in_sch(), old(self).sch(), old(self).fields(), t, rec@)),
    {
        let res = self.iterator.get_next(bm)?;
        match res {
            None => Ok(None),
            Some((rid, rec)) => {
                let data = project_record(&rec, rec.get_schema(), &self.schema, &self.fnos)?;
                Ok(Some((rid, Record::new(data, &self.schema))))
            },
        }
    }
}

} // verus!
