use vstd::prelude::*;

use crate::bufmgr::{same_pins_all, BufMgr};
use crate::diskmgr::NUM_PAGES;
use crate::filemgr::heap_file::{stored, HeapFile};
use crate::filemgr::raw_file_scan::{lemma_scan_next_same, scan_next, scan_step_ok, RawFileScan, ScanStatus};
use crate::filemgr::{RecordId, PAGE_CAPACITY, PAGE_RECORD_BYTE};
use crate::relop::record::Record;
use crate::relop::schema::{Schema, SchemaView};
use crate::types::{invalid_arg, EntryNo, PageId, Res};

verus! {

/// A scan of a heap file whose records are read through a schema.
pub struct FileScan {
    raw_file_scan: RawFileScan,
    schema: Schema,
}

impl FileScan {
    /// A scan of `heap_file` read through `schema`.
    pub fn new(heap_file: HeapFile, schema: Schema) -> (r: FileScan)
        ensures
            r.sch() == schema@,
            r.file() == heap_file.entry(),
            r.position() == ScanStatus::Starting,
    {
        FileScan { raw_file_scan: RawFileScan::new(heap_file), schema }
    }

    /// The schema records are read through.
    pub closed spec fn sch(&self) -> SchemaView {
        self.schema@
    }

    /// The directory entry of the file scanned.
    pub closed spec fn file(&self) -> EntryNo {
        self.raw_file_scan.file()
    }

    /// Where the scan stands.
    pub closed spec fn position(&self) -> ScanStatus {
        self.raw_file_scan.position()
    }

    pub fn get_schema(&self) -> (r: &Schema)
        ensures
            r@ == self.sch(),
    {
        &self.schema
    }

    /// The number of fields of the schema.
    pub fn get_field_len(&self) -> (r: usize)
        ensures
            r == self.sch().names.len(),
    {
        self.schema.len()
    }

    /// The place of the record `get_next` returns next.
    pub fn peer_next_rid(&self, bm: &mut BufMgr) -> (r: Res<Option<RecordId>>)
        requires
            old(bm).wf(),
        ensures
            final(bm).wf(),
            final(bm).capacity() == old(bm).capacity(),
            final(bm).same_pages(old(bm)),
            same_pins_all(final(bm), old(bm)),
            r matches Ok(Some(x)) ==> stored(old(bm), x) is Some,
            r matches Ok(x) ==> x == scan_next(old(bm), self.file(), self.position()),
    {
        self.raw_file_scan.peer_next_rid(bm)
    }

    /// The next record, read through the schema, and its place.
    pub fn get_next<'a>(&'a mut self, bm: &mut BufMgr) -> (r: Res<Option<(RecordId, Record<'a>)>>)
        requires
            old(bm).wf(),
        ensures
            final(bm).wf(),
            final(bm).capacity() == old(bm).capacity(),
            final(bm).same_pages(old(bm)),
            same_pins_all(final(bm), old(bm)),
            final(self).sch() == old(self).sch(),
            final(self).file() == old(self).file(),
            r matches Ok(Some((rid, rec))) ==> stored(old(bm), rid) == Some(rec@) && rec.sch() == old(self).sch()
                && rec@.len() == PAGE_RECORD_BYTE,
            r matches Ok(Some((rid, _))) ==> scan_next(old(bm), old(self).file(), old(self).position()) == Some(rid)
                && final(self).position() == ScanStatus::Scanning(rid),
            r matches Ok(None) ==> scan_next(old(bm), old(self).file(), old(self).position()) is None
                && final(self).position() is Finished,
            scan_step_ok(old(bm), old(self).file(), old(self).position()) ==> r is Ok,
    {
        match self.raw_file_scan.get_next(bm)? {
            None => Ok(None),
            Some((rid, data)) => Ok(Some((rid, Record::new(data, &self.schema)))),
        }
    }
}

/// A scan of the records of one page of a heap file.
pub struct FileScanOnPage {
    base: FileScan,
    page_id: PageId,
}

impl FileScanOnPage {
    /// A scan of the records of page `page_id` of `heap_file`, read through `schema`.
    pub fn new(heap_file: HeapFile, schema: Schema, page_id: PageId) -> (r: FileScanOnPage)
        ensures
            r.sch() == schema@,
            r.page() == page_id,
    {
        FileScanOnPage { base: FileScan::new(heap_file, schema), page_id }
    }

    /// The schema records are read through.
    pub closed spec fn sch(&self) -> SchemaView {
        self.base.sch()
    }

    /// The page scanned.
    pub closed spec fn page(&self) -> PageId {
        self.page_id
    }

    /// The directory entry of the file scanned.
    pub closed spec fn file(&self) -> EntryNo {
        self.base.file()
    }

    /// Where the scan of the whole file underneath stands.
    pub closed spec fn position(&self) -> ScanStatus {
        self.base.position()
    }

    fn skip_to_page(&mut self, bm: &mut BufMgr) -> (r: Res<()>)
        requires
            old(bm).wf(),
        ensures
            final(bm).wf(),
            final(bm).capacity() == old(bm).capacity(),
            final(bm).same_pages(old(bm)),
            same_pins_all(final(bm), old(bm)),
            final(self).sch() == old(self).sch(),
            final(self).page() == old(self).page(),
            final(self).file() == old(self).file(),
            r is Ok ==> (scan_next(final(bm), final(self).file(), final(self).position()) matches Some(x)
                ==> x.page_id == final(self).page()),
    {
        let mut steps: usize = 0;
        while steps < NUM_PAGES * PAGE_CAPACITY
            invariant
                bm.wf(),
                bm.capacity() == old(bm).capacity(),
                bm.same_pages(old(bm)),
                same_pins_all(bm, old(bm)),
                self.sch() == old(self).sch(),
                self.page() == old(self).page(),
                self.file() == old(self).file(),
            decreases NUM_PAGES * PAGE_CAPACITY - steps,
        {
            let ghost b = *bm;
            let peeked = self.base.peer_next_rid(bm);
            proof {
                lemma_scan_next_same(&b, bm, self.file());
            }
            match peeked? {
                None => return Ok(()),
                Some(rid) => {
                    if rid.page_id == self.page_id {
                        return Ok(());
                    }
                },
            }
            let _ = self.base.get_next(bm)?;
            steps = steps + 1;
        }
        Err(invalid_arg("the scan does not reach the page"))
    }

    /// The place of the next record of the page.
    pub fn peer_next_rid(&mut self, bm: &mut BufMgr) -> (r: Res<Option<RecordId>>)
        requires
            old(bm).wf(),
        ensures
            final(bm).wf(),
            final(bm).capacity() == old(bm).capacity(),
            final(bm).same_pages(old(bm)),
            same_pins_all(final(bm), old(bm)),
            final(self).sch() == old(self).sch(),
            final(self).page() == old(self).page(),
            r matches Ok(Some(x)) ==> stored(old(bm), x) is Some && x.page_id == old(self).page(),
    {
        let ghost b0 = *bm;
        self.skip_to_page(bm)?;
        let r = self.base.peer_next_rid(bm)?;
        proof {
            crate::filemgr::heap_file::lemma_same_pages_stored(&b0, bm);
        }
        match r {
            Some(rid) => {
                if rid.page_id == self.page_id {
                    Ok(Some(rid))
                } else {
                    Ok(None)
                }
            },
            None => Ok(None),
        }
    }

    /// The next record of the page, read through the schema, and its place.
    pub fn get_next<'a>(&'a mut self, bm: &mut BufMgr) -> (r: Res<Option<(RecordId, Record<'a>)>>)
        requires
            old(bm).wf(),
        ensures
            final(bm).wf(),
            final(bm).capacity() == old(bm).capacity(),
            final(bm).same_pages(old(bm)),
            same_pins_all(final(bm), old(bm)),
            r matches Ok(Some((rid, rec))) ==> stored(old(bm), rid) == Some(rec@) && rec.sch() == old(self).sch()
                && rid.page_id == old(self).page(),
            r matches Ok(Some((rid, _))) ==> final(self).position() == ScanStatus::Scanning(rid),
            r matches Ok(None) ==> final(self).position() is Finished,
    {
        let ghost b0 = *bm;
        self.skip_to_page(bm)?;
        proof {
            crate::filemgr::heap_file::lemma_same_pages_stored(&b0, bm);
        }
        let page_id = self.page_id;
        match self.base.get_next(bm)? {
            Some((rid, rec)) => {
                if rid.page_id == page_id {
                    Ok(Some((rid, rec)))
                } else {
                    Ok(None)
                }
            },
            None => Ok(None),
        }
    }
}

} // verus!
