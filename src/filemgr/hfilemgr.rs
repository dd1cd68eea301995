use vstd::prelude::*;

use crate::bufmgr::{same_pins_all, BufMgr};
use crate::diskmgr::{first_free_page, NUM_PAGES, BITMAP_PAGE_ID};
use crate::diskmgr::{FIRST_PAGE_ID, HEADER_PAGE_ID};
use crate::filemgr::heap_file::{no_record, records_kept, stored, HeapFile};
use crate::filemgr::{entry_name, prev_page, HEADER_NAME_BYTE, entry_pos, page_id_bytes, entry_head, entry_matches, next_page, num_slots, HeaderPage, RecordId, RecordPage, HEADER_MAX_ENTRY};
use crate::converter::splice;
use crate::page::Page;
use crate::types::{invalid_arg, EntryNo, PageId, Res};
use vstd::string::StringSliceAdditionalSpecFns;

verus! {

/// A copy of the contents of page `page_id`, pinned for the read only.
pub fn fetch_page(bm: &mut BufMgr, page_id: PageId) -> (r: Res<Page>)
    requires
        old(bm).wf(),
    ensures
        final(bm).wf(),
        final(bm).capacity() == old(bm).capacity(),
        final(bm).same_pages(old(bm)),
        same_pins_all(final(bm), old(bm)),
        old(bm).can_pin(page_id as int) <==> r is Ok,
        r matches Ok(p) ==> p.wf() && p@ == old(bm).content(page_id as int) && final(bm).can_pin(page_id as int),
        r is Ok ==> forall|q: int| old(bm).can_pin(q) ==> #[trigger] final(bm).can_pin(q),
        r is Ok && old(bm).has_room() ==> final(bm).has_room(),
        r matches Err(e) ==> (if !(page_id != BITMAP_PAGE_ID && old(bm).allocated(page_id as int)) || old(bm).resident(page_id as int) {
            e is InvalidArg
        } else {
            e is BufferFull
        }),
{
    let page = bm.pin_page(page_id)?;
    let ghost mid = *bm;
    let _ = bm.unpin_page(page_id);
    proof {
        if old(bm).resident(page_id as int) {
            assert(mid.frames().len() == old(bm).frames().len());
            assert forall|q: int| #[trigger] bm.resident(q) == old(bm).resident(q) by {
                assert(mid.resident(q) == old(bm).resident(q));
            }
        } else {
            assert(mid.pins(page_id as int) == 1);
        }
        assert forall|q: int| #[trigger] bm.pins(q) == old(bm).pins(q) by {
            if q != page_id {
                assert(mid.pins(q) == old(bm).pins(q));
            }
        }
        assert forall|q: int| BITMAP_PAGE_ID < q < NUM_PAGES implies #[trigger] bm.content(q) == old(bm).content(q) by {
            assert(mid.content(q) == old(bm).content(q));
        }
        assert forall|q: int| #[trigger] bm.allocated(q) == old(bm).allocated(q) by {
            assert(mid.allocated(q) == old(bm).allocated(q));
        }
        bm.lemma_can_pin_kept(old(bm), page_id as int);
    }
    Ok(page)
}

/// Replaces the contents of page `page_id` by `page`, pinning it for the write only.
pub fn store_page(bm: &mut BufMgr, page_id: PageId, page: Page) -> (r: Res<()>)
    requires
        old(bm).wf(),
        page.wf(),
    ensures
        final(bm).wf(),
        final(bm).capacity() == old(bm).capacity(),
        same_pins_all(final(bm), old(bm)),
        forall|q: int| #[trigger] final(bm).allocated(q) == old(bm).allocated(q),
        old(bm).can_pin(page_id as int) <==> r is Ok,
        r is Ok ==> final(bm).content(page_id as int) == page@ && final(bm).can_pin(page_id as int)
            && forall|q: int| BITMAP_PAGE_ID < q < NUM_PAGES && q != page_id ==> #[trigger] final(bm).content(q) == old(bm).content(q),
        r is Err ==> final(bm).same_pages(old(bm)),
        r is Ok ==> forall|q: int| old(bm).can_pin(q) ==> #[trigger] final(bm).can_pin(q),
        r is Ok && old(bm).has_room() ==> final(bm).has_room(),
{
    let _ = bm.pin_page(page_id)?;
    let ghost mid = *bm;
    let _ = bm.set_page(page_id, page);
    let ghost mid2 = *bm;
    let _ = bm.unpin_page(page_id);
    proof {
        if old(bm).resident(page_id as int) {
            assert forall|q: int| #[trigger] bm.resident(q) == old(bm).resident(q) by {
                assert(mid.resident(q) == old(bm).resident(q));
                assert(mid2.resident(q) == mid.resident(q));
            }
        } else {
            assert(mid.pins(page_id as int) == 1);
        }
        assert forall|q: int| #[trigger] bm.pins(q) == old(bm).pins(q) by {
            if q != page_id {
                assert(mid.pins(q) == old(bm).pins(q));
                assert(mid2.pins(q) == mid.pins(q));
            } else {
                assert(mid2.pins(q) == mid.pins(q));
            }
        }
        assert forall|q: int| BITMAP_PAGE_ID < q < NUM_PAGES && q != page_id implies #[trigger] bm.content(q) == old(bm).content(q) by {
            assert(mid.content(q) == old(bm).content(q));
            assert(mid2.content(q) == mid.content(q));
        }
        assert forall|q: int| #[trigger] bm.allocated(q) == old(bm).allocated(q) by {
            assert(mid.allocated(q) == old(bm).allocated(q));
            assert(mid2.allocated(q) == mid.allocated(q));
        }
        assert(bm.content(page_id as int) == mid2.content(page_id as int));
        bm.lemma_can_pin_kept(old(bm), page_id as int);
    }
    Ok(())
}

/// Marks a free page as in use and returns it, with no pin left on it.
pub fn create_page(bm: &mut BufMgr) -> (r: Res<PageId>)
    requires
        old(bm).wf(),
    ensures
        final(bm).wf(),
        final(bm).capacity() == old(bm).capacity(),
        same_pins_all(final(bm), old(bm)),
        r matches Ok(pid) ==> first_free_page(old(bm).disk(), pid as int) && final(bm).allocated(pid as int)
            && !old(bm).allocated(pid as int)
            && (forall|q: int| q != pid ==> #[trigger] final(bm).allocated(q) == old(bm).allocated(q))
            && (forall|q: int| BITMAP_PAGE_ID < q < NUM_PAGES && q != pid ==> #[trigger] final(bm).content(q) == old(bm).content(q)),
        r matches Ok(pid) ==> final(bm).can_pin(pid as int),
        r is Ok ==> forall|q: int| old(bm).can_pin(q) ==> #[trigger] final(bm).can_pin(q),
        r is Ok && old(bm).has_room() ==> final(bm).has_room(),
        (exists|q: int| FIRST_PAGE_ID <= q < NUM_PAGES && !old(bm).allocated(q)) && old(bm).has_room() ==> r is Ok,
        r is Err ==> (forall|q: int| old(bm).allocated(q) ==> #[trigger] final(bm).allocated(q))
            && (forall|q: int| BITMAP_PAGE_ID < q < NUM_PAGES ==> #[trigger] final(bm).content(q) == old(bm).content(q)),
{
    let (page_id, _) = match bm.create_page() {
        Ok(x) => x,
        Err(e) => return Err(e),
    };
    let ghost mid = *bm;
    let _ = bm.unpin_page(page_id);
    proof {
        assert forall|q: int| #[trigger] bm.pins(q) == old(bm).pins(q) by {
            if q != page_id {
                assert(mid.pins(q) == old(bm).pins(q));
            }
        }
        assert forall|q: int| BITMAP_PAGE_ID < q < NUM_PAGES && q != page_id implies #[trigger] bm.content(q) == old(bm).content(q) by {
            assert(mid.content(q) == old(bm).content(q));
        }
        assert forall|q: int| q != page_id implies #[trigger] bm.allocated(q) == old(bm).allocated(q) by {
            assert(mid.allocated(q) == old(bm).allocated(q));
        }
        assert(mid.pins(page_id as int) == 1);
        assert(old(bm).pins(page_id as int) == 0);
        bm.lemma_can_pin_kept(old(bm), page_id as int);
    }
    Ok(page_id)
}

/// Where the heap files live: the buffer pool, with the directory on its well-known page.
pub struct HFileMgr {
    pub bufmgr: BufMgr,
}

impl HFileMgr {
    /// The pool is well formed and the directory page is in use.
    pub open spec fn wf(&self) -> bool {
        &&& self.bufmgr.wf()
        &&& self.bufmgr.allocated(HEADER_PAGE_ID as int)
    }

    /// The file manager over `bufmgr`; the directory page is marked in use, and keeps what
    /// the file holds there.
    pub fn build(bufmgr: BufMgr) -> (r: Res<HFileMgr>)
        requires
            bufmgr.wf(),
        ensures
            r matches Ok(m) ==> m.wf() && m.bufmgr.capacity() == bufmgr.capacity()
                && records_kept(&bufmgr, &m.bufmgr, no_record())
                && same_pins_all(&m.bufmgr, &bufmgr)
                && (forall|q: int| BITMAP_PAGE_ID < q < NUM_PAGES ==> #[trigger] m.bufmgr.content(q) == bufmgr.content(q)),
            r is Ok,
    {
        let mut bufmgr = bufmgr;
        let ghost b0 = bufmgr;
        let _ = bufmgr.reserve_page(HEADER_PAGE_ID);
        proof {
            assert forall|x: RecordId| #[trigger] stored(&b0, x) is Some implies stored(&bufmgr, x) == stored(&b0, x) by {
                assert(bufmgr.content(x.page_id as int) == b0.content(x.page_id as int));
            }
        }
        Ok(HFileMgr { bufmgr })
    }

    fn find_file(&mut self, name: &str) -> (r: Res<Option<EntryNo>>)
        requires
            old(self).wf(),
        ensures
            final(self).wf(),
            final(self).bufmgr.capacity() == old(self).bufmgr.capacity(),
            final(self).bufmgr.same_pages(&old(self).bufmgr),
            same_pins_all(&final(self).bufmgr, &old(self).bufmgr),
            r matches Ok(Some(e)) ==> e.value < HEADER_MAX_ENTRY
                && entry_matches(old(self).bufmgr.content(HEADER_PAGE_ID as int), e.value as int, name.spec_bytes()),
            r matches Ok(None) ==> forall|j: int| 0 <= j < HEADER_MAX_ENTRY ==>
                !entry_matches(old(self).bufmgr.content(HEADER_PAGE_ID as int), j, name.spec_bytes()),
            old(self).bufmgr.can_pin(HEADER_PAGE_ID as int) && name.spec_bytes().len() <= HEADER_NAME_BYTE ==> r is Ok,
            r is Ok ==> forall|q: int| old(self).bufmgr.can_pin(q) ==> #[trigger] final(self).bufmgr.can_pin(q),
            r is Ok && old(self).bufmgr.has_room() ==> final(self).bufmgr.has_room(),
    {
        let page = fetch_page(&mut self.bufmgr, HEADER_PAGE_ID)?;
        let header = HeaderPage::new(page);
        header.find(name)
    }

    /// A new, empty heap file named `name`; `InvalidArg` where a file of that name exists,
    /// the name is too long or the directory is full.
    pub fn create_file(&mut self, name: &str) -> (r: Res<HeapFile>)
        requires
            old(self).wf(),
        ensures
            final(self).wf(),
            final(self).bufmgr.capacity() == old(self).bufmgr.capacity(),
            same_pins_all(&final(self).bufmgr, &old(self).bufmgr),
            records_kept(&old(self).bufmgr, &final(self).bufmgr, no_record()),
            (exists|j: int| 0 <= j < HEADER_MAX_ENTRY && entry_matches(old(self).bufmgr.content(HEADER_PAGE_ID as int), j, name.spec_bytes()))
                ==> r is Err,
            (exists|j: int| 0 <= j < HEADER_MAX_ENTRY && entry_matches(old(self).bufmgr.content(HEADER_PAGE_ID as int), j, name.spec_bytes()))
                && old(self).bufmgr.can_pin(HEADER_PAGE_ID as int) ==> r is Err && r->Err_0 is InvalidArg
                && final(self).bufmgr.content(HEADER_PAGE_ID as int) == old(self).bufmgr.content(HEADER_PAGE_ID as int)
                && (forall|q: int| #[trigger] final(self).bufmgr.allocated(q) == old(self).bufmgr.allocated(q)),
            r matches Ok(hf) ==> ({
                let hp = final(self).bufmgr.content(HEADER_PAGE_ID as int);
                let head = entry_head(hp, hf.entry().value as int);
                &&& hf.entry().value < HEADER_MAX_ENTRY
                &&& FIRST_PAGE_ID <= head < NUM_PAGES
                &&& final(self).bufmgr.allocated(head)
                &&& !old(self).bufmgr.allocated(head)
                &&& num_slots(final(self).bufmgr.content(head)) == 0
                &&& next_page(final(self).bufmgr.content(head)) == 0
                &&& prev_page(final(self).bufmgr.content(head)) == HEADER_PAGE_ID
                &&& entry_matches(hp, hf.entry().value as int, name.spec_bytes())
            }),
            r matches Ok(hf) ==> ({
                let hp = final(self).bufmgr.content(HEADER_PAGE_ID as int);
                let old_hp = old(self).bufmgr.content(HEADER_PAGE_ID as int);
                let e = hf.entry().value as int;
                &&& entry_head(old_hp, e) == 0
                &&& (forall|j: int| 0 <= j < e ==> #[trigger] entry_head(old_hp, j) != 0)
                &&& (forall|j: int| 0 <= j < HEADER_MAX_ENTRY && j != e ==> #[trigger] entry_head(hp, j) == entry_head(old_hp, j)
                    && entry_name(hp, j) == entry_name(old_hp, j))
                &&& (forall|j: int| 0 <= j < HEADER_MAX_ENTRY && j != e ==> !#[trigger] entry_matches(hp, j, name.spec_bytes()))
                &&& (forall|q: int| q != entry_head(hp, e) ==> #[trigger] final(self).bufmgr.allocated(q) == old(self).bufmgr.allocated(q))
            }),
            ({
                let hp = old(self).bufmgr.content(HEADER_PAGE_ID as int);
                &&& !(exists|j: int| 0 <= j < HEADER_MAX_ENTRY && entry_matches(hp, j, name.spec_bytes()))
                &&& name.spec_bytes().len() <= HEADER_NAME_BYTE
                &&& (exists|j: int| 0 <= j < HEADER_MAX_ENTRY && entry_head(hp, j) == 0)
                &&& (exists|q: int| FIRST_PAGE_ID <= q < NUM_PAGES && !old(self).bufmgr.allocated(q))
                &&& old(self).bufmgr.can_pin(HEADER_PAGE_ID as int)
                &&& old(self).bufmgr.has_room()
            }) ==> r is Ok,
    {
        let ghost b0 = self.bufmgr;
        if let Some(_) = self.find_file(name)? {
            return Err(invalid_arg("a file of this name exists"));
        }
        let ghost b1 = self.bufmgr;
        proof {
            if exists|q: int| FIRST_PAGE_ID <= q < NUM_PAGES && !b0.allocated(q) {
                let q = choose|q: int| FIRST_PAGE_ID <= q < NUM_PAGES && !b0.allocated(q);
                assert(b1.allocated(q) == b0.allocated(q));
            }
        }
        let page_id = create_page(&mut self.bufmgr)?;
        let ghost b2 = self.bufmgr;
        let page = fetch_page(&mut self.bufmgr, HEADER_PAGE_ID)?;
        let mut header = HeaderPage::new(page);
        let ghost b3 = self.bufmgr;
        let entry_no = header.new_entry()?;
        let ghost h0 = header@;
        header.set_head_free_page_id(entry_no, page_id)?;
        let ghost h1 = header@;
        header.set_head_full_page_id(entry_no, 0)?;
        let ghost h2 = header@;
        header.set_name(entry_no, name)?;
        let ghost hp = header@;
        proof {
            let pos = entry_pos(entry_no.value as int);
            crate::converter::lemma_int_at_splice(h0, pos, page_id as i32);
            crate::converter::lemma_int_at_splice_other(h1, pos + 4, page_id_bytes(0), pos);
            crate::converter::lemma_int_at_splice_other(h2, pos + 8, name.spec_bytes(), pos);
            assert(entry_head(hp, entry_no.value as int) == page_id);
            assert(entry_name(hp, entry_no.value as int).subrange(0, name.spec_bytes().len() as int) =~= name.spec_bytes());
            assert forall|j: int| 0 <= j < HEADER_MAX_ENTRY && j != entry_no.value implies #[trigger] entry_head(hp, j) == entry_head(h0, j)
                && entry_name(hp, j) == entry_name(h0, j) by {
                let pj = entry_pos(j);
                crate::converter::lemma_int_at_splice_other(h0, pos, page_id_bytes(page_id), pj);
                crate::converter::lemma_int_at_splice_other(h1, pos + 4, page_id_bytes(0), pj);
                crate::converter::lemma_int_at_splice_other(h2, pos + 8, name.spec_bytes(), pj);
                assert(entry_name(hp, j) =~= entry_name(h0, j));
            }
            assert(h0 == old(self).bufmgr.content(HEADER_PAGE_ID as int)) by {
                assert(b1.content(HEADER_PAGE_ID as int) == b0.content(HEADER_PAGE_ID as int));
                assert(b2.content(HEADER_PAGE_ID as int) == b1.content(HEADER_PAGE_ID as int));
            }
        }
        store_page(&mut self.bufmgr, HEADER_PAGE_ID, header.into_page())?;
        let ghost b4 = self.bufmgr;
        let mut rp = RecordPage::new(Page::new());
        let ghost z = rp@;
        rp.set_next_page_id(0)?;
        rp.set_prev_page_id(HEADER_PAGE_ID)?;
        let ghost e = rp@;
        proof {
            let z1 = splice(z, 0, page_id_bytes(0));
            crate::converter::lemma_int_at_splice(z, 0, 0i32);
            crate::converter::lemma_int_at_splice_other(z1, 4, page_id_bytes(HEADER_PAGE_ID), 0);
            crate::converter::lemma_int_at_splice(z1, 4, 1i32);
            crate::converter::lemma_int_at_splice_other(z1, 4, page_id_bytes(HEADER_PAGE_ID), 540);
            crate::converter::lemma_int_at_splice_other(z, 0, page_id_bytes(0), 540);
            crate::converter::lemma_int_at_zero(z, 540);
            assert(num_slots(e) == 0);
            assert(next_page(e) == 0);
            assert(prev_page(e) == HEADER_PAGE_ID);
        }
        store_page(&mut self.bufmgr, page_id, rp.into_page())?;
        proof {
            assert(self.bufmgr.content(HEADER_PAGE_ID as int) == hp);
            let e = entry_no.value as int;
            assert(entry_head(h0, e) == 0);
            assert forall|j: int| 0 <= j < HEADER_MAX_ENTRY && j != e implies !#[trigger] entry_matches(hp, j, name.spec_bytes()) by {
                assert(entry_head(hp, j) == entry_head(h0, j) && entry_name(hp, j) == entry_name(h0, j));
                assert(!entry_matches(h0, j, name.spec_bytes()));
            }
            assert forall|q: int| q != page_id implies #[trigger] self.bufmgr.allocated(q) == old(self).bufmgr.allocated(q) by {
                assert(b1.allocated(q) == b0.allocated(q));
                assert(b2.allocated(q) == b1.allocated(q));
            }
            assert forall|x: RecordId| #[trigger] stored(&b0, x) is Some implies stored(&self.bufmgr, x) == stored(&b0, x) by {
                assert(b1.content(x.page_id as int) == b0.content(x.page_id as int));
                assert(x.page_id != page_id);
                assert(b3.content(x.page_id as int) == b2.content(x.page_id as int));
            }
        }
        Ok(HeapFile::new(entry_no))
    }

    /// The heap file named `name`, created where there is none.
    pub fn open(&mut self, name: &str) -> (r: Res<HeapFile>)
        requires
            old(self).wf(),
        ensures
            final(self).wf(),
            final(self).bufmgr.capacity() == old(self).bufmgr.capacity(),
            same_pins_all(&final(self).bufmgr, &old(self).bufmgr),
            records_kept(&old(self).bufmgr, &final(self).bufmgr, no_record()),
            r matches Ok(hf) ==> hf.entry().value < HEADER_MAX_ENTRY
                && entry_matches(final(self).bufmgr.content(HEADER_PAGE_ID as int), hf.entry().value as int, name.spec_bytes()),
            old(self).bufmgr.can_pin(HEADER_PAGE_ID as int)
                && (exists|j: int| 0 <= j < HEADER_MAX_ENTRY && entry_matches(old(self).bufmgr.content(HEADER_PAGE_ID as int), j, name.spec_bytes()))
                ==> r is Ok,
            ({
                let hp = old(self).bufmgr.content(HEADER_PAGE_ID as int);
                &&& name.spec_bytes().len() <= HEADER_NAME_BYTE
                &&& (exists|j: int| 0 <= j < HEADER_MAX_ENTRY && entry_head(hp, j) == 0)
                &&& (exists|q: int| FIRST_PAGE_ID <= q < NUM_PAGES && !old(self).bufmgr.allocated(q))
                &&& old(self).bufmgr.can_pin(HEADER_PAGE_ID as int)
                &&& old(self).bufmgr.has_room()
            }) ==> r is Ok,
    {
        let ghost b0 = self.bufmgr;
        let found = self.find_file(name);
        proof {
            assert forall|x: RecordId| #[trigger] stored(&b0, x) is Some implies stored(&self.bufmgr, x) == stored(&b0, x) by {
                assert(self.bufmgr.content(x.page_id as int) == b0.content(x.page_id as int));
            }
        }
        proof {
            let b1 = self.bufmgr;
            if exists|q: int| FIRST_PAGE_ID <= q < NUM_PAGES && !b0.allocated(q) {
                let q = choose|q: int| FIRST_PAGE_ID <= q < NUM_PAGES && !b0.allocated(q);
                assert(b1.allocated(q) == b0.allocated(q));
            }
            assert(b1.content(HEADER_PAGE_ID as int) == b0.content(HEADER_PAGE_ID as int));
        }
        match found {
            Err(e) => Err(e),
            Ok(None) => self.create_file(name),
            Ok(Some(entry_no)) => Ok(HeapFile::new(entry_no)),
        }
    }
}

} // verus!
