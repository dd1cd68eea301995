use vstd::prelude::*;

use crate::bufmgr::{same_pins_all, BufMgr};
use crate::diskmgr::{FIRST_PAGE_ID, HEADER_PAGE_ID, NUM_PAGES};
use crate::filemgr::heap_file::{lemma_same_pages_stored, stored, HeapFile};
use crate::filemgr::hfilemgr::fetch_page;
use crate::filemgr::{HEADER_MAX_ENTRY, entry_head, first_live_from, lemma_scan_completeness, live_from, next_page, slot_live, RecordId, RecordPage, SlotNo, PAGE_RECORD_BYTE};
use crate::types::{invalid_arg, EntryNo, Error, PageId, Res};

verus! {

/// Where a scan stands.
pub enum ScanStatus {
    /// Nothing has been returned yet.
    Starting,
    /// The last record returned was at this place.
    Scanning(RecordId),
    /// The scan has passed the last record.
    Finished,
}

/// A scan over the records of a heap file, page after page along the list and slot after
/// slot within a page.
pub struct RawFileScan {
    heap_file: HeapFile,
    status: ScanStatus,
}

/// The place of the first record at or after slot `from` of page `pid`, or else of the first
/// record of the pages after it along the list, visiting at most `n` pages.
pub open spec fn next_live(bm: &BufMgr, pid: int, from: int, n: nat) -> Option<RecordId>
    decreases n,
{
    if n == 0 || pid < FIRST_PAGE_ID || pid >= NUM_PAGES {
        None
    } else if exists|k: int| #[trigger] first_live_from(bm.content(pid), from, k) {
        let k = choose|k: int| #[trigger] first_live_from(bm.content(pid), from, k);
        Some(RecordId { page_id: pid as usize, slot_no: SlotNo { value: k as usize } })
    } else {
        next_live(bm, next_page(bm.content(pid)), 0, (n - 1) as nat)
    }
}

/// Looking for the next record from slot `from` of page `pid` on, every page visited (at most
/// `n`) can be pinned and the search ends within them.
pub open spec fn scan_ok(bm: &BufMgr, pid: int, from: int, n: nat) -> bool
    decreases n,
{
    if pid < FIRST_PAGE_ID {
        true
    } else if n == 0 {
        false
    } else {
        bm.can_pin(pid) && ((exists|k: int| #[trigger] first_live_from(bm.content(pid), from, k))
            || scan_ok(bm, next_page(bm.content(pid)), 0, (n - 1) as nat))
    }
}

/// A pool with the same pages that can pin what `a` can lets a search succeed where `a` does.
pub proof fn lemma_scan_ok_mono(a: &BufMgr, b: &BufMgr, pid: int, from: int, n: nat)
    requires
        b.same_pages(a),
        forall|q: int| a.can_pin(q) ==> #[trigger] b.can_pin(q),
        scan_ok(a, pid, from, n),
    ensures
        scan_ok(b, pid, from, n),
    decreases n,
{
    if pid >= FIRST_PAGE_ID && n > 0 {
        assert(a.can_pin(pid));
        assert(b.content(pid) == a.content(pid));
        if !(exists|k: int| #[trigger] first_live_from(a.content(pid), from, k)) {
            lemma_scan_ok_mono(a, b, next_page(a.content(pid)), 0, (n - 1) as nat);
        }
    }
}

/// The place of the first record at or after slot `from` of page `page_id`, following the
/// page list from there.
fn next_from(bm: &mut BufMgr, page_id: PageId, from: usize) -> (r: Res<Option<RecordId>>)
    requires
        old(bm).wf(),
    ensures
        final(bm).wf(),
        final(bm).capacity() == old(bm).capacity(),
        final(bm).same_pages(old(bm)),
        same_pins_all(final(bm), old(bm)),
        r matches Ok(Some(rid)) ==> stored(old(bm), rid) is Some && final(bm).can_pin(rid.page_id as int),
        forall|k: int| FIRST_PAGE_ID <= page_id && old(bm).can_pin(page_id as int)
            && #[trigger] first_live_from(old(bm).content(page_id as int), from as int, k)
            ==> r == Ok::<Option<RecordId>, Error>(Some(RecordId { page_id, slot_no: SlotNo { value: k as usize } })),
        r matches Ok(x) ==> x == next_live(old(bm), page_id as int, from as int, (NUM_PAGES + 1) as nat),
        scan_ok(old(bm), page_id as int, from as int, (NUM_PAGES + 1) as nat) ==> r is Ok,
{
    if page_id < FIRST_PAGE_ID {
        return Ok(None);
    }
    let page = fetch_page(bm, page_id)?;
    let rp = RecordPage::new(page);
    match rp.next_live_slot(from) {
        Some(k) => {
            let rid = RecordId::new(page_id, k);
            proof {
                let c = old(bm).content(page_id as int);
                let j = choose|j: int| #[trigger] first_live_from(c, from as int, j);
                assert(first_live_from(c, from as int, k.value as int));
                if j < k.value {
                    assert(!slot_live(c, j));
                } else if j > k.value {
                    assert(!slot_live(c, k.value as int));
                }
            }
            return Ok(Some(rid));
        },
        None => {},
    }
    let mut pid = rp.get_next_page_id()?;
    let mut steps: usize = 0;
    while steps < NUM_PAGES
        invariant
            bm.wf(),
            bm.capacity() == old(bm).capacity(),
            bm.same_pages(old(bm)),
            same_pins_all(bm, old(bm)),
            forall|k: int| !#[trigger] first_live_from(old(bm).content(page_id as int), from as int, k),
            steps <= NUM_PAGES,
            next_live(old(bm), page_id as int, from as int, (NUM_PAGES + 1) as nat)
                == next_live(old(bm), pid as int, 0, (NUM_PAGES - steps) as nat),
            forall|q: int| old(bm).can_pin(q) ==> #[trigger] bm.can_pin(q),
            scan_ok(old(bm), page_id as int, from as int, (NUM_PAGES + 1) as nat)
                ==> scan_ok(old(bm), pid as int, 0, (NUM_PAGES - steps) as nat),
        decreases NUM_PAGES - steps,
    {
        if pid < FIRST_PAGE_ID {
            return Ok(None);
        }
        let ghost b0 = *bm;
        let page = fetch_page(bm, pid)?;
        let rp = RecordPage::new(page);
        match rp.next_live_slot(0) {
            Some(k) => {
                let rid = RecordId::new(pid, k);
                proof {
                    assert(b0.content(pid as int) == old(bm).content(pid as int));
                    assert(stored(old(bm), rid) is Some);
                    let c = old(bm).content(pid as int);
                    let j = choose|j: int| #[trigger] first_live_from(c, 0, j);
                    assert(first_live_from(c, 0, k.value as int));
                    if j < k.value {
                        assert(!slot_live(c, j));
                    } else if j > k.value {
                        assert(!slot_live(c, k.value as int));
                    }
                }
                return Ok(Some(rid));
            },
            None => {},
        }
        proof {
            assert(b0.content(pid as int) == old(bm).content(pid as int));
        }
        let next = rp.get_next_page_id()?;
        proof {
            assert(next as int == next_page(old(bm).content(pid as int)));
        }
        pid = next;
        steps = steps + 1;
    }
    if pid < FIRST_PAGE_ID {
        return Ok(None);
    }
    Err(invalid_arg("the page list of the file does not end"))
}

/// Pools with the same pages lead a scan to the same records.
pub proof fn lemma_next_live_same(a: &BufMgr, b: &BufMgr, pid: int, from: int, n: nat)
    requires
        b.same_pages(a),
    ensures
        next_live(b, pid, from, n) == next_live(a, pid, from, n),
    decreases n,
{
    if n > 0 && FIRST_PAGE_ID <= pid < NUM_PAGES {
        assert(b.content(pid) == a.content(pid));
        lemma_next_live_same(a, b, next_page(a.content(pid)), 0, (n - 1) as nat);
    }
}

/// From any slot of a page of the list, the scan goes to the first of that page's remaining
/// slots that hold a record (the next of `live_from`, in increasing slot order), and to the
/// pages after it only once the page has none left: so it visits exactly the records of each
/// page of the list, in slot order, page after page.
pub proof fn lemma_scan_completeness_list(bm: &BufMgr, pid: int, from: int, n: nat)
    requires
        n >= 1,
        FIRST_PAGE_ID <= pid < NUM_PAGES,
        0 <= from,
    ensures
        live_from(bm.content(pid), from).len() > 0 ==> next_live(bm, pid, from, n) == Some(RecordId {
            page_id: pid as usize, slot_no: SlotNo { value: live_from(bm.content(pid), from)[0] as usize } }),
        live_from(bm.content(pid), from).len() == 0 ==> next_live(bm, pid, from, n)
            == next_live(bm, next_page(bm.content(pid)), 0, (n - 1) as nat),
{
    let c = bm.content(pid);
    lemma_scan_completeness(c, from);
    if exists|k: int| #[trigger] first_live_from(c, from, k) {
        let k = choose|k: int| #[trigger] first_live_from(c, from, k);
        assert(live_from(c, from) == seq![k].add(live_from(c, k + 1)));
        assert(live_from(c, from)[0] == k);
    }
}

/// The place of the record a scan of the file of directory entry `file`, standing at `pos`,
/// returns next: the first record after the last one returned, along the page list.
pub open spec fn scan_next(bm: &BufMgr, file: EntryNo, pos: ScanStatus) -> Option<RecordId> {
    match pos {
        ScanStatus::Starting => next_live(
            bm,
            entry_head(bm.content(HEADER_PAGE_ID as int), file.value as int),
            0,
            (NUM_PAGES + 1) as nat,
        ),
        ScanStatus::Finished => None,
        ScanStatus::Scanning(prev) => if prev.slot_no.value < usize::MAX {
            next_live(bm, prev.page_id as int, prev.slot_no.value + 1, (NUM_PAGES + 1) as nat)
        } else {
            None
        },
    }
}

/// The next step of a scan of the file of directory entry `file`, standing at `pos`, can be
/// taken: the directory page (from the start) and every page the search visits can be pinned.
pub open spec fn scan_step_ok(bm: &BufMgr, file: EntryNo, pos: ScanStatus) -> bool {
    match pos {
        ScanStatus::Starting => file.value < HEADER_MAX_ENTRY && bm.can_pin(HEADER_PAGE_ID as int) && scan_ok(
            bm,
            entry_head(bm.content(HEADER_PAGE_ID as int), file.value as int),
            0,
            (NUM_PAGES + 1) as nat,
        ),
        ScanStatus::Finished => true,
        ScanStatus::Scanning(prev) => prev.slot_no.value == usize::MAX || scan_ok(
            bm,
            prev.page_id as int,
            prev.slot_no.value + 1,
            (NUM_PAGES + 1) as nat,
        ),
    }
}

/// Pools with the same pages lead every scan to the same next record.
pub proof fn lemma_scan_next_same(a: &BufMgr, b: &BufMgr, file: EntryNo)
    requires
        b.same_pages(a),
    ensures
        forall|pos: ScanStatus| #[trigger] scan_next(b, file, pos) == scan_next(a, file, pos),
{
    assert forall|pos: ScanStatus| #[trigger] scan_next(b, file, pos) == scan_next(a, file, pos) by {
        assert(b.content(HEADER_PAGE_ID as int) == a.content(HEADER_PAGE_ID as int));
        match pos {
            ScanStatus::Starting => {
                lemma_next_live_same(a, b, entry_head(a.content(HEADER_PAGE_ID as int), file.value as int), 0, (NUM_PAGES + 1) as nat);
            },
            ScanStatus::Finished => {},
            ScanStatus::Scanning(prev) => {
                if prev.slot_no.value < usize::MAX {
                    lemma_next_live_same(a, b, prev.page_id as int, prev.slot_no.value + 1, (NUM_PAGES + 1) as nat);
                }
            },
        }
    }
}

/// `rids` are, in order, the records a scan of the file of directory entry `file` returns
/// from its start, and the scan has nothing after them.
pub open spec fn scan_complete(bm: &BufMgr, file: EntryNo, rids: Seq<RecordId>) -> bool {
    &&& rids.len() > 0 ==> scan_next(bm, file, ScanStatus::Starting) == Some(rids[0])
    &&& forall|i: int| 0 <= i < rids.len() - 1 ==> scan_next(bm, file, ScanStatus::Scanning(#[trigger] rids[i])) == Some(rids[i + 1])
    &&& scan_next(bm, file, if rids.len() == 0 { ScanStatus::Starting } else { ScanStatus::Scanning(rids.last()) }) is None
}

impl RawFileScan {
    /// A scan of `heap_file` from its first record.
    pub fn new(heap_file: HeapFile) -> (r: RawFileScan)
        ensures
            r.file() == heap_file.entry(),
            r.position() == ScanStatus::Starting,
    {
        RawFileScan { heap_file, status: ScanStatus::Starting }
    }

    /// Where the scan stands.
    pub closed spec fn position(&self) -> ScanStatus {
        self.status
    }

    /// The directory entry of the file scanned.
    pub closed spec fn file(&self) -> crate::types::EntryNo {
        self.heap_file.entry()
    }

    fn init_rid(&self, bm: &mut BufMgr) -> (r: Res<Option<RecordId>>)
        requires
            old(bm).wf(),
        ensures
            final(bm).wf(),
            final(bm).capacity() == old(bm).capacity(),
            final(bm).same_pages(old(bm)),
            same_pins_all(final(bm), old(bm)),
            r matches Ok(Some(rid)) ==> stored(old(bm), rid) is Some && final(bm).can_pin(rid.page_id as int),
            r matches Ok(x) ==> x == scan_next(old(bm), self.file(), ScanStatus::Starting),
            scan_step_ok(old(bm), self.file(), ScanStatus::Starting) ==> r is Ok,
    {
        let ghost b0 = *bm;
        let page_id = self.heap_file.get_header_free_page_id(bm)?;
        let ghost b1 = *bm;
        proof {
            if scan_step_ok(old(bm), self.file(), ScanStatus::Starting) {
                lemma_scan_ok_mono(&b0, &b1, page_id as int, 0, (NUM_PAGES + 1) as nat);
            }
        }
        let r = next_from(bm, page_id, 0);
        proof {
            lemma_same_pages_stored(&b0, bm);
            lemma_next_live_same(&b0, &b1, page_id as int, 0, (NUM_PAGES + 1) as nat);
        }
        r
    }

    fn next_rid(&self, bm: &mut BufMgr, rid: RecordId) -> (r: Res<Option<RecordId>>)
        requires
            old(bm).wf(),
        ensures
            final(bm).wf(),
            final(bm).capacity() == old(bm).capacity(),
            final(bm).same_pages(old(bm)),
            same_pins_all(final(bm), old(bm)),
            r matches Ok(Some(x)) ==> stored(old(bm), x) is Some && final(bm).can_pin(x.page_id as int),
            r matches Ok(x) ==> x == scan_next(old(bm), self.file(), ScanStatus::Scanning(rid)),
            scan_step_ok(old(bm), self.file(), ScanStatus::Scanning(rid)) ==> r is Ok,
            forall|k: int| FIRST_PAGE_ID <= rid.page_id && rid.slot_no.value < usize::MAX && old(bm).can_pin(rid.page_id as int)
                && #[trigger] first_live_from(old(bm).content(rid.page_id as int), rid.slot_no.value + 1, k)
                ==> r == Ok::<Option<RecordId>, Error>(Some(RecordId { page_id: rid.page_id, slot_no: SlotNo { value: k as usize } })),
    {
        if rid.slot_no.value == usize::MAX {
            return Ok(None);
        }
        next_from(bm, rid.page_id, rid.slot_no.value + 1)
    }

    /// The place of the record `get_next` returns next, without moving the scan.
    pub fn peer_next_rid(&self, bm: &mut BufMgr) -> (r: Res<Option<RecordId>>)
        requires
            old(bm).wf(),
        ensures
            final(bm).wf(),
            final(bm).capacity() == old(bm).capacity(),
            final(bm).same_pages(old(bm)),
            same_pins_all(final(bm), old(bm)),
            r matches Ok(Some(x)) ==> stored(old(bm), x) is Some && final(bm).can_pin(x.page_id as int),
            self.position() is Finished ==> r matches Ok(None),
            r matches Ok(x) ==> x == scan_next(old(bm), self.file(), self.position()),
            scan_step_ok(old(bm), self.file(), self.position()) ==> r is Ok,
            forall|k: int| #![trigger first_live_from(old(bm).content(self.position()->Scanning_0.page_id as int),
                self.position()->Scanning_0.slot_no.value + 1, k)]
                self.position() is Scanning && ({
                let prev = self.position()->Scanning_0;
                &&& FIRST_PAGE_ID <= prev.page_id
                &&& prev.slot_no.value < usize::MAX
                &&& old(bm).can_pin(prev.page_id as int)
                &&& first_live_from(old(bm).content(prev.page_id as int), prev.slot_no.value + 1, k)
            }) ==> r == Ok::<Option<RecordId>, Error>(Some(RecordId {
                page_id: self.position()->Scanning_0.page_id, slot_no: SlotNo { value: k as usize } })),
    {
        match self.status {
            ScanStatus::Starting => self.init_rid(bm),
            ScanStatus::Finished => Ok(None),
            ScanStatus::Scanning(rid) => self.next_rid(bm, rid),
        }
    }

    /// The next record and its place; `None` once the last one has been returned.
    pub fn get_next(&mut self, bm: &mut BufMgr) -> (r: Res<Option<(RecordId, [u8; PAGE_RECORD_BYTE])>>)
        requires
            old(bm).wf(),
        ensures
            final(bm).wf(),
            final(bm).capacity() == old(bm).capacity(),
            final(bm).same_pages(old(bm)),
            same_pins_all(final(bm), old(bm)),
            final(self).file() == old(self).file(),
            r matches Ok(Some((rid, d))) ==> stored(old(bm), rid) == Some(d@) && final(self).position() == ScanStatus::Scanning(rid),
            r matches Ok(None) ==> final(self).position() is Finished && scan_next(old(bm), old(self).file(), old(self).position()) is None,
            r matches Ok(Some((rid, _))) ==> scan_next(old(bm), old(self).file(), old(self).position()) == Some(rid),
            old(self).position() is Finished ==> r matches Ok(None),
            scan_step_ok(old(bm), old(self).file(), old(self).position()) ==> r is Ok,
            forall|k: int| #![trigger first_live_from(old(bm).content(old(self).position()->Scanning_0.page_id as int),
                old(self).position()->Scanning_0.slot_no.value + 1, k)]
                old(self).position() is Scanning && ({
                let prev = old(self).position()->Scanning_0;
                &&& FIRST_PAGE_ID <= prev.page_id
                &&& prev.slot_no.value < usize::MAX
                &&& old(bm).can_pin(prev.page_id as int)
                &&& first_live_from(old(bm).content(prev.page_id as int), prev.slot_no.value + 1, k)
            }) ==> r == Ok::<Option<(RecordId, [u8; PAGE_RECORD_BYTE])>, Error>(Some((RecordId {
                page_id: old(self).position()->Scanning_0.page_id, slot_no: SlotNo { value: k as usize } }, r->Ok_0->Some_0.1))),
    {
        let ghost b0 = *bm;
        let next = self.peer_next_rid(bm)?;
        match next {
            None => {
                self.status = ScanStatus::Finished;
                Ok(None)
            },
            Some(rid) => {
                self.status = ScanStatus::Scanning(rid);
                let ghost b1 = *bm;
                let rec = self.heap_file.get_record(bm, rid)?;
                proof {
                    assert(b1.content(rid.page_id as int) == b0.content(rid.page_id as int));
                    assert forall|q: int| #[trigger] b1.allocated(q) == b0.allocated(q) by {}
                    assert(stored(&b1, rid) == stored(&b0, rid));
                }
                Ok(Some((rid, rec)))
            },
        }
    }
}

} // verus!
