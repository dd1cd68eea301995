use vstd::prelude::*;
use vstd::multiset::Multiset;
use vstd::seq_lib::to_multiset_build;

use crate::bufmgr::{same_pins_all, BufMgr};
use crate::converter::{decode_int, int_at};
use crate::filemgr::heap_file::{chain, lemma_chain_eq, lemma_list_ok_chain, list_ok, no_record, records_kept, room_reachable, stored, HeapFile};
use crate::filemgr::hfilemgr::{fetch_page, store_page};
use crate::filemgr::{HEADER_MAX_ENTRY, entry_head, lemma_with_added_slot, next_page, num_slots, slot_data, slot_live, RecordId, RecordPage, SlotNo, PAGE_CAPACITY, PAGE_RECORD_BYTE};
use crate::relop::record::{field_in_frame, Record};
use crate::diskmgr::{BITMAP_PAGE_ID, FIRST_PAGE_ID, HEADER_PAGE_ID, NUM_PAGES};
use crate::page::PAGE_BYTE;
use crate::types::PageId;
use crate::relop::schema::{AttributeType, Schema, SchemaView};
use crate::types::{invalid_arg, Res};

verus! {

broadcast use vstd::seq_lib::group_to_multiset_ensures;

/// The key of a record frame: the integer at byte `off`.
pub open spec fn key_of(rec: [u8; PAGE_RECORD_BYTE], off: int) -> i32 {
    int_at(rec@, off)
}

/// The bytes of each record of `v`.
pub open spec fn views(v: Seq<[u8; PAGE_RECORD_BYTE]>) -> Seq<Seq<u8>> {
    v.map_values(|a: [u8; PAGE_RECORD_BYTE]| a@)
}

/// The records of the record page `s` from slot `k` on, in slot order.
pub open spec fn records_from(s: Seq<u8>, k: int) -> Seq<Seq<u8>>
    decreases PAGE_CAPACITY - k,
{
    if k >= PAGE_CAPACITY || k < 0 {
        Seq::empty()
    } else if slot_live(s, k) {
        seq![slot_data(s, k)] + records_from(s, k + 1)
    } else {
        records_from(s, k + 1)
    }
}

/// The records of pages `pids` of `bm`, page after page.
pub open spec fn pages_records(bm: &BufMgr, pids: Seq<usize>) -> Seq<Seq<u8>>
    decreases pids.len(),
{
    if pids.len() == 0 {
        Seq::empty()
    } else {
        pages_records(bm, pids.drop_last()) + records_from(bm.content(pids.last() as int), 0)
    }
}

/// Pools with the same pages hold the same records on pages `pids`.
pub proof fn lemma_pages_records_same(a: &BufMgr, b: &BufMgr, pids: Seq<usize>)
    requires
        b.same_pages(a),
        forall|i: int| 0 <= i < pids.len() ==> BITMAP_PAGE_ID < #[trigger] pids[i] < NUM_PAGES,
    ensures
        pages_records(b, pids) == pages_records(a, pids),
    decreases pids.len(),
{
    if pids.len() > 0 {
        lemma_pages_records_same(a, b, pids.drop_last());
        assert(b.content(pids.last() as int) == a.content(pids.last() as int));
    }
}

/// The records of `s` come in order of their keys.
pub open spec fn sorted_by_key(s: Seq<[u8; PAGE_RECORD_BYTE]>, off: int) -> bool {
    forall|i: int, j: int| 0 <= i < j < s.len() ==> key_of(s[i], off) <= key_of(s[j], off)
}

/// The key of `rec` at byte `off`.
pub fn get_key(rec: &[u8; PAGE_RECORD_BYTE], off: usize) -> (r: i32)
    requires
        off + 4 <= PAGE_RECORD_BYTE,
    ensures
        r == key_of(*rec, off as int),
{
    decode_int(rec[off], rec[off + 1], rec[off + 2], rec[off + 3])
}

/// The records of `a` and `b`, both in key order, merged into one sequence in key order;
/// of two records with equal keys the one of `a` comes first.
pub fn merge_runs(a: &Vec<[u8; PAGE_RECORD_BYTE]>, b: &Vec<[u8; PAGE_RECORD_BYTE]>, off: usize) -> (r: Vec<[u8; PAGE_RECORD_BYTE]>)
    requires
        off + 4 <= PAGE_RECORD_BYTE,
        sorted_by_key(a@, off as int),
        sorted_by_key(b@, off as int),
    ensures
        sorted_by_key(r@, off as int),
        views(r@).to_multiset() == views(a@).to_multiset().add(views(b@).to_multiset()),
{
    let mut res: Vec<[u8; PAGE_RECORD_BYTE]> = Vec::new();
    let mut i: usize = 0;
    let mut j: usize = 0;
    proof {
        assert(a@.subrange(0, 0) =~= Seq::<[u8; PAGE_RECORD_BYTE]>::empty());
        assert(b@.subrange(0, 0) =~= Seq::<[u8; PAGE_RECORD_BYTE]>::empty());
        assert(views(res@).to_multiset() =~= Multiset::empty());
        assert(views(a@.subrange(0, 0)).to_multiset() =~= Multiset::empty());
        assert(views(b@.subrange(0, 0)).to_multiset() =~= Multiset::empty());
    }
    while i < a.len() || j < b.len()
        invariant
            off + 4 <= PAGE_RECORD_BYTE,
            i <= a@.len(),
            j <= b@.len(),
            sorted_by_key(a@, off as int),
            sorted_by_key(b@, off as int),
            sorted_by_key(res@, off as int),
            res@.len() == i + j,
            views(res@).to_multiset() == views(a@.subrange(0, i as int)).to_multiset().add(views(b@.subrange(0, j as int)).to_multiset()),
            res@.len() > 0 && i < a@.len() ==> key_of(res@.last(), off as int) <= key_of(a@[i as int], off as int),
            res@.len() > 0 && j < b@.len() ==> key_of(res@.last(), off as int) <= key_of(b@[j as int], off as int),
        decreases a@.len() + b@.len() - i - j,
    {
        let take_a = if j >= b.len() {
            true
        } else if i >= a.len() {
            false
        } else {
            get_key(&a[i], off) <= get_key(&b[j], off)
        };
        let ghost old_res = res@;
        if take_a {
            let x = a[i];
            res.push(x);
            proof {
                assert(views(res@) =~= views(old_res).push(x@));
                to_multiset_build(views(old_res), x@);
                assert(views(a@.subrange(0, i + 1)) =~= views(a@.subrange(0, i as int)).push(x@));
                to_multiset_build(views(a@.subrange(0, i as int)), x@);
            }
            i = i + 1;
        } else {
            let x = b[j];
            res.push(x);
            proof {
                assert(views(res@) =~= views(old_res).push(x@));
                to_multiset_build(views(old_res), x@);
                assert(views(b@.subrange(0, j + 1)) =~= views(b@.subrange(0, j as int)).push(x@));
                to_multiset_build(views(b@.subrange(0, j as int)), x@);
            }
            j = j + 1;
        }
        proof {
            assert(sorted_by_key(res@, off as int)) by {
                assert forall|p: int, q: int| 0 <= p < q < res@.len() implies key_of(res@[p], off as int) <= key_of(res@[q], off as int) by {
                    if q == res@.len() - 1 && p < q && old_res.len() > 0 {
                        assert(key_of(res@[p], off as int) <= key_of(old_res.last(), off as int));
                    }
                }
            }
        }
    }
    proof {
        assert(a@.subrange(0, i as int) =~= a@);
        assert(b@.subrange(0, j as int) =~= b@);
    }
    res
}

/// The records of `run` in key order.
pub fn sort_run(run: &Vec<[u8; PAGE_RECORD_BYTE]>, off: usize) -> (r: Vec<[u8; PAGE_RECORD_BYTE]>)
    requires
        off + 4 <= PAGE_RECORD_BYTE,
    ensures
        sorted_by_key(r@, off as int),
        views(r@).to_multiset() == views(run@).to_multiset(),
{
    let mut acc: Vec<[u8; PAGE_RECORD_BYTE]> = Vec::new();
    let mut i: usize = 0;
    proof {
        assert(run@.subrange(0, 0) =~= Seq::<[u8; PAGE_RECORD_BYTE]>::empty());
        assert(views(acc@).to_multiset() =~= Multiset::empty());
        assert(views(run@.subrange(0, 0)).to_multiset() =~= Multiset::empty());
    }
    while i < run.len()
        invariant
            off + 4 <= PAGE_RECORD_BYTE,
            i <= run@.len(),
            sorted_by_key(acc@, off as int),
            views(acc@).to_multiset() == views(run@.subrange(0, i as int)).to_multiset(),
        decreases run@.len() - i,
    {
        let one = vec![run[i]];
        proof {
            let x = run@[i as int]@;
            to_multiset_build(Seq::<Seq<u8>>::empty(), x);
            assert(views(one@) =~= Seq::<Seq<u8>>::empty().push(x));
            assert(views(run@.subrange(0, i + 1)) =~= views(run@.subrange(0, i as int)).push(x));
            to_multiset_build(views(run@.subrange(0, i as int)), x);
            assert(Seq::<Seq<u8>>::empty().to_multiset() =~= Multiset::empty());
        }
        acc = merge_runs(&acc, &one, off);
        i = i + 1;
    }
    proof {
        assert(run@.subrange(0, i as int) =~= run@);
    }
    acc
}

/// A heap file with the schema of its records.
pub struct Relation {
    file: HeapFile,
    schema: Schema,
}

impl Relation {
    pub fn new(file: HeapFile, schema: Schema) -> (r: Relation)
        ensures
            r.sch() == schema@,
            r.file_entry() == file.entry(),
    {
        Relation { file, schema }
    }

    /// The schema of the records.
    pub closed spec fn sch(&self) -> SchemaView {
        self.schema@
    }

    /// The directory entry of the heap file.
    pub closed spec fn file_entry(&self) -> crate::types::EntryNo {
        self.file.entry()
    }

    pub fn get_schema(&self) -> (r: &Schema)
        ensures
            r@ == self.sch(),
    {
        &self.schema
    }

    /// The heap file.
    pub fn get_file(&self) -> (r: &HeapFile)
        ensures
            r.entry() == self.file_entry(),
    {
        &self.file
    }

    /// The record at `rid`, read through the schema.
    pub fn get_record<'a>(&'a self, bm: &mut BufMgr, rid: RecordId) -> (r: Res<Record<'a>>)
        requires
            old(bm).wf(),
        ensures
            final(bm).wf(),
            final(bm).capacity() == old(bm).capacity(),
            final(bm).same_pages(old(bm)),
            same_pins_all(final(bm), old(bm)),
            r matches Ok(rec) ==> stored(old(bm), rid) == Some(rec@) && rec.sch() == self.sch(),
    {
        let data = self.file.get_record(bm, rid)?;
        Ok(Record::new(data, &self.schema))
    }

    /// Empties every page of the file: no slot added, none occupied; the pages stay in the
    /// file's list, so records stored afterwards fill them from their first slot on.
    pub fn truncate(&mut self, bm: &mut BufMgr) -> (r: Res<()>)
        requires
            old(bm).wf(),
        ensures
            final(bm).wf(),
            final(bm).capacity() == old(bm).capacity(),
            same_pins_all(final(bm), old(bm)),
            r is Ok ==> ({
                let ps = chain(old(bm), entry_head(old(bm).content(HEADER_PAGE_ID as int), old(self).file_entry().value as int),
                    NUM_PAGES as nat);
                forall|j: int| 0 <= j < ps.len() ==> num_slots(final(bm).content(#[trigger] ps[j] as int)) == 0
            }),
    {
        let pids = self.file.page_ids(bm)?;
        let ghost ps = pids@;
        let mut i: usize = 0;
        while i < pids.len()
            invariant
                bm.wf(),
                bm.capacity() == old(bm).capacity(),
                same_pins_all(bm, old(bm)),
                pids@ == ps,
                i <= ps.len(),
                forall|j: int| 0 <= j < ps.len() ==> FIRST_PAGE_ID <= #[trigger] ps[j] < NUM_PAGES,
                forall|j: int| 0 <= j < i ==> num_slots(bm.content(#[trigger] ps[j] as int)) == 0,
            decreases ps.len() - i,
        {
            let pid = pids[i];
            let ghost c0 = *bm;
            let page = fetch_page(bm, pid)?;
            let mut rp = RecordPage::new(page);
            rp.free_all()?;
            let ghost s1 = rp@;
            rp.set_num_slots(0)?;
            proof {
                crate::converter::lemma_int_at_splice(s1, 540, 0i32);
            }
            let ghost c1 = *bm;
            store_page(bm, pid, rp.into_page())?;
            proof {
                assert(num_slots(bm.content(pid as int)) == 0);
                assert forall|j: int| 0 <= j < i + 1 implies num_slots(bm.content(#[trigger] ps[j] as int)) == 0 by {
                    if ps[j] != pid {
                        assert(c1.content(ps[j] as int) == bm.content(ps[j] as int));
                        assert(c1.content(ps[j] as int) == c0.content(ps[j] as int));
                    }
                }
            }
            i = i + 1;
        }
        Ok(())
    }

    /// Stores `data` in the file.
    pub fn insert_bytes(&mut self, bm: &mut BufMgr, data: [u8; PAGE_RECORD_BYTE]) -> (r: Res<()>)
        requires
            old(bm).wf(),
        ensures
            final(bm).wf(),
            final(bm).capacity() == old(bm).capacity(),
            same_pins_all(final(bm), old(bm)),
            r is Ok ==> exists|rid: RecordId| #[trigger] stored(final(bm), rid) == Some(data@)
                && records_kept(old(bm), final(bm), rid) && stored(old(bm), rid) is None,
            r is Err ==> records_kept(old(bm), final(bm), no_record()),
            ({
                let head = entry_head(old(bm).content(HEADER_PAGE_ID as int), old(self).file_entry().value as int);
                &&& old(self).file_entry().value < HEADER_MAX_ENTRY
                &&& old(bm).can_pin(HEADER_PAGE_ID as int)
                &&& room_reachable(old(bm), head, NUM_PAGES as nat)
            }) ==> r is Ok,
            ({
                let head = entry_head(old(bm).content(HEADER_PAGE_ID as int), old(self).file_entry().value as int);
                &&& old(self).file_entry().value < HEADER_MAX_ENTRY
                &&& old(bm).can_pin(HEADER_PAGE_ID as int)
                &&& FIRST_PAGE_ID <= head
                &&& list_ok(old(bm), head, NUM_PAGES as nat)
                &&& old(bm).has_room()
                &&& exists|q: int| FIRST_PAGE_ID <= q < NUM_PAGES && !old(bm).allocated(q)
            }) ==> r is Ok,
    {
        self.file.insert_record(bm, data)?;
        Ok(())
    }
}

/// The records of page `pid`, in slot order.
fn page_records(bm: &mut BufMgr, pid: PageId) -> (r: Res<Vec<[u8; PAGE_RECORD_BYTE]>>)
    requires
        old(bm).wf(),
    ensures
        final(bm).wf(),
        final(bm).capacity() == old(bm).capacity(),
        final(bm).same_pages(old(bm)),
        same_pins_all(final(bm), old(bm)),
        r matches Ok(v) ==> views(v@) == records_from(old(bm).content(pid as int), 0),
        old(bm).can_pin(pid as int) <==> r is Ok,
        r is Ok ==> forall|q: int| old(bm).can_pin(q) ==> #[trigger] final(bm).can_pin(q),
{
    let page = fetch_page(bm, pid)?;
    let rp = RecordPage::new(page);
    let mut recs: Vec<[u8; PAGE_RECORD_BYTE]> = Vec::new();
    let mut k: usize = PAGE_CAPACITY;
    while k > 0
        invariant
            rp.wf(),
            k <= PAGE_CAPACITY,
            views(recs@) == records_from(rp@, k as int),
        decreases k,
    {
        k = k - 1;
        let ghost before = recs@;
        match rp.get_slot(SlotNo::new(k)) {
            Ok(d) => {
                recs.insert(0, d);
                assert(views(recs@) =~= seq![d@] + views(before));
            },
            Err(_) => {},
        }
        assert(views(recs@) =~= records_from(rp@, k as int));
    }
    Ok(recs)
}

/// The records of pages `pids` in key order: each page sorted on its own, then the sorted
/// pages merged one after the other.
pub fn sort_pages(bm: &mut BufMgr, pids: &Vec<PageId>, off: usize) -> (r: Res<Vec<[u8; PAGE_RECORD_BYTE]>>)
    requires
        old(bm).wf(),
        off + 4 <= PAGE_RECORD_BYTE,
    ensures
        final(bm).wf(),
        final(bm).capacity() == old(bm).capacity(),
        final(bm).same_pages(old(bm)),
        same_pins_all(final(bm), old(bm)),
        r matches Ok(v) ==> sorted_by_key(v@, off as int)
            && views(v@).to_multiset() == pages_records(old(bm), pids@).to_multiset(),
        (forall|i: int| 0 <= i < pids@.len() ==> old(bm).can_pin(#[trigger] pids@[i] as int)) ==> r is Ok,
        r is Ok ==> forall|q: int| old(bm).can_pin(q) ==> #[trigger] final(bm).can_pin(q),
{
    let mut merged: Vec<[u8; PAGE_RECORD_BYTE]> = Vec::new();
    let mut i: usize = 0;
    proof {
        assert(pids@.subrange(0, 0) =~= Seq::<usize>::empty());
        assert(views(merged@).to_multiset() =~= Multiset::empty());
        assert(pages_records(old(bm), Seq::<usize>::empty()).to_multiset() =~= Multiset::empty());
    }
    while i < pids.len()
        invariant
            forall|q: int| old(bm).can_pin(q) ==> #[trigger] bm.can_pin(q),
            bm.wf(),
            bm.capacity() == old(bm).capacity(),
            bm.same_pages(old(bm)),
            same_pins_all(bm, old(bm)),
            off + 4 <= PAGE_RECORD_BYTE,
            i <= pids@.len(),
            sorted_by_key(merged@, off as int),
            views(merged@).to_multiset() == pages_records(old(bm), pids@.subrange(0, i as int)).to_multiset(),
        decreases pids@.len() - i,
    {
        let ghost b0 = *bm;
        let run = page_records(bm, pids[i])?;
        let sorted = sort_run(&run, off);
        let ghost prev = merged@;
        merged = merge_runs(&merged, &sorted, off);
        proof {
            let pid = pids@[i as int];
            let sub = pids@.subrange(0, i + 1);
            assert(sub.drop_last() =~= pids@.subrange(0, i as int));
            assert(sub.last() == pid);
            assert(b0.can_pin(pid as int));
            assert(b0.content(pid as int) == old(bm).content(pid as int));
            vstd::seq_lib::lemma_multiset_commutative(
                pages_records(old(bm), pids@.subrange(0, i as int)),
                records_from(old(bm).content(pid as int), 0),
            );
        }
        i = i + 1;
    }
    proof {
        assert(pids@.subrange(0, i as int) =~= pids@);
    }
    Ok(merged)
}

/// The keys of the records `v` at byte `off` never decrease.
pub open spec fn sorted_views(v: Seq<Seq<u8>>, off: int) -> bool {
    forall|i: int, j: int| 0 <= i < j < v.len() ==> int_at(v[i], off) <= int_at(v[j], off)
}

/// The records of a page whose added slots all hold a record are those slots, in order.
pub proof fn lemma_records_prefix(s: Seq<u8>, j: int)
    requires
        0 <= j <= num_slots(s) <= PAGE_CAPACITY,
        forall|i: int| 0 <= i < num_slots(s) ==> #[trigger] slot_live(s, i),
    ensures
        records_from(s, j) == Seq::new((num_slots(s) - j) as nat, |i: int| slot_data(s, j + i)),
    decreases PAGE_CAPACITY - j,
{
    if j < num_slots(s) {
        lemma_records_prefix(s, j + 1);
        assert(records_from(s, j) =~= Seq::new((num_slots(s) - j) as nat, |i: int| slot_data(s, j + i)));
    } else if j < PAGE_CAPACITY {
        lemma_records_empty(s, j);
    }
}

proof fn lemma_records_empty(s: Seq<u8>, j: int)
    requires
        num_slots(s) <= j,
    ensures
        records_from(s, j) == Seq::<Seq<u8>>::empty(),
    decreases PAGE_CAPACITY - j,
{
    if 0 <= j < PAGE_CAPACITY {
        lemma_records_empty(s, j + 1);
    }
}

proof fn lemma_records_from_len(s: Seq<u8>, k: int)
    requires
        0 <= k <= PAGE_CAPACITY,
    ensures
        records_from(s, k).len() <= PAGE_CAPACITY - k,
    decreases PAGE_CAPACITY - k,
{
    if k < PAGE_CAPACITY {
        lemma_records_from_len(s, k + 1);
    }
}

/// A page holds at most its capacity of records.
pub proof fn lemma_pages_records_len(bm: &BufMgr, pids: Seq<usize>)
    ensures
        pages_records(bm, pids).len() <= PAGE_CAPACITY * pids.len(),
    decreases pids.len(),
{
    if pids.len() > 0 {
        lemma_pages_records_len(bm, pids.drop_last());
        lemma_records_from_len(bm.content(pids.last() as int), 0);
    }
}

/// Pools whose pages `pids` hold the same bytes hold the same records on them.
pub proof fn lemma_pages_records_eq(a: &BufMgr, b: &BufMgr, pids: Seq<usize>)
    requires
        forall|i: int| 0 <= i < pids.len() ==> b.content(#[trigger] pids[i] as int) == a.content(pids[i] as int),
    ensures
        pages_records(b, pids) == pages_records(a, pids),
    decreases pids.len(),
{
    if pids.len() > 0 {
        let d = pids.drop_last();
        assert forall|i: int| 0 <= i < d.len() implies b.content(#[trigger] d[i] as int) == a.content(d[i] as int) by {
            assert(d[i] == pids[i]);
        }
        lemma_pages_records_eq(a, b, d);
        assert(b.content(pids.last() as int) == a.content(pids.last() as int));
    }
}

proof fn lemma_fill_step(before: Seq<u8>, after: Seq<u8>, k: int, d: Seq<u8>)
    requires
        before.len() == PAGE_BYTE,
        num_slots(before) == k,
        0 <= k < PAGE_CAPACITY,
        d.len() == PAGE_RECORD_BYTE,
        after == crate::filemgr::with_added_slot(before, d),
        forall|i: int| 0 <= i < k ==> #[trigger] slot_live(before, i),
    ensures
        forall|i: int| 0 <= i < k ==> #[trigger] slot_live(after, i) && slot_data(after, i) == slot_data(before, i),
        slot_live(after, k),
        slot_data(after, k) == d,
        num_slots(after) == k + 1,
        next_page(after) == next_page(before),
{
    lemma_with_added_slot(before, d);
    assert forall|i: int| 0 <= i < k implies #[trigger] slot_live(after, i) && slot_data(after, i) == slot_data(before, i) by {
        assert(slot_live(before, i));
    }
}

/// Empties the record page `rp` and stores in it the records `recs[start..]` that fit, in
/// slot order; returns where they end.
#[verifier::spinoff_prover]
fn fill_page(rp: &mut RecordPage, recs: &Vec<[u8; PAGE_RECORD_BYTE]>, start: usize) -> (end: usize)
    requires
        old(rp).wf(),
        start <= recs@.len(),
    ensures
        final(rp).wf(),
        end == (if start + PAGE_CAPACITY <= recs@.len() { start + PAGE_CAPACITY } else { recs@.len() as int }),
        records_from(final(rp)@, 0) == views(recs@).subrange(start as int, end as int),
        next_page(final(rp)@) == next_page(old(rp)@),
{
    let ghost s0 = rp@;
    let _ = rp.free_all();
    let ghost s1 = rp@;
    let _ = rp.set_num_slots(0);
    proof {
        let s2 = rp@;
        crate::converter::lemma_int_at_splice(s1, 540, 0i32);
        assert(s1[0] == s0[0] && s1[1] == s0[1] && s1[2] == s0[2] && s1[3] == s0[3]);
        assert(s2[0] == s0[0] && s2[1] == s0[1] && s2[2] == s0[2] && s2[3] == s0[3]);
        assert(num_slots(s2) == 0);
    }
    let mut k: usize = 0;
    let mut idx = start;
    while k < PAGE_CAPACITY && idx < recs.len()
        invariant
            rp.wf(),
            k <= PAGE_CAPACITY,
            idx == start + k,
            idx <= recs@.len(),
            num_slots(rp@) == k,
            next_page(rp@) == next_page(s0),
            forall|i: int| 0 <= i < k ==> #[trigger] slot_live(rp@, i),
            forall|i: int| 0 <= i < k ==> #[trigger] slot_data(rp@, i) == views(recs@)[start + i],
        decreases PAGE_CAPACITY - k,
    {
        let ghost before = rp@;
        let r = recs[idx];
        let _ = rp.add_slot(r);
        proof {
            lemma_fill_step(before, rp@, k as int, r@);
            assert(views(recs@)[idx as int] == r@);
            assert forall|i: int| 0 <= i < k + 1 implies #[trigger] slot_data(rp@, i) == views(recs@)[start + i] by {
                if i < k {
                    assert(slot_data(before, i) == views(recs@)[start + i]);
                }
            }
        }
        k = k + 1;
        idx = idx + 1;
    }
    proof {
        lemma_records_prefix(rp@, 0);
        assert forall|i: int| 0 <= i < k implies #[trigger] views(recs@).subrange(start as int, idx as int)[i] == slot_data(rp@, i) by {
            assert(slot_data(rp@, i) == views(recs@)[start + i]);
        }
        assert(records_from(rp@, 0) =~= views(recs@).subrange(start as int, idx as int));
    }
    idx
}

/// Sorts a relation in place by an integer field.
pub struct MergeSort {
    rel: Relation,
    key_fno: usize,
}

impl MergeSort {
    pub fn new(rel: Relation, key_fno: usize) -> (r: MergeSort)
        ensures
            r.sch() == rel.sch(),
            r.key() == key_fno,
            r.file_entry() == rel.file_entry(),
    {
        MergeSort { rel, key_fno }
    }

    /// The schema of the relation sorted.
    pub closed spec fn sch(&self) -> SchemaView {
        self.rel.sch()
    }

    /// The field sorted by.
    pub closed spec fn key(&self) -> usize {
        self.key_fno
    }

    /// The directory entry of the heap file sorted.
    pub closed spec fn file_entry(&self) -> crate::types::EntryNo {
        self.rel.file_entry()
    }

    /// The byte offset of the key field; `InvalidArg` where it is not an integer field
    /// inside the record frame.
    pub fn key_offset(&self) -> (r: Res<usize>)
        ensures
            r matches Ok(off) ==> off + 4 <= PAGE_RECORD_BYTE && field_in_frame(self.sch(), self.key() as int)
                && self.sch().types[self.key() as int] is Int && off == self.sch().offsets[self.key() as int],
            (field_in_frame(self.sch(), self.key() as int) && self.sch().types[self.key() as int] is Int) ==> r is Ok,
    {
        let schema = self.rel.get_schema();
        let is_int = match schema.get_type(self.key_fno) {
            Some(AttributeType::Int) => true,
            _ => false,
        };
        if !is_int {
            return Err(invalid_arg("the key field is not an integer field"));
        }
        let off = match schema.get_offset(self.key_fno) {
            Some(o) => *o,
            None => return Err(invalid_arg("the key field has no offset")),
        };
        if off > PAGE_RECORD_BYTE - 4 {
            return Err(invalid_arg("the key field lies outside the record frame"));
        }
        Ok(off)
    }

    /// The records of the relation in key order: each page sorted on its own, then the
    /// sorted pages merged.
    pub fn sorted_records(&self, bm: &mut BufMgr) -> (r: Res<Vec<[u8; PAGE_RECORD_BYTE]>>)
        requires
            old(bm).wf(),
        ensures
            final(bm).wf(),
            final(bm).capacity() == old(bm).capacity(),
            final(bm).same_pages(old(bm)),
            same_pins_all(final(bm), old(bm)),
            r matches Ok(v) ==> field_in_frame(self.sch(), self.key() as int) && self.sch().types[self.key() as int] is Int
                && sorted_by_key(v@, self.sch().offsets[self.key() as int])
                && views(v@).to_multiset() == pages_records(old(bm), chain(old(bm),
                    entry_head(old(bm).content(HEADER_PAGE_ID as int), self.file_entry().value as int), NUM_PAGES as nat)).to_multiset(),
    {
        let off = self.key_offset()?;
        let pids = self.rel.get_file().page_ids(bm)?;
        let ghost b0 = *bm;
        let merged = sort_pages(bm, &pids, off)?;
        proof {
            lemma_pages_records_same(old(bm), &b0, pids@);
            assert forall|q: int| crate::diskmgr::BITMAP_PAGE_ID < q < NUM_PAGES implies #[trigger] bm.content(q) == old(bm).content(q) by {
                assert(b0.content(q) == old(bm).content(q));
            }
        }
        Ok(merged)
    }

    /// Sorts the relation by the key field: its records are taken out in key order, its
    /// pages emptied, and the records stored again in that order.
    pub fn sort(&mut self, bm: &mut BufMgr) -> (r: Res<()>)
        requires
            old(bm).wf(),
        ensures
            final(bm).wf(),
            final(bm).capacity() == old(bm).capacity(),
            same_pins_all(final(bm), old(bm)),
            !(field_in_frame(old(self).sch(), old(self).key() as int) && old(self).sch().types[old(self).key() as int] is Int) ==> r is Err,
            final(bm).content(HEADER_PAGE_ID as int) == old(bm).content(HEADER_PAGE_ID as int),
            r is Ok ==> ({
                let ps = chain(old(bm), entry_head(old(bm).content(HEADER_PAGE_ID as int), old(self).file_entry().value as int),
                    NUM_PAGES as nat);
                let off = old(self).sch().offsets[old(self).key() as int];
                &&& chain(final(bm), entry_head(old(bm).content(HEADER_PAGE_ID as int), old(self).file_entry().value as int),
                    NUM_PAGES as nat) == ps
                &&& sorted_views(pages_records(final(bm), ps), off)
                &&& pages_records(final(bm), ps).to_multiset() == pages_records(old(bm), ps).to_multiset()
            }),
            ({
                let head = entry_head(old(bm).content(HEADER_PAGE_ID as int), old(self).file_entry().value as int);
                let ps = chain(old(bm), head, NUM_PAGES as nat);
                &&& field_in_frame(old(self).sch(), old(self).key() as int)
                &&& old(self).sch().types[old(self).key() as int] is Int
                &&& old(self).file_entry().value < HEADER_MAX_ENTRY
                &&& old(bm).can_pin(HEADER_PAGE_ID as int)
                &&& list_ok(old(bm), head, NUM_PAGES as nat)
                &&& forall|x: int, y: int| 0 <= x < y < ps.len() ==> ps[x] != ps[y]
            }) ==> r is Ok,
    {
        let off = self.key_offset()?;
        let pids = self.rel.get_file().page_ids(bm)?;
        let ghost ps = pids@;
        let ghost all_pin = forall|j: int| 0 <= j < ps.len() ==> old(bm).can_pin(#[trigger] ps[j] as int);
        let ghost distinct = forall|x: int, y: int| 0 <= x < y < ps.len() ==> ps[x] != ps[y];
        let ghost head_g = entry_head(old(bm).content(HEADER_PAGE_ID as int), self.file_entry().value as int);
        assert(ps == chain(old(bm), head_g, NUM_PAGES as nat));
        proof {
            let head = entry_head(old(bm).content(HEADER_PAGE_ID as int), self.file_entry().value as int);
            if list_ok(old(bm), head, NUM_PAGES as nat) {
                lemma_list_ok_chain(old(bm), head, NUM_PAGES as nat);
            }
        }
        let mut a: usize = 0;
        while a < pids.len()
            invariant
                bm.wf(),
                bm.capacity() == old(bm).capacity(),
                same_pins_all(bm, old(bm)),
                bm.same_pages(old(bm)),
                forall|q: int| old(bm).can_pin(q) ==> #[trigger] bm.can_pin(q),
                pids@ == ps,
                distinct == (forall|x: int, y: int| 0 <= x < y < ps.len() ==> ps[x] != ps[y]),
                ps == chain(old(bm), head_g, NUM_PAGES as nat),
                head_g == entry_head(old(bm).content(HEADER_PAGE_ID as int), old(self).file_entry().value as int),
                list_ok(old(bm), head_g, NUM_PAGES as nat) ==> all_pin,
                all_pin == (forall|j: int| 0 <= j < ps.len() ==> old(bm).can_pin(#[trigger] ps[j] as int)),
                a <= pids@.len(),
                forall|x: int, y: int| 0 <= x < a && x < y < pids@.len() ==> pids@[x] != pids@[y],
            decreases pids@.len() - a,
        {
            let mut b: usize = a + 1;
            while b < pids.len()
                invariant
                    bm.wf(),
                    bm.capacity() == old(bm).capacity(),
                    same_pins_all(bm, old(bm)),
                    bm.same_pages(old(bm)),
                    forall|q: int| old(bm).can_pin(q) ==> #[trigger] bm.can_pin(q),
                    pids@ == ps,
                    distinct == (forall|x: int, y: int| 0 <= x < y < ps.len() ==> ps[x] != ps[y]),
                    ps == chain(old(bm), head_g, NUM_PAGES as nat),
                    head_g == entry_head(old(bm).content(HEADER_PAGE_ID as int), old(self).file_entry().value as int),
                    list_ok(old(bm), head_g, NUM_PAGES as nat) ==> all_pin,
                    all_pin == (forall|j: int| 0 <= j < ps.len() ==> old(bm).can_pin(#[trigger] ps[j] as int)),
                    a < b <= pids@.len() || (a < pids@.len() && b == a + 1),
                    a < pids@.len(),
                    forall|x: int, y: int| 0 <= x < a && x < y < pids@.len() ==> pids@[x] != pids@[y],
                    forall|y: int| a < y < b ==> pids@[a as int] != pids@[y],
                decreases pids@.len() - b,
            {
                if pids[a] == pids[b] {
                    return Err(invalid_arg("the page list of the file repeats a page"));
                }
                b = b + 1;
            }
            a = a + 1;
        }
        let ghost b1 = *bm;
        let recs = sort_pages(bm, &pids, off)?;
        proof {
            lemma_pages_records_len(&b1, ps);
            vstd::seq_lib::to_multiset_len(views(recs@));
            vstd::seq_lib::to_multiset_len(pages_records(&b1, ps));
            assert(views(recs@).len() == recs@.len());
        }
        let ghost b2 = *bm;
        proof {
            lemma_pages_records_same(old(bm), &b1, ps);
            assert forall|j: int| 0 <= j < ps.len() implies #[trigger] b2.content(ps[j] as int) == old(bm).content(ps[j] as int) by {
                assert(b1.content(ps[j] as int) == old(bm).content(ps[j] as int));
            }
            assert(ps.subrange(0, 0) =~= Seq::<usize>::empty());
            assert(pages_records(&b2, ps.subrange(0, 0)) =~= views(recs@).subrange(0, 0));
        }
        let mut i: usize = 0;
        let mut idx: usize = 0;
        while i < pids.len()
            invariant
                bm.wf(),
                bm.capacity() == old(bm).capacity(),
                same_pins_all(bm, old(bm)),
                pids@ == ps,
                i <= ps.len(),
                idx <= recs@.len(),
                forall|x: int, y: int| 0 <= x < y < ps.len() ==> ps[x] != ps[y],
                forall|j: int| 0 <= j < ps.len() ==> FIRST_PAGE_ID <= #[trigger] ps[j] < NUM_PAGES,
                pages_records(bm, ps.subrange(0, i as int)) == views(recs@).subrange(0, idx as int),
                forall|j: int| 0 <= j < ps.len() ==> next_page(bm.content(#[trigger] ps[j] as int)) == next_page(old(bm).content(ps[j] as int)),
                forall|j: int| i <= j < ps.len() ==> bm.content(#[trigger] ps[j] as int) == old(bm).content(ps[j] as int),
                bm.content(HEADER_PAGE_ID as int) == old(bm).content(HEADER_PAGE_ID as int),
                forall|q: int| old(bm).can_pin(q) ==> #[trigger] bm.can_pin(q),
                all_pin == (forall|j: int| 0 <= j < ps.len() ==> old(bm).can_pin(#[trigger] ps[j] as int)),
                ps == chain(old(bm), head_g, NUM_PAGES as nat),
                head_g == entry_head(old(bm).content(HEADER_PAGE_ID as int), old(self).file_entry().value as int),
                list_ok(old(bm), head_g, NUM_PAGES as nat) ==> all_pin,
                idx == (if PAGE_CAPACITY * i <= recs@.len() { PAGE_CAPACITY * i } else { recs@.len() as int }),
            decreases ps.len() - i,
        {
            let pid = pids[i];
            let ghost c0 = *bm;
            let page = fetch_page(bm, pid)?;
            let mut rp = RecordPage::new(page);
            let end = fill_page(&mut rp, &recs, idx);
            let ghost c1 = *bm;
            store_page(bm, pid, rp.into_page())?;
            proof {
                assert(c1.content(pid as int) == c0.content(pid as int));
                let sub = ps.subrange(0, i + 1);
                assert(sub.drop_last() =~= ps.subrange(0, i as int));
                assert(sub.last() == pid);
                assert forall|j: int| 0 <= j < ps.subrange(0, i as int).len() implies
                    bm.content(#[trigger] ps.subrange(0, i as int)[j] as int) == c0.content(ps.subrange(0, i as int)[j] as int) by {
                    assert(ps[j] != ps[i as int]);
                    assert(c1.content(ps[j] as int) == c0.content(ps[j] as int));
                }
                lemma_pages_records_eq(&c0, bm, ps.subrange(0, i as int));
                assert(pages_records(bm, sub) =~= views(recs@).subrange(0, end as int));
                assert forall|j: int| 0 <= j < ps.len() implies next_page(bm.content(#[trigger] ps[j] as int)) == next_page(old(bm).content(ps[j] as int)) by {
                    if ps[j] != pid {
                        assert(c1.content(ps[j] as int) == c0.content(ps[j] as int));
                    }
                }
                assert forall|j: int| i + 1 <= j < ps.len() implies bm.content(#[trigger] ps[j] as int) == old(bm).content(ps[j] as int) by {
                    assert(ps[j] != ps[i as int]);
                    assert(c1.content(ps[j] as int) == c0.content(ps[j] as int));
                }
            }
            idx = end;
            i = i + 1;
        }
        if idx < recs.len() {
            return Err(invalid_arg("the records do not fit the pages of the file"));
        }
        proof {
            assert(ps.subrange(0, i as int) =~= ps);
            assert(views(recs@).subrange(0, idx as int) =~= views(recs@));
            let head = entry_head(old(bm).content(HEADER_PAGE_ID as int), self.file_entry().value as int);
            lemma_chain_eq(old(bm), bm, head, NUM_PAGES as nat);
        }
        Ok(())
    }
}

/// Sorting a sequence of records run by run and merging the runs gives the records in key
/// order, each as often as before.
pub proof fn lemma_merge_sort_invariant(a: Seq<[u8; PAGE_RECORD_BYTE]>, b: Seq<[u8; PAGE_RECORD_BYTE]>, m: Seq<[u8; PAGE_RECORD_BYTE]>, off: int)
    requires
        sorted_by_key(m, off),
        views(m).to_multiset() == views(a).to_multiset().add(views(b).to_multiset()),
    ensures
        forall|i: int, j: int| 0 <= i < j < m.len() ==> key_of(m[i], off) <= key_of(m[j], off),
        m.len() == a.len() + b.len(),
        forall|x: Seq<u8>| views(m).to_multiset().count(x) == views(a).to_multiset().count(x) + views(b).to_multiset().count(x),
{
    vstd::seq_lib::to_multiset_len(views(m));
    vstd::seq_lib::to_multiset_len(views(a));
    vstd::seq_lib::to_multiset_len(views(b));
    assert(views(a).to_multiset().add(views(b).to_multiset()).len() == views(a).to_multiset().len() + views(b).to_multiset().len());
}

} // verus!
