use vstd::prelude::*;

use crate::bufmgr::{same_pins_all, BufMgr};
use crate::diskmgr::{page_free, FIRST_PAGE_ID, HEADER_PAGE_ID, NUM_PAGES};
use crate::filemgr::hfilemgr::{create_page, fetch_page, store_page};
use crate::filemgr::{
    bit_pos, lemma_slot_reuse, page_full, slot_bit, entry_head, next_page, first_free_slot, page_has_room, lemma_with_added_slot, lemma_with_next, lemma_with_slot, num_slots, slot_data, slot_live,
    HeaderPage, RecordId, RecordPage, SlotNo, HEADER_MAX_ENTRY, PAGE_CAPACITY, PAGE_RECORD_BYTE,
};
use crate::page::{Page, PAGE_BYTE};
use crate::types::{invalid_arg, EntryNo, Error, PageId, Res};

verus! {

/// The record that `bm` holds at `rid`, where a page in use holds one there.
pub open spec fn stored(bm: &BufMgr, rid: RecordId) -> Option<Seq<u8>> {
    if FIRST_PAGE_ID <= rid.page_id && bm.allocated(rid.page_id as int) && slot_live(
        bm.content(rid.page_id as int),
        rid.slot_no.value as int,
    ) {
        Some(slot_data(bm.content(rid.page_id as int), rid.slot_no.value as int))
    } else {
        None
    }
}

/// Every record that `a` holds, but the one at `except`, `b` holds too, at the same place.
pub open spec fn records_kept(a: &BufMgr, b: &BufMgr, except: RecordId) -> bool {
    forall|rid: RecordId| rid != except && #[trigger] stored(a, rid) is Some ==> stored(b, rid) == stored(a, rid)
}

/// Pools with the same pages hold the same records.
pub proof fn lemma_same_pages_stored(a: &BufMgr, b: &BufMgr)
    requires
        b.same_pages(a),
    ensures
        forall|x: RecordId| #[trigger] stored(b, x) == stored(a, x),
{
    assert forall|x: RecordId| #[trigger] stored(b, x) == stored(a, x) by {
        if FIRST_PAGE_ID <= x.page_id < NUM_PAGES {
            assert(b.content(x.page_id as int) == a.content(x.page_id as int));
        }
        assert(b.allocated(x.page_id as int) == a.allocated(x.page_id as int));
    }
}

/// The record id no record has.
pub open spec fn no_record() -> RecordId {
    RecordId { page_id: 0, slot_no: SlotNo { value: 0 } }
}

/// Slot `k` is where a record placed on the record page `s` goes: a new slot after the added
/// ones while there is room for one, else the first free slot.
pub open spec fn placed_at(s: Seq<u8>, k: int) -> bool {
    if num_slots(s) < PAGE_CAPACITY {
        k == num_slots(s)
    } else {
        first_free_slot(s, k)
    }
}

/// Once a record is deleted from a full page, the next record placed on that page goes to
/// exactly the freed slot.
pub proof fn lemma_slot_reuse_placed(s: Seq<u8>, i: int, k: int)
    requires
        s.len() == PAGE_BYTE,
        page_full(s),
        0 <= i < PAGE_CAPACITY,
        placed_at(s.update(bit_pos(i), 0u8), k),
    ensures
        k == i,
{
    lemma_slot_reuse(s, i);
    let t = s.update(bit_pos(i), 0u8);
    if k < i {
        assert(slot_bit(t, k) == 1);
    } else if k > i {
        assert(slot_bit(t, i) != 1);
    }
}

/// A record stays readable, unchanged, across operations that keep every other record.
pub proof fn lemma_record_persists(a: &BufMgr, b: &BufMgr, rid: RecordId, other: RecordId, data: Seq<u8>)
    requires
        stored(a, rid) == Some(data),
        records_kept(a, b, other),
        other != rid,
    ensures
        stored(b, rid) == Some(data),
{
}

/// The pages of the list that starts at page `pid`, following at most `n` links and stopping
/// at a page the file does not have.
pub open spec fn chain(bm: &BufMgr, pid: int, n: nat) -> Seq<usize>
    decreases n,
{
    if n == 0 || pid < FIRST_PAGE_ID || pid >= NUM_PAGES {
        Seq::empty()
    } else {
        seq![pid as usize] + chain(bm, next_page(bm.content(pid)), (n - 1) as nat)
    }
}

/// The first page from `pid` on along the list, visiting at most `n` pages, that can take
/// another record; `None` where the list ends first.
pub open spec fn first_room(bm: &BufMgr, pid: int, n: nat) -> Option<int>
    decreases n,
{
    if n == 0 || pid < FIRST_PAGE_ID || pid >= NUM_PAGES {
        None
    } else if page_has_room(bm.content(pid)) {
        Some(pid)
    } else {
        first_room(bm, next_page(bm.content(pid)), (n - 1) as nat)
    }
}

/// Some page from `pid` on along the list, visiting at most `n` pages, can take another
/// record, and it and every page before it can be pinned.
pub open spec fn room_reachable(bm: &BufMgr, pid: int, n: nat) -> bool
    decreases n,
{
    if n == 0 || pid < FIRST_PAGE_ID {
        false
    } else {
        bm.can_pin(pid) && (page_has_room(bm.content(pid)) || room_reachable(bm, next_page(bm.content(pid)), (n - 1) as nat))
    }
}

/// Pools with the same pages, the second able to pin what the first can, agree on where a
/// record goes and on whether that page is reachable.
pub proof fn lemma_room_same(a: &BufMgr, b: &BufMgr, pid: int, n: nat)
    requires
        b.same_pages(a),
        forall|q: int| a.can_pin(q) ==> #[trigger] b.can_pin(q),
    ensures
        first_room(b, pid, n) == first_room(a, pid, n),
        room_reachable(a, pid, n) ==> room_reachable(b, pid, n),
    decreases n,
{
    if n > 0 && FIRST_PAGE_ID <= pid {
        if pid < NUM_PAGES {
            assert(b.content(pid) == a.content(pid));
            lemma_room_same(a, b, next_page(a.content(pid)), (n - 1) as nat);
        } else {
            assert(!a.can_pin(pid));
        }
    }
}

/// Every page of the list from `pid` on can be pinned, and the list ends within `n` pages.
pub open spec fn list_ok(bm: &BufMgr, pid: int, n: nat) -> bool
    decreases n,
{
    if pid < FIRST_PAGE_ID {
        true
    } else if n == 0 {
        false
    } else {
        bm.can_pin(pid) && list_ok(bm, next_page(bm.content(pid)), (n - 1) as nat)
    }
}

/// A pool with the same pages that can pin what `a` can keeps a list pinnable.
pub proof fn lemma_list_ok_mono(a: &BufMgr, b: &BufMgr, pid: int, n: nat)
    requires
        b.same_pages(a),
        forall|q: int| a.can_pin(q) ==> #[trigger] b.can_pin(q),
        list_ok(a, pid, n),
    ensures
        list_ok(b, pid, n),
    decreases n,
{
    if pid >= FIRST_PAGE_ID && n > 0 {
        assert(a.can_pin(pid));
        assert(b.content(pid) == a.content(pid));
        lemma_list_ok_mono(a, b, next_page(a.content(pid)), (n - 1) as nat);
    }
}

/// Every page of a pinnable list can be pinned.
pub proof fn lemma_list_ok_chain(a: &BufMgr, pid: int, n: nat)
    requires
        list_ok(a, pid, n),
    ensures
        forall|i: int| 0 <= i < chain(a, pid, n).len() ==> a.can_pin(#[trigger] chain(a, pid, n)[i] as int),
    decreases n,
{
    if pid >= FIRST_PAGE_ID && n > 0 {
        lemma_list_ok_chain(a, next_page(a.content(pid)), (n - 1) as nat);
        let c = chain(a, pid, n);
        let rest = chain(a, next_page(a.content(pid)), (n - 1) as nat);
        assert(c == seq![pid as usize] + rest);
        assert forall|i: int| 0 <= i < c.len() implies a.can_pin(#[trigger] c[i] as int) by {
            if i > 0 {
                assert(c[i] == rest[i - 1]);
            } else {
                assert(a.can_pin(pid));
            }
        }
    }
}

/// Pools whose pages along a list keep their links follow the same list.
pub proof fn lemma_chain_eq(a: &BufMgr, b: &BufMgr, pid: int, n: nat)
    requires
        0 <= pid <= usize::MAX,
        forall|i: int| 0 <= i < chain(a, pid, n).len() ==>
            next_page(b.content(#[trigger] chain(a, pid, n)[i] as int)) == next_page(a.content(chain(a, pid, n)[i] as int)),
    ensures
        chain(b, pid, n) == chain(a, pid, n),
    decreases n,
{
    if n > 0 && FIRST_PAGE_ID <= pid < NUM_PAGES {
        let c = chain(a, pid, n);
        let rest = chain(a, next_page(a.content(pid)), (n - 1) as nat);
        assert(c == seq![pid as usize] + rest);
        assert(c[0] == pid as usize);
        assert(next_page(b.content(pid)) == next_page(a.content(pid)));
        assert forall|i: int| 0 <= i < rest.len() implies
            next_page(b.content(#[trigger] rest[i] as int)) == next_page(a.content(rest[i] as int)) by {
            assert(c[i + 1] == rest[i]);
        }
        lemma_chain_eq(a, b, next_page(a.content(pid)), (n - 1) as nat);
    }
}

/// The pages of a list are pages of the file other than the bitmap and directory pages.
pub proof fn lemma_chain_range(a: &BufMgr, pid: int, n: nat)
    ensures
        forall|i: int| 0 <= i < chain(a, pid, n).len() ==> FIRST_PAGE_ID <= #[trigger] chain(a, pid, n)[i] < NUM_PAGES,
    decreases n,
{
    if n > 0 && FIRST_PAGE_ID <= pid < NUM_PAGES {
        lemma_chain_range(a, next_page(a.content(pid)), (n - 1) as nat);
        let c = chain(a, pid, n);
        let rest = chain(a, next_page(a.content(pid)), (n - 1) as nat);
        assert(c == seq![pid as usize] + rest);
        assert forall|i: int| 0 <= i < c.len() implies FIRST_PAGE_ID <= #[trigger] c[i] < NUM_PAGES by {
            if i > 0 {
                assert(c[i] == rest[i - 1]);
            }
        }
    }
}

/// Pools with the same pages have the same lists.
pub proof fn lemma_chain_same_pages(a: &BufMgr, b: &BufMgr, pid: int, n: nat)
    requires
        b.same_pages(a),
        0 <= pid <= usize::MAX,
    ensures
        chain(b, pid, n) == chain(a, pid, n),
{
    lemma_chain_range(a, pid, n);
    assert forall|i: int| 0 <= i < chain(a, pid, n).len() implies
        next_page(b.content(#[trigger] chain(a, pid, n)[i] as int)) == next_page(a.content(chain(a, pid, n)[i] as int)) by {
        assert(b.content(chain(a, pid, n)[i] as int) == a.content(chain(a, pid, n)[i] as int));
    }
    lemma_chain_eq(a, b, pid, n);
}

/// Where the last page of a list (one with no next page) is linked to a page `new` off the
/// list that ends the list, and no other link changes, the list is the old one with `new`
/// appended.
pub proof fn lemma_chain_append(a: &BufMgr, b: &BufMgr, pid: int, n: nat, last: int, new: int)
    requires
        0 <= pid <= usize::MAX,
        chain(a, pid, n).len() > 0,
        chain(a, pid, n).last() == last,
        next_page(a.content(last)) < FIRST_PAGE_ID,
        next_page(b.content(last)) == new,
        FIRST_PAGE_ID <= new < NUM_PAGES,
        !chain(a, pid, n).contains(new as usize),
        next_page(b.content(new)) < FIRST_PAGE_ID,
        forall|q: int| FIRST_PAGE_ID <= q < NUM_PAGES && q != last && q != new ==> #[trigger] next_page(b.content(q)) == next_page(a.content(q)),
    ensures
        chain(b, pid, n + 1) == chain(a, pid, n).push(new as usize),
    decreases n,
{
    let c = chain(a, pid, n);
    let rest = chain(a, next_page(a.content(pid)), (n - 1) as nat);
    assert(c == seq![pid as usize] + rest);
    if pid == last {
        assert(rest =~= Seq::<usize>::empty());
        assert(chain(b, new, n) =~= seq![new as usize]) by {
            assert(chain(b, next_page(b.content(new)), (n - 1) as nat) =~= Seq::<usize>::empty());
        }
        assert(chain(b, pid, n + 1) =~= c.push(new as usize));
    } else {
        assert(rest.len() > 0);
        assert(rest.last() == last);
        assert(pid != new) by {
            assert(c[0] == pid as usize);
        }
        assert(next_page(b.content(pid)) == next_page(a.content(pid)));
        assert forall|i: int| 0 <= i < rest.len() implies rest[i] != new as usize by {
            assert(c[i + 1] == rest[i]);
        }
        lemma_chain_append(a, b, next_page(a.content(pid)), (n - 1) as nat, last, new);
        assert(chain(b, pid, n + 1) =~= c.push(new as usize));
    }
}

/// After a record went to page `p`, the list from `head` is what it was and no page changed
/// state; or `p` is the first free page, now in use and appended to the list.
pub open spec fn list_after_insert(a: &BufMgr, b: &BufMgr, head: int, p: int) -> bool {
    ||| {
        &&& a.allocated(p)
        &&& chain(b, head, NUM_PAGES as nat) == chain(a, head, NUM_PAGES as nat)
        &&& forall|q: int| #[trigger] b.allocated(q) == a.allocated(q)
    }
    ||| {
        &&& FIRST_PAGE_ID <= p < NUM_PAGES
        &&& !a.allocated(p)
        &&& forall|q: int| FIRST_PAGE_ID <= q < p ==> #[trigger] a.allocated(q)
        &&& b.allocated(p)
        &&& forall|q: int| q != p ==> #[trigger] b.allocated(q) == a.allocated(q)
        &&& chain(b, head, (NUM_PAGES + 1) as nat) == chain(a, head, NUM_PAGES as nat).push(p as usize)
    }
}

/// A heap file: a list of record pages whose head is kept in a directory entry.
pub struct HeapFile {
    entry_no: EntryNo,
}

impl HeapFile {
    /// The heap file of directory entry `entry_no`.
    pub fn new(entry_no: EntryNo) -> (r: HeapFile)
        ensures
            r.entry() == entry_no,
    {
        HeapFile { entry_no }
    }

    /// The directory entry of the file.
    pub closed spec fn entry(&self) -> EntryNo {
        self.entry_no
    }

    pub fn get_entry_no(&self) -> (r: EntryNo)
        ensures
            r == self.entry(),
    {
        self.entry_no
    }

    /// The first page of the file, as the directory gives it.
    pub fn get_header_free_page_id(&self, bm: &mut BufMgr) -> (r: Res<PageId>)
        requires
            old(bm).wf(),
        ensures
            final(bm).wf(),
            final(bm).capacity() == old(bm).capacity(),
            final(bm).same_pages(old(bm)),
            same_pins_all(final(bm), old(bm)),
            r matches Ok(pid) ==> self.entry().value < HEADER_MAX_ENTRY
                && pid == entry_head(old(bm).content(HEADER_PAGE_ID as int), self.entry().value as int),
            old(bm).can_pin(HEADER_PAGE_ID as int) && self.entry().value < HEADER_MAX_ENTRY ==> r is Ok,
            r is Ok ==> forall|q: int| old(bm).can_pin(q) ==> #[trigger] final(bm).can_pin(q),
            r is Ok && old(bm).has_room() ==> final(bm).has_room(),
    {
        let page = fetch_page(bm, HEADER_PAGE_ID)?;
        let header = HeaderPage::new(page);
        header.get_head_free_page_id(self.entry_no)
    }

    /// The record at `rid`; `InvalidArg` where its slot holds none or its page is not in use.
    pub fn get_record(&self, bm: &mut BufMgr, rid: RecordId) -> (r: Res<[u8; PAGE_RECORD_BYTE]>)
        requires
            old(bm).wf(),
        ensures
            final(bm).wf(),
            final(bm).capacity() == old(bm).capacity(),
            final(bm).same_pages(old(bm)),
            same_pins_all(final(bm), old(bm)),
            r matches Ok(d) ==> stored(old(bm), rid) == Some(d@),
            old(bm).can_pin(rid.page_id as int) && FIRST_PAGE_ID <= rid.page_id ==> (r is Ok <==> stored(old(bm), rid) is Some),
            old(bm).can_pin(rid.page_id as int) && r is Err ==> r->Err_0 is InvalidArg,
    {
        if rid.page_id < FIRST_PAGE_ID {
            return Err(invalid_arg("no record page has this id"));
        }
        let page = fetch_page(bm, rid.page_id)?;
        let rp = RecordPage::new(page);
        rp.get_slot(rid.slot_no)
    }

    /// Marks the slot of `rid` free; the record can no longer be read.
    pub fn delete_record(&mut self, bm: &mut BufMgr, rid: RecordId) -> (r: Res<()>)
        requires
            old(bm).wf(),
        ensures
            final(bm).wf(),
            final(bm).capacity() == old(bm).capacity(),
            same_pins_all(final(bm), old(bm)),
            forall|q: int| #[trigger] final(bm).allocated(q) == old(bm).allocated(q),
            records_kept(old(bm), final(bm), rid),
            r is Ok ==> stored(final(bm), rid) is None && final(bm).can_pin(rid.page_id as int),
            old(bm).can_pin(rid.page_id as int) && FIRST_PAGE_ID <= rid.page_id && stored(old(bm), rid) is Some ==> r is Ok,
    {
        if rid.page_id < FIRST_PAGE_ID {
            return Err(invalid_arg("no record page has this id"));
        }
        let page = fetch_page(bm, rid.page_id)?;
        let ghost mid = *bm;
        let mut rp = RecordPage::new(page);
        let ghost s = rp@;
        rp.set_slot_bit(rid.slot_no, 0u8)?;
        proof {
            let t = rp@;
            assert(t[540] == s[540] && t[541] == s[541] && t[542] == s[542] && t[543] == s[543]);
            assert(num_slots(t) == num_slots(s));
            assert forall|k: int| #[trigger] slot_live(s, k) && k != rid.slot_no.value implies slot_live(t, k)
                && slot_data(t, k) == slot_data(s, k) by {
                assert(slot_data(t, k) =~= slot_data(s, k));
            }
        }
        store_page(bm, rid.page_id, rp.into_page())?;
        proof {
            assert forall|x: RecordId| x != rid && #[trigger] stored(old(bm), x) is Some implies stored(bm, x) == stored(old(bm), x) by {
                assert(mid.content(x.page_id as int) == old(bm).content(x.page_id as int));
            }
        }
        Ok(())
    }

    /// Stores `data` in the first page of the file with room for it, a new page at the end of
    /// the list where none has, and returns where it went.
    pub fn insert_record(&mut self, bm: &mut BufMgr, data: [u8; PAGE_RECORD_BYTE]) -> (r: Res<RecordId>)
        requires
            old(bm).wf(),
        ensures
            final(self).entry() == old(self).entry(),
            final(bm).wf(),
            final(bm).capacity() == old(bm).capacity(),
            same_pins_all(final(bm), old(bm)),
            forall|q: int| old(bm).allocated(q) ==> #[trigger] final(bm).allocated(q),
            final(bm).content(HEADER_PAGE_ID as int) == old(bm).content(HEADER_PAGE_ID as int),
            r matches Ok(rid) ==> stored(final(bm), rid) == Some(data@) && final(bm).can_pin(rid.page_id as int)
                && records_kept(old(bm), final(bm), rid) && stored(old(bm), rid) is None,
            r is Err ==> records_kept(old(bm), final(bm), no_record()),
            ({
                let head = entry_head(old(bm).content(HEADER_PAGE_ID as int), old(self).entry().value as int);
                &&& old(self).entry().value < HEADER_MAX_ENTRY
                &&& old(bm).can_pin(HEADER_PAGE_ID as int)
                &&& FIRST_PAGE_ID <= head
                &&& old(bm).can_pin(head)
                &&& page_has_room(old(bm).content(head))
            }) ==> (r matches Ok(rid) && rid.page_id == entry_head(old(bm).content(HEADER_PAGE_ID as int), old(self).entry().value as int)
                && placed_at(old(bm).content(rid.page_id as int), rid.slot_no.value as int)),
            ({
                let head = entry_head(old(bm).content(HEADER_PAGE_ID as int), old(self).entry().value as int);
                &&& r matches Ok(rid)
                &&& old(self).entry().value < HEADER_MAX_ENTRY
                &&& (first_room(old(bm), head, NUM_PAGES as nat) matches Some(p) ==> r->Ok_0.page_id == p
                    && placed_at(old(bm).content(p), r->Ok_0.slot_no.value as int))
                &&& (first_room(old(bm), head, NUM_PAGES as nat) is None ==> r->Ok_0.slot_no.value == 0
                    && !old(bm).allocated(r->Ok_0.page_id as int))
            }) || r is Err,
            ({
                let head = entry_head(old(bm).content(HEADER_PAGE_ID as int), old(self).entry().value as int);
                &&& old(self).entry().value < HEADER_MAX_ENTRY
                &&& old(bm).can_pin(HEADER_PAGE_ID as int)
                &&& room_reachable(old(bm), head, NUM_PAGES as nat)
            }) ==> r is Ok,
            ({
                let head = entry_head(old(bm).content(HEADER_PAGE_ID as int), old(self).entry().value as int);
                &&& old(self).entry().value < HEADER_MAX_ENTRY
                &&& old(bm).can_pin(HEADER_PAGE_ID as int)
                &&& FIRST_PAGE_ID <= head
                &&& list_ok(old(bm), head, NUM_PAGES as nat)
                &&& old(bm).has_room()
                &&& exists|q: int| FIRST_PAGE_ID <= q < NUM_PAGES && !old(bm).allocated(q)
            }) ==> r is Ok,
            r matches Ok(rid) ==> list_after_insert(old(bm), final(bm),
                entry_head(old(bm).content(HEADER_PAGE_ID as int), old(self).entry().value as int), rid.page_id as int),
    {
        let page_id = self.get_header_free_page_id(bm)?;
        proof {
            lemma_chain_same_pages(old(bm), bm, page_id as int, NUM_PAGES as nat);
            assert forall|q: int| #[trigger] bm.allocated(q) == old(bm).allocated(q) by {}
            if list_ok(old(bm), page_id as int, NUM_PAGES as nat) {
                lemma_list_ok_mono(old(bm), bm, page_id as int, NUM_PAGES as nat);
            }
            if exists|q: int| FIRST_PAGE_ID <= q < NUM_PAGES && !old(bm).allocated(q) {
                let q = choose|q: int| FIRST_PAGE_ID <= q < NUM_PAGES && !old(bm).allocated(q);
                assert(bm.allocated(q) == old(bm).allocated(q));
            }
            assert forall|x: RecordId| #[trigger] stored(old(bm), x) is Some implies stored(bm, x) == stored(old(bm), x) by {}
            lemma_room_same(old(bm), bm, page_id as int, NUM_PAGES as nat);
        }
        let ghost b1 = *bm;
        let r = self.insert_record_page(bm, page_id, data);
        proof {
            if r is Ok {
                let p = r->Ok_0.page_id as int;
                assert(list_after_insert(&b1, bm, page_id as int, p));
                assert(chain(&b1, page_id as int, NUM_PAGES as nat) == chain(old(bm), page_id as int, NUM_PAGES as nat));
                assert forall|q: int| #[trigger] old(bm).allocated(q) == b1.allocated(q) by {
                    assert(b1.allocated(q) == old(bm).allocated(q));
                }
                if b1.allocated(p) && chain(bm, page_id as int, NUM_PAGES as nat) == chain(&b1, page_id as int, NUM_PAGES as nat)
                    && forall|q: int| #[trigger] bm.allocated(q) == b1.allocated(q) {
                    assert(list_after_insert(old(bm), bm, page_id as int, p));
                } else {
                    assert forall|q: int| FIRST_PAGE_ID <= q < p implies #[trigger] old(bm).allocated(q) by {
                        assert(b1.allocated(q));
                    }
                    assert(list_after_insert(old(bm), bm, page_id as int, p));
                }
            }
        }
        r
    }

    fn insert_record_page(&mut self, bm: &mut BufMgr, page_id: PageId, data: [u8; PAGE_RECORD_BYTE]) -> (r: Res<RecordId>)
        requires
            old(bm).wf(),
        ensures
            final(self).entry() == old(self).entry(),
            final(bm).wf(),
            final(bm).capacity() == old(bm).capacity(),
            same_pins_all(final(bm), old(bm)),
            forall|q: int| old(bm).allocated(q) ==> #[trigger] final(bm).allocated(q),
            final(bm).content(HEADER_PAGE_ID as int) == old(bm).content(HEADER_PAGE_ID as int),
            r matches Ok(rid) ==> stored(final(bm), rid) == Some(data@) && final(bm).can_pin(rid.page_id as int)
                && records_kept(old(bm), final(bm), rid) && stored(old(bm), rid) is None,
            r is Err ==> records_kept(old(bm), final(bm), no_record()),
            FIRST_PAGE_ID <= page_id && old(bm).can_pin(page_id as int) && page_has_room(old(bm).content(page_id as int))
                ==> (r matches Ok(rid) && rid.page_id == page_id && placed_at(old(bm).content(page_id as int), rid.slot_no.value as int)),
            r matches Ok(rid) ==> match first_room(old(bm), page_id as int, NUM_PAGES as nat) {
                Some(p) => rid.page_id == p && placed_at(old(bm).content(p), rid.slot_no.value as int),
                None => rid.slot_no.value == 0 && !old(bm).allocated(rid.page_id as int),
            },
            room_reachable(old(bm), page_id as int, NUM_PAGES as nat) ==> r is Ok,
            FIRST_PAGE_ID <= page_id && list_ok(old(bm), page_id as int, NUM_PAGES as nat) && old(bm).has_room()
                && (exists|q: int| FIRST_PAGE_ID <= q < NUM_PAGES && !old(bm).allocated(q)) ==> r is Ok,
            r matches Ok(rid) ==> list_after_insert(old(bm), final(bm), page_id as int, rid.page_id as int),
    {
        if page_id < FIRST_PAGE_ID {
            return Err(Error::NoFreePage);
        }
        let mut pid = page_id;
        let mut steps: usize = 0;
        let ghost mut visited: Seq<usize> = Seq::empty();
        assert(visited + chain(old(bm), pid as int, NUM_PAGES as nat) =~= chain(old(bm), pid as int, NUM_PAGES as nat));
        while steps < NUM_PAGES
            invariant
                bm.wf(),
                bm.capacity() == old(bm).capacity(),
                same_pins_all(bm, old(bm)),
                forall|q: int| old(bm).allocated(q) ==> #[trigger] bm.allocated(q),
                bm.content(HEADER_PAGE_ID as int) == old(bm).content(HEADER_PAGE_ID as int),
                records_kept(old(bm), bm, no_record()),
                FIRST_PAGE_ID <= pid,
                steps == 0 ==> pid == page_id && *bm == *old(bm),
                FIRST_PAGE_ID <= page_id && old(bm).can_pin(page_id as int) && page_has_room(old(bm).content(page_id as int))
                    ==> steps == 0,
                steps <= NUM_PAGES,
                bm.same_pages(old(bm)),
                forall|q: int| old(bm).can_pin(q) ==> #[trigger] bm.can_pin(q),
                first_room(old(bm), page_id as int, NUM_PAGES as nat) == first_room(old(bm), pid as int, (NUM_PAGES - steps) as nat),
                room_reachable(old(bm), page_id as int, NUM_PAGES as nat) ==> room_reachable(old(bm), pid as int, (NUM_PAGES - steps) as nat),
                list_ok(old(bm), page_id as int, NUM_PAGES as nat) ==> list_ok(old(bm), pid as int, (NUM_PAGES - steps) as nat),
                old(bm).has_room() ==> bm.has_room(),
                chain(old(bm), page_id as int, NUM_PAGES as nat) == visited + chain(old(bm), pid as int, (NUM_PAGES - steps) as nat),
                forall|i: int| 0 <= i < visited.len() ==> old(bm).allocated(#[trigger] visited[i] as int),
            decreases NUM_PAGES - steps,
        {
            let ghost b0 = *bm;
            let page = fetch_page(bm, pid)?;
            let ghost b1 = *bm;
            let mut rp = RecordPage::new(page);
            let ghost s = rp@;
            let placed = rp.place_record(data)?;
            match placed {
                Some(sno) => {
                    proof {
                        assert(b0.can_pin(pid as int));
                        assert(b0.content(pid as int) == old(bm).content(pid as int));
                        if num_slots(s) >= PAGE_CAPACITY {
                            assert(first_free_slot(s, sno.value as int));
                        }
                        assert(page_has_room(s));
                        if num_slots(s) < PAGE_CAPACITY {
                            lemma_with_added_slot(s, data@);
                        } else {
                            lemma_with_slot(s, sno.value as int, data@);
                        }
                    }
                    let ghost placed_page = rp@;
                    store_page(bm, pid, rp.into_page())?;
                    let rid = RecordId::new(pid, sno);
                    proof {
                        assert(next_page(placed_page) == next_page(s));
                        lemma_chain_range(old(bm), page_id as int, NUM_PAGES as nat);
                        assert forall|i: int| 0 <= i < chain(old(bm), page_id as int, NUM_PAGES as nat).len() implies
                            next_page(bm.content(#[trigger] chain(old(bm), page_id as int, NUM_PAGES as nat)[i] as int))
                            == next_page(old(bm).content(chain(old(bm), page_id as int, NUM_PAGES as nat)[i] as int)) by {
                            let q = chain(old(bm), page_id as int, NUM_PAGES as nat)[i] as int;
                            if q != pid {
                                assert(b1.content(q) == b0.content(q));
                            }
                        }
                        lemma_chain_eq(old(bm), bm, page_id as int, NUM_PAGES as nat);
                        assert(old(bm).allocated(pid as int));
                        assert forall|q: int| #[trigger] bm.allocated(q) == old(bm).allocated(q) by {
                            assert(b1.allocated(q) == b0.allocated(q));
                        }
                        assert forall|x: RecordId| x != rid && #[trigger] stored(old(bm), x) is Some implies
                            stored(bm, x) == stored(old(bm), x) by {
                            assert(stored(&b0, x) == stored(old(bm), x));
                            assert(b1.content(x.page_id as int) == b0.content(x.page_id as int));
                        }
                    }
                    return Ok(rid);
                },
                None => {
                    assert(!page_has_room(s)) by {
                        if num_slots(s) >= PAGE_CAPACITY {
                            assert forall|k: int| !#[trigger] first_free_slot(s, k) by {}
                        }
                    }
                },
            }
            let next = rp.get_next_page_id()?;
            proof {
                assert(b0.can_pin(pid as int));
                assert(b0.content(pid as int) == old(bm).content(pid as int));
                assert(s == old(bm).content(pid as int));
                assert(next as int == next_page(s));
                assert(!page_has_room(s));
            }
            proof {
                assert(chain(old(bm), pid as int, (NUM_PAGES - steps) as nat)
                    == seq![pid] + chain(old(bm), next as int, (NUM_PAGES - steps - 1) as nat));
                assert(old(bm).allocated(pid as int));
            }
            let ghost old_pid = pid;
            if next >= FIRST_PAGE_ID {
                pid = next;
                steps = steps + 1;
                proof {
                    let v2 = visited.push(old_pid);
                    assert(v2 + chain(old(bm), pid as int, (NUM_PAGES - steps) as nat)
                        =~= visited + (seq![old_pid] + chain(old(bm), pid as int, (NUM_PAGES - steps) as nat)));
                    assert forall|i: int| 0 <= i < v2.len() implies old(bm).allocated(#[trigger] v2[i] as int) by {
                        if i < visited.len() {
                            assert(v2[i] == visited[i]);
                        }
                    }
                    visited = v2;
                    assert forall|x: RecordId| #[trigger] stored(old(bm), x) is Some implies stored(bm, x) == stored(old(bm), x) by {
                        assert(stored(&b0, x) == stored(old(bm), x));
                    }
                }
                continue;
            }
            proof {
                assert(first_room(old(bm), next as int, (NUM_PAGES - steps - 1) as nat) is None);
                assert(first_room(old(bm), pid as int, (NUM_PAGES - steps) as nat) is None);
                assert(!room_reachable(old(bm), next as int, (NUM_PAGES - steps - 1) as nat));
                assert(!room_reachable(old(bm), pid as int, (NUM_PAGES - steps) as nat));
            }
            let ghost bc = *bm;
            proof {
                if exists|q: int| FIRST_PAGE_ID <= q < NUM_PAGES && !old(bm).allocated(q) {
                    let q = choose|q: int| FIRST_PAGE_ID <= q < NUM_PAGES && !old(bm).allocated(q);
                    assert(bc.allocated(q) == old(bm).allocated(q));
                }
            }
            let new_pid = create_page(bm)?;
            let ghost b2 = *bm;
            proof {
                assert(!old(bm).allocated(new_pid as int)) by {
                    if old(bm).allocated(new_pid as int) {
                        assert(bc.allocated(new_pid as int));
                    }
                }
            }
            proof {
                lemma_with_next(s, new_pid);
            }
            rp.set_next_page_id(new_pid)?;
            let ghost linked = rp@;
            store_page(bm, pid, rp.into_page())?;
            let ghost b3 = *bm;
            let mut np = RecordPage::new(Page::new());
            np.set_prev_page_id(pid)?;
            let ghost s2 = np@;
            assert(num_slots(s2) == 0) by {
                assert(s2[540] == 0u8 && s2[541] == 0u8 && s2[542] == 0u8 && s2[543] == 0u8);
                crate::converter::lemma_int_at_zero(s2, 540);
            }
            proof {
                lemma_with_added_slot(s2, data@);
            }
            let sno = np.add_slot(data)?;
            let ghost s3 = np@;
            store_page(bm, new_pid, np.into_page())?;
            let rid = RecordId::new(new_pid, sno);
            proof {
                assert(next_page(s2) == 0) by {
                    assert(s2[0] == 0u8 && s2[1] == 0u8 && s2[2] == 0u8 && s2[3] == 0u8);
                    crate::converter::lemma_int_at_zero(s2, 0);
                }
                assert(next_page(s3) == 0);
                assert(bm.content(new_pid as int) == s3);
                assert(bm.content(pid as int) == linked);
                assert(next_page(linked) == new_pid);
                let c = chain(old(bm), page_id as int, NUM_PAGES as nat);
                assert(chain(old(bm), pid as int, (NUM_PAGES - steps) as nat) =~= seq![pid]) by {
                    assert(chain(old(bm), next as int, (NUM_PAGES - steps - 1) as nat) =~= Seq::<usize>::empty());
                }
                assert(c == visited.push(pid));
                assert(c.last() == pid);
                assert forall|i: int| 0 <= i < c.len() implies old(bm).allocated(#[trigger] c[i] as int) by {
                    if i < visited.len() {
                        assert(c[i] == visited[i]);
                    }
                }
                assert(!c.contains(new_pid as usize));
                assert forall|q: int| FIRST_PAGE_ID <= q < NUM_PAGES && q != pid && q != new_pid implies
                    #[trigger] next_page(bm.content(q)) == next_page(old(bm).content(q)) by {
                    assert(bc.content(q) == old(bm).content(q));
                    assert(b2.content(q) == bc.content(q));
                    assert(b3.content(q) == b2.content(q));
                }
                lemma_chain_append(old(bm), bm, page_id as int, NUM_PAGES as nat, pid as int, new_pid as int);
                assert forall|q: int| FIRST_PAGE_ID <= q < new_pid implies #[trigger] old(bm).allocated(q) by {
                    assert(!page_free(bc.disk(), q));
                    assert(bc.allocated(q) == old(bm).allocated(q));
                }
                assert forall|q: int| q != new_pid implies #[trigger] bm.allocated(q) == old(bm).allocated(q) by {
                    assert(bc.allocated(q) == old(bm).allocated(q));
                    assert(b2.allocated(q) == bc.allocated(q));
                }
                assert forall|x: RecordId| x != rid && #[trigger] stored(old(bm), x) is Some implies
                    stored(bm, x) == stored(old(bm), x) by {
                    assert(stored(&b0, x) == stored(old(bm), x));
                    assert(b1.content(x.page_id as int) == b0.content(x.page_id as int));
                    assert(x.page_id != new_pid);
                }
            }
            return Ok(rid);
        }
        Err(invalid_arg("the page list of the file does not end"))
    }
    /// The pages of the file, along the list from its first page.
    pub fn page_ids(&self, bm: &mut BufMgr) -> (r: Res<Vec<PageId>>)
        requires
            old(bm).wf(),
        ensures
            final(bm).wf(),
            final(bm).capacity() == old(bm).capacity(),
            final(bm).same_pages(old(bm)),
            same_pins_all(final(bm), old(bm)),
            r matches Ok(v) ==> v@.len() <= NUM_PAGES && (forall|i: int| 0 <= i < v@.len() ==> FIRST_PAGE_ID <= #[trigger] v@[i] < NUM_PAGES)
                && v@ == chain(old(bm), entry_head(old(bm).content(HEADER_PAGE_ID as int), self.entry().value as int), NUM_PAGES as nat),
            r is Ok ==> forall|q: int| old(bm).can_pin(q) ==> #[trigger] final(bm).can_pin(q),
            self.entry().value < HEADER_MAX_ENTRY && old(bm).can_pin(HEADER_PAGE_ID as int)
                && list_ok(old(bm), entry_head(old(bm).content(HEADER_PAGE_ID as int), self.entry().value as int), NUM_PAGES as nat)
                ==> r is Ok,
    {
        let mut pids: Vec<PageId> = Vec::new();
        let mut pid = self.get_header_free_page_id(bm)?;
        let ghost head = pid as int;
        assert(head == entry_head(old(bm).content(HEADER_PAGE_ID as int), self.entry().value as int));
        let mut steps: usize = 0;
        while pid >= FIRST_PAGE_ID
            invariant
                bm.wf(),
                bm.capacity() == old(bm).capacity(),
                bm.same_pages(old(bm)),
                same_pins_all(bm, old(bm)),
                pids@.len() == steps,
                steps <= NUM_PAGES,
                forall|i: int| 0 <= i < pids@.len() ==> FIRST_PAGE_ID <= #[trigger] pids@[i] < NUM_PAGES,
                chain(old(bm), head, NUM_PAGES as nat) == pids@ + chain(old(bm), pid as int, (NUM_PAGES - steps) as nat),
                forall|q: int| old(bm).can_pin(q) ==> #[trigger] bm.can_pin(q),
                list_ok(old(bm), head, NUM_PAGES as nat) ==> list_ok(old(bm), pid as int, (NUM_PAGES - steps) as nat),
                head == entry_head(old(bm).content(HEADER_PAGE_ID as int), self.entry().value as int),
            decreases NUM_PAGES - steps,
        {
            if steps >= NUM_PAGES {
                proof {
                    assert(!list_ok(old(bm), pid as int, 0));
                    assert(!list_ok(old(bm), head, NUM_PAGES as nat));
                }
                return Err(invalid_arg("the page list of the file does not end"));
            }
            let ghost prev = pids@;
            let ghost b0 = *bm;
            proof {
                if list_ok(old(bm), head, NUM_PAGES as nat) {
                    assert(list_ok(old(bm), pid as int, (NUM_PAGES - steps) as nat));
                    assert(old(bm).can_pin(pid as int));
                    assert(bm.can_pin(pid as int));
                }
            }
            let page = fetch_page(bm, pid)?;
            pids.push(pid);
            let rp = RecordPage::new(page);
            let next = rp.get_next_page_id()?;
            proof {
                assert(b0.can_pin(pid as int));
                assert(b0.content(pid as int) == old(bm).content(pid as int));
                let rest = chain(old(bm), next_page(old(bm).content(pid as int)), (NUM_PAGES - steps - 1) as nat);
                assert(chain(old(bm), pid as int, (NUM_PAGES - steps) as nat) == seq![pid] + rest);
                assert(next as int == next_page(old(bm).content(pid as int)));
                assert(pids@ + rest =~= prev + (seq![pid] + rest));
            }
            pid = next;
            steps = steps + 1;
        }
        proof {
            assert(pids@ + chain(old(bm), pid as int, (NUM_PAGES - steps) as nat) =~= pids@);
        }
        Ok(pids)
    }
}

} // verus!
