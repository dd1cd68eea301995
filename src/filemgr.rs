pub mod hfilemgr;
pub mod heap_file;
pub mod raw_file_scan;

use vstd::prelude::*;

use crate::converter::{int_at, int_bytes, splice};
use crate::page::{Page, PAGE_BYTE};
use crate::types::{invalid_arg, EntryNo, Error, PageId, Res};
use vstd::string::StringSliceAdditionalSpecFns;

verus! {

/// The size of the byte frame of every record.
pub const PAGE_RECORD_BYTE: usize = 128;

pub const PAGE_NEXT_PAGE_ID: usize = 0;
pub const PAGE_PREV_PAGE_ID: usize = 4;
pub const PAGE_RECORD_START: usize = 10;
pub const PAGE_NUM_SLOTS: usize = PAGE_BYTE - 4;
pub const PAGE_SLOT_BITS: usize = PAGE_BYTE - 5;

/// The number of slots a record page can hold: `(PAGE_BYTE - 12) / (1 + PAGE_RECORD_BYTE)`.
pub const PAGE_CAPACITY: usize = 4;

pub const HEADER_START_FILE_ENTRY: usize = 10;
/// The width of the name of a directory entry.
pub const HEADER_NAME_BYTE: usize = 20;
/// The width of a directory entry: two page ids, the name and two bytes of padding.
pub const HEADER_FILE_ENTRY_BYTE: usize = 30;
/// The number of entries of the heap-file directory.
pub const HEADER_MAX_ENTRY: usize = 10;

/// The index of a slot of a record page.
#[derive(PartialEq, Eq, Hash, Clone, Copy, Debug, Structural)]
pub struct SlotNo {
    pub value: usize,
}

impl SlotNo {
    pub fn new(value: usize) -> (r: SlotNo)
        ensures
            r.value == value,
    {
        SlotNo { value }
    }
}

/// The place of a record: its page and its slot there.
#[derive(PartialEq, Eq, Hash, Clone, Copy, Debug, Structural)]
pub struct RecordId {
    pub page_id: PageId,
    pub slot_no: SlotNo,
}

impl RecordId {
    pub fn new(page_id: PageId, slot_no: SlotNo) -> (r: RecordId)
        ensures
            r.page_id == page_id,
            r.slot_no == slot_no,
    {
        RecordId { page_id, slot_no }
    }
}

/// A page id stored as a 32-bit integer at `off`; a negative one reads as no page.
pub open spec fn page_id_at(s: Seq<u8>, off: int) -> int {
    let v = int_at(s, off);
    if v < 0 {
        0
    } else {
        v as int
    }
}

/// The bytes that store the page id `pid`.
pub open spec fn page_id_bytes(pid: usize) -> Seq<u8> {
    int_bytes(pid as i32)
}

// ----- record pages -----

/// The number of slots ever added to the record page `s`.
pub open spec fn num_slots(s: Seq<u8>) -> int {
    page_id_at(s, PAGE_NUM_SLOTS as int)
}

/// The next page of the list that the record page `s` belongs to; `0` at its end.
pub open spec fn next_page(s: Seq<u8>) -> int {
    page_id_at(s, PAGE_NEXT_PAGE_ID as int)
}

/// The previous page of the list that the record page `s` belongs to.
pub open spec fn prev_page(s: Seq<u8>) -> int {
    page_id_at(s, PAGE_PREV_PAGE_ID as int)
}

/// Where the occupancy byte of slot `i` lies.
pub open spec fn bit_pos(i: int) -> int {
    PAGE_SLOT_BITS - i
}

/// Where the body of slot `i` starts.
pub open spec fn slot_pos(i: int) -> int {
    PAGE_RECORD_START + i * PAGE_RECORD_BYTE
}

/// The occupancy byte of slot `i`.
pub open spec fn slot_bit(s: Seq<u8>, i: int) -> u8 {
    s[bit_pos(i)]
}

/// The body of slot `i`.
pub open spec fn slot_data(s: Seq<u8>, i: int) -> Seq<u8> {
    s.subrange(slot_pos(i), slot_pos(i) + PAGE_RECORD_BYTE)
}

/// Slot `i` has been added to the page and fits in it.
pub open spec fn slot_ok(s: Seq<u8>, i: int) -> bool {
    0 <= i < num_slots(s) && i < PAGE_CAPACITY
}

/// Slot `i` holds a record.
pub open spec fn slot_live(s: Seq<u8>, i: int) -> bool {
    slot_ok(s, i) && slot_bit(s, i) == 1
}

/// The page `s` with the body of slot `i` replaced by `d`.
pub open spec fn with_slot_data(s: Seq<u8>, i: int, d: Seq<u8>) -> Seq<u8> {
    splice(s, slot_pos(i), d)
}

/// The page `s` with slot `i` holding `d`, marked as occupied.
pub open spec fn with_slot(s: Seq<u8>, i: int, d: Seq<u8>) -> Seq<u8> {
    with_slot_data(s, i, d).update(bit_pos(i), 1u8)
}

/// The page `s` with `d` added in a new slot.
pub open spec fn with_added_slot(s: Seq<u8>, d: Seq<u8>) -> Seq<u8> {
    with_slot(splice(s, PAGE_NUM_SLOTS as int, int_bytes((num_slots(s) + 1) as i32)), num_slots(s), d)
}

/// The first slot of `s` that is added and free, where the page has one.
pub open spec fn first_free_slot(s: Seq<u8>, i: int) -> bool {
    &&& slot_ok(s, i)
    &&& slot_bit(s, i) != 1
    &&& forall|j: int| 0 <= j < i ==> slot_bit(s, j) == 1
}

/// The record page `s` can take another record.
pub open spec fn page_has_room(s: Seq<u8>) -> bool {
    num_slots(s) < PAGE_CAPACITY || exists|k: int| #[trigger] first_free_slot(s, k)
}

/// Every added slot of `s` holds a record.
pub open spec fn page_full(s: Seq<u8>) -> bool {
    &&& num_slots(s) >= PAGE_CAPACITY
    &&& forall|j: int| 0 <= j < PAGE_CAPACITY ==> slot_bit(s, j) == 1
}

/// The slot capacity is what the page layout leaves room for, and the regions of a record
/// page do not overlap.
pub proof fn lemma_layout()
    ensures
        PAGE_CAPACITY == (PAGE_BYTE - 12) / (1 + PAGE_RECORD_BYTE),
        slot_pos(PAGE_CAPACITY as int) < bit_pos(PAGE_CAPACITY - 1),
        bit_pos(0) < PAGE_NUM_SLOTS,
        PAGE_PREV_PAGE_ID + 4 <= PAGE_RECORD_START,
{
    assert((544int - 12) / (1 + 128int) == 4) by (nonlinear_arith);
}

/// A page read as a record page: a list link and slots of records.
pub struct RecordPage {
    page: Page,
}

impl View for RecordPage {
    type V = Seq<u8>;

    closed spec fn view(&self) -> Seq<u8> {
        self.page@
    }
}

impl RecordPage {
    /// The page has the page size.
    pub open spec fn wf(&self) -> bool {
        self@.len() == PAGE_BYTE
    }

    /// `page` read as a record page.
    pub fn new(page: Page) -> (r: RecordPage)
        requires
            page.wf(),
        ensures
            r@ == page@,
            r.wf(),
    {
        RecordPage { page }
    }

    /// The page underneath.
    pub fn into_page(self) -> (r: Page)
        requires
            self.wf(),
        ensures
            r@ == self@,
            r.wf(),
    {
        self.page
    }

    fn read_page_id(&self, off: usize) -> (r: usize)
        requires
            self.wf(),
            off + 4 <= PAGE_BYTE,
        ensures
            r == page_id_at(self@, off as int),
    {
        let v = self.page.get_int_value(off).unwrap();
        if v < 0 {
            0
        } else {
            v as usize
        }
    }

    fn write_page_id(&mut self, off: usize, pid: usize)
        requires
            old(self).wf(),
            off + 4 <= PAGE_BYTE,
        ensures
            final(self).wf(),
            final(self)@ == splice(old(self)@, off as int, page_id_bytes(pid)),
    {
        let _ = self.page.set_int_value(off, #[verifier::truncate] (pid as i32));
    }

    /// Stores the number of added slots.
    pub fn set_num_slots(&mut self, num_slots: usize) -> (r: Res<()>)
        requires
            old(self).wf(),
        ensures
            final(self).wf(),
            r is Ok,
            final(self)@ == splice(old(self)@, PAGE_NUM_SLOTS as int, page_id_bytes(num_slots)),
    {
        self.write_page_id(PAGE_NUM_SLOTS, num_slots);
        Ok(())
    }

    /// The number of added slots.
    pub fn get_num_slots(&self) -> (r: Res<usize>)
        requires
            self.wf(),
        ensures
            r == Ok::<usize, Error>(num_slots(self@) as usize),
    {
        Ok(self.read_page_id(PAGE_NUM_SLOTS))
    }

    /// Stores the next page of the list.
    pub fn set_next_page_id(&mut self, page_id: PageId) -> (r: Res<()>)
        requires
            old(self).wf(),
        ensures
            final(self).wf(),
            r is Ok,
            final(self)@ == splice(old(self)@, PAGE_NEXT_PAGE_ID as int, page_id_bytes(page_id)),
    {
        self.write_page_id(PAGE_NEXT_PAGE_ID, page_id);
        Ok(())
    }

    /// The next page of the list; `0` at its end.
    pub fn get_next_page_id(&self) -> (r: Res<PageId>)
        requires
            self.wf(),
        ensures
            r == Ok::<usize, Error>(next_page(self@) as usize),
    {
        Ok(self.read_page_id(PAGE_NEXT_PAGE_ID))
    }

    /// Stores the previous page of the list.
    pub fn set_prev_page_id(&mut self, page_id: PageId) -> (r: Res<()>)
        requires
            old(self).wf(),
        ensures
            final(self).wf(),
            r is Ok,
            final(self)@ == splice(old(self)@, PAGE_PREV_PAGE_ID as int, page_id_bytes(page_id)),
    {
        self.write_page_id(PAGE_PREV_PAGE_ID, page_id);
        Ok(())
    }

    /// The number of slots a record page can hold.
    pub fn capasity(&self) -> (r: usize)
        ensures
            r == PAGE_CAPACITY,
    {
        PAGE_CAPACITY
    }

    fn check_slot_no(&self, slot_no: SlotNo) -> (r: Res<()>)
        requires
            self.wf(),
        ensures
            slot_ok(self@, slot_no.value as int) <==> r is Ok,
            r matches Err(e) ==> e is InvalidArg,
    {
        let n = self.read_page_id(PAGE_NUM_SLOTS);
        if slot_no.value >= n || slot_no.value >= PAGE_CAPACITY {
            return Err(invalid_arg("the slot has not been added to the page"));
        }
        Ok(())
    }

    /// Sets the occupancy byte of slot `slot_no` to `bit`.
    pub fn set_slot_bit(&mut self, slot_no: SlotNo, bit: u8) -> (r: Res<()>)
        requires
            old(self).wf(),
        ensures
            final(self).wf(),
            slot_ok(old(self)@, slot_no.value as int) ==> r is Ok
                && final(self)@ == old(self)@.update(bit_pos(slot_no.value as int), bit),
            !slot_ok(old(self)@, slot_no.value as int) ==> r is Err && r->Err_0 is InvalidArg
                && final(self)@ == old(self)@,
    {
        self.check_slot_no(slot_no)?;
        let _ = self.page.set_byte_value(PAGE_SLOT_BITS - slot_no.value, bit);
        Ok(())
    }

    fn get_slot_bit(&self, slot_no: SlotNo) -> (r: Res<u8>)
        requires
            self.wf(),
        ensures
            slot_ok(self@, slot_no.value as int) ==> r == Ok::<u8, Error>(slot_bit(self@, slot_no.value as int)),
            !slot_ok(self@, slot_no.value as int) ==> r is Err && r->Err_0 is InvalidArg,
    {
        self.check_slot_no(slot_no)?;
        self.page.get_byte_value(PAGE_SLOT_BITS - slot_no.value)
    }

    /// Whether slot `slot_no` holds no record.
    pub fn is_free_slot(&self, slot_no: SlotNo) -> (r: Res<bool>)
        requires
            self.wf(),
        ensures
            slot_ok(self@, slot_no.value as int) ==> r == Ok::<bool, Error>(slot_bit(self@, slot_no.value as int) != 1),
            !slot_ok(self@, slot_no.value as int) ==> r is Err && r->Err_0 is InvalidArg,
    {
        let bit = self.get_slot_bit(slot_no)?;
        Ok(bit != 1)
    }

    fn write_slot_data(&mut self, slot_no: SlotNo, data: &[u8; PAGE_RECORD_BYTE])
        requires
            old(self).wf(),
            slot_no.value < PAGE_CAPACITY,
        ensures
            final(self).wf(),
            final(self)@ == with_slot_data(old(self)@, slot_no.value as int, data@),
    {
        let pos = PAGE_RECORD_START + PAGE_RECORD_BYTE * slot_no.value;
        let mut i: usize = 0;
        while i < PAGE_RECORD_BYTE
            invariant
                i <= PAGE_RECORD_BYTE,
                pos == slot_pos(slot_no.value as int),
                pos + PAGE_RECORD_BYTE <= PAGE_BYTE,
                self.wf(),
                self@ == splice(old(self)@, pos as int, data@.subrange(0, i as int)),
            decreases PAGE_RECORD_BYTE - i,
        {
            let _ = self.page.set_byte_value(pos + i, data[i]);
            i = i + 1;
            assert(self@ =~= splice(old(self)@, pos as int, data@.subrange(0, i as int)));
        }
        assert(data@.subrange(0, PAGE_RECORD_BYTE as int) =~= data@);
    }

    fn read_slot_data(&self, slot_no: SlotNo) -> (r: [u8; PAGE_RECORD_BYTE])
        requires
            self.wf(),
            slot_no.value < PAGE_CAPACITY,
        ensures
            r@ == slot_data(self@, slot_no.value as int),
    {
        let pos = PAGE_RECORD_START + PAGE_RECORD_BYTE * slot_no.value;
        let mut data = [0u8; PAGE_RECORD_BYTE];
        let mut i: usize = 0;
        while i < PAGE_RECORD_BYTE
            invariant
                i <= PAGE_RECORD_BYTE,
                pos == slot_pos(slot_no.value as int),
                pos + PAGE_RECORD_BYTE <= PAGE_BYTE,
                self.wf(),
                data@.len() == PAGE_RECORD_BYTE,
                forall|k: int| 0 <= k < i ==> data@[k] == self@[pos + k],
            decreases PAGE_RECORD_BYTE - i,
        {
            data[i] = self.page.get_byte_value(pos + i).unwrap();
            i = i + 1;
        }
        assert(data@ =~= slot_data(self@, slot_no.value as int));
        data
    }

    /// Stores `data` in slot `slot_no` and marks it occupied.
    pub fn set_slot(&mut self, slot_no: SlotNo, data: [u8; PAGE_RECORD_BYTE]) -> (r: Res<()>)
        requires
            old(self).wf(),
        ensures
            final(self).wf(),
            slot_ok(old(self)@, slot_no.value as int) ==> r is Ok
                && final(self)@ == with_slot(old(self)@, slot_no.value as int, data@),
            !slot_ok(old(self)@, slot_no.value as int) ==> r is Err && r->Err_0 is InvalidArg
                && final(self)@ == old(self)@,
    {
        self.check_slot_no(slot_no)?;
        self.write_slot_data(slot_no, &data);
        let _ = self.page.set_byte_value(PAGE_SLOT_BITS - slot_no.value, 1u8);
        Ok(())
    }

    /// Stores `data` in a new slot after the added ones; `InvalidArg` where the page has
    /// no room for one.
    pub fn add_slot(&mut self, data: [u8; PAGE_RECORD_BYTE]) -> (r: Res<SlotNo>)
        requires
            old(self).wf(),
        ensures
            final(self).wf(),
            num_slots(old(self)@) < PAGE_CAPACITY ==> r == Ok::<SlotNo, Error>(SlotNo { value: num_slots(old(self)@) as usize })
                && final(self)@ == with_added_slot(old(self)@, data@),
            num_slots(old(self)@) >= PAGE_CAPACITY ==> r is Err && r->Err_0 is InvalidArg
                && final(self)@ == old(self)@,
    {
        let n = self.read_page_id(PAGE_NUM_SLOTS);
        if n >= PAGE_CAPACITY {
            return Err(invalid_arg("the page has no room for another slot"));
        }
        let slot_no = SlotNo::new(n);
        let ghost s0 = self@;
        self.write_page_id(PAGE_NUM_SLOTS, n + 1);
        proof {
            crate::converter::lemma_int_at_splice(s0, PAGE_NUM_SLOTS as int, (n + 1) as i32);
        }
        self.write_slot_data(slot_no, &data);
        let _ = self.page.set_byte_value(PAGE_SLOT_BITS - n, 1u8);
        Ok(slot_no)
    }

    /// The record in slot `slot_no`; `InvalidArg` where the slot holds none.
    pub fn get_slot(&self, slot_no: SlotNo) -> (r: Res<[u8; PAGE_RECORD_BYTE]>)
        requires
            self.wf(),
        ensures
            slot_live(self@, slot_no.value as int) ==> (r matches Ok(d) && d@ == slot_data(self@, slot_no.value as int)),
            !slot_live(self@, slot_no.value as int) ==> r is Err && r->Err_0 is InvalidArg,
    {
        if self.is_free_slot(slot_no)? {
            return Err(invalid_arg("the slot is free"));
        }
        Ok(self.read_slot_data(slot_no))
    }

    /// Exchanges the bodies and occupancy bytes of slots `i` and `j`.
    pub fn swap_slot(&mut self, i: SlotNo, j: SlotNo) -> (r: Res<()>)
        requires
            old(self).wf(),
        ensures
            final(self).wf(),
            slot_ok(old(self)@, i.value as int) && slot_ok(old(self)@, j.value as int) ==> r is Ok
                && slot_data(final(self)@, i.value as int) == slot_data(old(self)@, j.value as int)
                && slot_data(final(self)@, j.value as int) == slot_data(old(self)@, i.value as int)
                && slot_bit(final(self)@, i.value as int) == slot_bit(old(self)@, j.value as int)
                && slot_bit(final(self)@, j.value as int) == slot_bit(old(self)@, i.value as int)
                && num_slots(final(self)@) == num_slots(old(self)@)
                && next_page(final(self)@) == next_page(old(self)@)
                && (forall|k: int| 0 <= k < PAGE_CAPACITY && k != i.value && k != j.value ==>
                    slot_data(final(self)@, k) == slot_data(old(self)@, k)
                    && slot_bit(final(self)@, k) == slot_bit(old(self)@, k)),
            !(slot_ok(old(self)@, i.value as int) && slot_ok(old(self)@, j.value as int)) ==> r is Err
                && r->Err_0 is InvalidArg && final(self)@ == old(self)@,
    {
        self.check_slot_no(i)?;
        self.check_slot_no(j)?;
        let ghost s0 = self@;
        let bit_i = self.page.get_byte_value(PAGE_SLOT_BITS - i.value).unwrap();
        let bit_j = self.page.get_byte_value(PAGE_SLOT_BITS - j.value).unwrap();
        let data_i = self.read_slot_data(i);
        let data_j = self.read_slot_data(j);
        self.write_slot_data(i, &data_j);
        self.write_slot_data(j, &data_i);
        let _ = self.page.set_byte_value(PAGE_SLOT_BITS - i.value, bit_j);
        let _ = self.page.set_byte_value(PAGE_SLOT_BITS - j.value, bit_i);
        proof {
            let s = self@;
            assert(slot_data(s, i.value as int) =~= slot_data(s0, j.value as int));
            assert(slot_data(s, j.value as int) =~= slot_data(s0, i.value as int));
            assert forall|k: int| 0 <= k < PAGE_CAPACITY && k != i.value && k != j.value implies
                slot_data(s, k) == slot_data(s0, k) by {
                assert(slot_data(s, k) =~= slot_data(s0, k));
            }
            assert(s.subrange(0, 4) =~= s0.subrange(0, 4));
            assert(s[0] == s0[0] && s[1] == s0[1] && s[2] == s0[2] && s[3] == s0[3]);
            assert(s[540] == s0[540] && s[541] == s0[541] && s[542] == s0[542] && s[543] == s0[543]);
        }
        Ok(())
    }

    /// Marks every slot the page can hold as free.
    pub fn free_all(&mut self) -> (r: Res<()>)
        requires
            old(self).wf(),
        ensures
            final(self).wf(),
            r is Ok,
            final(self)@ == Seq::new(PAGE_BYTE as nat, |k: int|
                if bit_pos(PAGE_CAPACITY - 1) <= k <= bit_pos(0) { 0u8 } else { old(self)@[k] }),
    {
        let mut i: usize = 0;
        while i < PAGE_CAPACITY
            invariant
                i <= PAGE_CAPACITY,
                self.wf(),
                self@ == Seq::new(PAGE_BYTE as nat, |k: int|
                    if bit_pos(i - 1) <= k <= bit_pos(0) { 0u8 } else { old(self)@[k] }),
            decreases PAGE_CAPACITY - i,
        {
            let _ = self.page.set_byte_value(PAGE_SLOT_BITS - i, 0u8);
            i = i + 1;
            assert(self@ =~= Seq::new(PAGE_BYTE as nat, |k: int|
                if bit_pos(i - 1) <= k <= bit_pos(0) { 0u8 } else { old(self)@[k] }));
        }
        Ok(())
    }
    /// Stores `data` where the page has room: in a new slot while fewer than the capacity have
    /// been added, else in the first free slot; `None` where the page is full.
    pub fn place_record(&mut self, data: [u8; PAGE_RECORD_BYTE]) -> (r: Res<Option<SlotNo>>)
        requires
            old(self).wf(),
        ensures
            final(self).wf(),
            r is Ok,
            num_slots(old(self)@) < PAGE_CAPACITY ==> r == Ok::<Option<SlotNo>, Error>(Some(SlotNo { value: num_slots(old(self)@) as usize }))
                && final(self)@ == with_added_slot(old(self)@, data@),
            num_slots(old(self)@) >= PAGE_CAPACITY ==> match r {
                Ok(Some(sno)) => first_free_slot(old(self)@, sno.value as int)
                    && final(self)@ == with_slot(old(self)@, sno.value as int, data@),
                _ => page_full(old(self)@) && final(self)@ == old(self)@,
            },
    {
        let n = self.read_page_id(PAGE_NUM_SLOTS);
        if n < PAGE_CAPACITY {
            let sno = self.add_slot(data)?;
            return Ok(Some(sno));
        }
        let mut i: usize = 0;
        while i < PAGE_CAPACITY
            invariant
                i <= PAGE_CAPACITY,
                self.wf(),
                self@ == old(self)@,
                num_slots(self@) >= PAGE_CAPACITY,
                forall|j: int| 0 <= j < i ==> slot_bit(self@, j) == 1,
            decreases PAGE_CAPACITY - i,
        {
            let slot_no = SlotNo::new(i);
            if self.is_free_slot(slot_no)? {
                self.set_slot(slot_no, data)?;
                return Ok(Some(slot_no));
            }
            i = i + 1;
        }
        Ok(None)
    }
}

/// Deleting a record from a full page leaves its slot as the first free one, where the next
/// record placed on the page goes; no other slot changes.
pub proof fn lemma_slot_reuse(s: Seq<u8>, i: int)
    requires
        s.len() == PAGE_BYTE,
        page_full(s),
        0 <= i < PAGE_CAPACITY,
    ensures
        first_free_slot(s.update(bit_pos(i), 0u8), i),
        num_slots(s.update(bit_pos(i), 0u8)) == num_slots(s),
        forall|j: int| 0 <= j < PAGE_CAPACITY && j != i ==> slot_bit(s.update(bit_pos(i), 0u8), j) == slot_bit(s, j),
{
    let t = s.update(bit_pos(i), 0u8);
    assert(t[540] == s[540] && t[541] == s[541] && t[542] == s[542] && t[543] == s[543]);
    assert(num_slots(t) == num_slots(s));
    assert forall|j: int| 0 <= j < i implies slot_bit(t, j) == 1 by {
        assert(slot_bit(s, j) == 1);
    }
}

// ----- the directory page -----

/// Where directory entry `e` starts.
pub open spec fn entry_pos(e: int) -> int {
    HEADER_START_FILE_ENTRY + e * HEADER_FILE_ENTRY_BYTE
}

/// The first page of the heap file of entry `e`; `0` where the entry is empty.
pub open spec fn entry_head(s: Seq<u8>, e: int) -> int {
    page_id_at(s, entry_pos(e))
}

/// The name bytes of entry `e`.
pub open spec fn entry_name(s: Seq<u8>, e: int) -> Seq<u8> {
    s.subrange(entry_pos(e) + 8, entry_pos(e) + 8 + HEADER_NAME_BYTE)
}

/// Entry `e` is in use and its name starts with `name`.
pub open spec fn entry_matches(s: Seq<u8>, e: int, name: Seq<u8>) -> bool {
    &&& name.len() <= HEADER_NAME_BYTE
    &&& entry_name(s, e).subrange(0, name.len() as int) == name
    &&& entry_head(s, e) > 0
}

/// A page read as the directory of heap files.
pub struct HeaderPage {
    page: Page,
}

impl View for HeaderPage {
    type V = Seq<u8>;

    closed spec fn view(&self) -> Seq<u8> {
        self.page@
    }
}

impl HeaderPage {
    /// The page has the page size.
    pub open spec fn wf(&self) -> bool {
        self@.len() == PAGE_BYTE
    }

    /// `page` read as the directory.
    pub fn new(page: Page) -> (r: HeaderPage)
        requires
            page.wf(),
        ensures
            r@ == page@,
            r.wf(),
    {
        HeaderPage { page }
    }

    /// The page underneath.
    pub fn into_page(self) -> (r: Page)
        requires
            self.wf(),
        ensures
            r@ == self@,
            r.wf(),
    {
        self.page
    }

    /// The lowest empty entry; `InvalidArg` where every entry is in use.
    pub fn new_entry(&self) -> (r: Res<EntryNo>)
        requires
            self.wf(),
        ensures
            r matches Ok(e) ==> e.value < HEADER_MAX_ENTRY && entry_head(self@, e.value as int) == 0
                && forall|j: int| 0 <= j < e.value ==> entry_head(self@, j) != 0,
            r is Err ==> r->Err_0 is InvalidArg && forall|j: int| 0 <= j < HEADER_MAX_ENTRY ==> entry_head(self@, j) != 0,
    {
        let mut eno: usize = 0;
        while eno < HEADER_MAX_ENTRY
            invariant
                eno <= HEADER_MAX_ENTRY,
                self.wf(),
                forall|j: int| 0 <= j < eno ==> entry_head(self@, j) != 0,
            decreases HEADER_MAX_ENTRY - eno,
        {
            let page_id = self.get_head_free_page_id(EntryNo::new(eno))?;
            if page_id == 0 {
                return Ok(EntryNo::new(eno));
            }
            eno = eno + 1;
        }
        Err(invalid_arg("the directory has no empty entry"))
    }

    /// Stores the first page of the heap file of entry `entry_no`.
    pub fn set_head_free_page_id(&mut self, entry_no: EntryNo, page_id: PageId) -> (r: Res<()>)
        requires
            old(self).wf(),
        ensures
            final(self).wf(),
            entry_no.value < HEADER_MAX_ENTRY ==> r is Ok
                && final(self)@ == splice(old(self)@, entry_pos(entry_no.value as int), page_id_bytes(page_id)),
            entry_no.value >= HEADER_MAX_ENTRY ==> r is Err && r->Err_0 is InvalidArg && final(self)@ == old(self)@,
    {
        if entry_no.value >= HEADER_MAX_ENTRY {
            return Err(invalid_arg("no such directory entry"));
        }
        let pos = HEADER_START_FILE_ENTRY + entry_no.value * HEADER_FILE_ENTRY_BYTE;
        let _ = self.page.set_int_value(pos, #[verifier::truncate] (page_id as i32));
        Ok(())
    }

    /// The first page of the heap file of entry `entry_no`.
    pub fn get_head_free_page_id(&self, entry_no: EntryNo) -> (r: Res<PageId>)
        requires
            self.wf(),
        ensures
            entry_no.value < HEADER_MAX_ENTRY ==> r == Ok::<usize, Error>(entry_head(self@, entry_no.value as int) as usize),
            entry_no.value >= HEADER_MAX_ENTRY ==> r is Err && r->Err_0 is InvalidArg,
    {
        if entry_no.value >= HEADER_MAX_ENTRY {
            return Err(invalid_arg("no such directory entry"));
        }
        let pos = HEADER_START_FILE_ENTRY + entry_no.value * HEADER_FILE_ENTRY_BYTE;
        let v = self.page.get_int_value(pos).unwrap();
        Ok(if v < 0 { 0 } else { v as usize })
    }

    /// Stores the second, unused, page id of entry `entry_no`.
    pub fn set_head_full_page_id(&mut self, entry_no: EntryNo, page_id: PageId) -> (r: Res<()>)
        requires
            old(self).wf(),
        ensures
            final(self).wf(),
            entry_no.value < HEADER_MAX_ENTRY ==> r is Ok
                && final(self)@ == splice(old(self)@, entry_pos(entry_no.value as int) + 4, page_id_bytes(page_id)),
            entry_no.value >= HEADER_MAX_ENTRY ==> r is Err && r->Err_0 is InvalidArg && final(self)@ == old(self)@,
    {
        if entry_no.value >= HEADER_MAX_ENTRY {
            return Err(invalid_arg("no such directory entry"));
        }
        let pos = HEADER_START_FILE_ENTRY + entry_no.value * HEADER_FILE_ENTRY_BYTE + 4;
        let _ = self.page.set_int_value(pos, #[verifier::truncate] (page_id as i32));
        Ok(())
    }

    /// Copies the bytes of `name` to the name of entry `entry_no`; `InvalidArg` where the name
    /// is longer than the name width.
    pub fn set_name(&mut self, entry_no: EntryNo, name: &str) -> (r: Res<()>)
        requires
            old(self).wf(),
        ensures
            final(self).wf(),
            entry_no.value < HEADER_MAX_ENTRY && name.spec_bytes().len() <= HEADER_NAME_BYTE ==> r is Ok
                && final(self)@ == splice(old(self)@, entry_pos(entry_no.value as int) + 8, name.spec_bytes()),
            !(entry_no.value < HEADER_MAX_ENTRY && name.spec_bytes().len() <= HEADER_NAME_BYTE) ==> r is Err
                && r->Err_0 is InvalidArg && final(self)@ == old(self)@,
    {
        if entry_no.value >= HEADER_MAX_ENTRY || name.as_bytes().len() > HEADER_NAME_BYTE {
            return Err(invalid_arg("the name does not fit the directory entry"));
        }
        let pos = HEADER_START_FILE_ENTRY + entry_no.value * HEADER_FILE_ENTRY_BYTE + 8;
        let _ = self.page.set_varchar_value(pos, name);
        Ok(())
    }

    /// The name bytes of entry `entry_no` as a string; `None` where they are not UTF-8.
    pub fn get_name(&self, entry_no: EntryNo) -> (r: Res<Option<String>>)
        requires
            self.wf(),
        ensures
            entry_no.value >= HEADER_MAX_ENTRY ==> r is Err && r->Err_0 is InvalidArg,
            entry_no.value < HEADER_MAX_ENTRY ==> r is Ok,
            r matches Ok(Some(n)) ==> vstd::utf8::encode_utf8(n@) == entry_name(self@, entry_no.value as int),
    {
        if entry_no.value >= HEADER_MAX_ENTRY {
            return Err(invalid_arg("no such directory entry"));
        }
        let pos = HEADER_START_FILE_ENTRY + entry_no.value * HEADER_FILE_ENTRY_BYTE + 8;
        match self.page.get_varchar_value(pos, HEADER_NAME_BYTE) {
            Ok(s) => Ok(Some(s)),
            Err(_) => Ok(None),
        }
    }

    /// The first entry in use whose name starts with `name`; `InvalidArg` where `name` is
    /// longer than the name width.
    pub fn find(&self, name: &str) -> (r: Res<Option<EntryNo>>)
        requires
            self.wf(),
        ensures
            name.spec_bytes().len() > HEADER_NAME_BYTE ==> r is Err && r->Err_0 is InvalidArg,
            name.spec_bytes().len() <= HEADER_NAME_BYTE ==> match r {
                Ok(Some(e)) => e.value < HEADER_MAX_ENTRY && entry_matches(self@, e.value as int, name.spec_bytes())
                    && forall|j: int| 0 <= j < e.value ==> !entry_matches(self@, j, name.spec_bytes()),
                Ok(None) => forall|j: int| 0 <= j < HEADER_MAX_ENTRY ==> !entry_matches(self@, j, name.spec_bytes()),
                Err(_) => false,
            },
    {
        let bytes = name.as_bytes();
        let n = bytes.len();
        if n > HEADER_NAME_BYTE {
            return Err(invalid_arg("the name is longer than a directory entry name"));
        }
        let data = self.page.get_data();
        let mut eno: usize = 0;
        while eno < HEADER_MAX_ENTRY
            invariant
                eno <= HEADER_MAX_ENTRY,
                self.wf(),
                data@ == self@,
                bytes@ == name.spec_bytes(),
                n == bytes@.len(),
                n <= HEADER_NAME_BYTE,
                forall|j: int| 0 <= j < eno ==> !entry_matches(self@, j, bytes@),
            decreases HEADER_MAX_ENTRY - eno,
        {
            let pos = HEADER_START_FILE_ENTRY + eno * HEADER_FILE_ENTRY_BYTE + 8;
            let mut same = true;
            let mut k: usize = 0;
            while k < n
                invariant
                    k <= n,
                    n == bytes@.len(),
                    n <= HEADER_NAME_BYTE,
                    eno < HEADER_MAX_ENTRY,
                    pos == entry_pos(eno as int) + 8,
                    data@ == self@,
                    self.wf(),
                    same <==> forall|j: int| 0 <= j < k ==> data@[pos + j] == bytes@[j],
                decreases n - k,
            {
                if data[pos + k] != bytes[k] {
                    same = false;
                }
                k = k + 1;
            }
            let head = self.get_head_free_page_id(EntryNo::new(eno))?;
            assert(same <==> entry_name(self@, eno as int).subrange(0, n as int) =~= bytes@);
            if same && head > 0 {
                return Ok(Some(EntryNo::new(eno)));
            }
            eno = eno + 1;
        }
        Ok(None)
    }
}

/// Every record of `s` but the one in slot `except` is still in `t`, in the same slot.
pub open spec fn slots_kept(s: Seq<u8>, t: Seq<u8>, except: int) -> bool {
    forall|k: int| #[trigger] slot_live(s, k) && k != except ==> slot_live(t, k) && slot_data(t, k) == slot_data(s, k)
}

/// Storing a record in an added slot keeps the other records and makes that slot hold it.
pub proof fn lemma_with_slot(s: Seq<u8>, i: int, d: Seq<u8>)
    requires
        s.len() == PAGE_BYTE,
        slot_ok(s, i),
        d.len() == PAGE_RECORD_BYTE,
    ensures
        slots_kept(s, with_slot(s, i, d), i),
        slot_live(with_slot(s, i, d), i),
        slot_data(with_slot(s, i, d), i) == d,
        num_slots(with_slot(s, i, d)) == num_slots(s),
        next_page(with_slot(s, i, d)) == next_page(s),
{
    let t = with_slot(s, i, d);
    assert(t[540] == s[540] && t[541] == s[541] && t[542] == s[542] && t[543] == s[543]);
    assert(t[0] == s[0] && t[1] == s[1] && t[2] == s[2] && t[3] == s[3]);
    assert(num_slots(t) == num_slots(s));
    assert forall|k: int| #[trigger] slot_live(s, k) && k != i implies slot_live(t, k) && slot_data(t, k) == slot_data(s, k) by {
        assert(slot_data(t, k) =~= slot_data(s, k));
    }
    assert(slot_data(t, i) =~= d);
}

/// Adding a slot keeps the other records and makes the new slot hold the record.
pub proof fn lemma_with_added_slot(s: Seq<u8>, d: Seq<u8>)
    requires
        s.len() == PAGE_BYTE,
        num_slots(s) < PAGE_CAPACITY,
        d.len() == PAGE_RECORD_BYTE,
    ensures
        slots_kept(s, with_added_slot(s, d), num_slots(s)),
        slot_live(with_added_slot(s, d), num_slots(s)),
        slot_data(with_added_slot(s, d), num_slots(s)) == d,
        num_slots(with_added_slot(s, d)) == num_slots(s) + 1,
        next_page(with_added_slot(s, d)) == next_page(s),
{
    let n = num_slots(s);
    let m = splice(s, PAGE_NUM_SLOTS as int, int_bytes((n + 1) as i32));
    crate::converter::lemma_int_at_splice(s, PAGE_NUM_SLOTS as int, (n + 1) as i32);
    assert(num_slots(m) == n + 1);
    assert(m[0] == s[0] && m[1] == s[1] && m[2] == s[2] && m[3] == s[3]);
    assert forall|k: int| #[trigger] slot_live(s, k) implies slot_live(m, k) && slot_data(m, k) == slot_data(s, k) by {
        assert(slot_data(m, k) =~= slot_data(s, k));
    }
    lemma_with_slot(m, n, d);
}

/// Changing the link to the next page keeps every record.
pub proof fn lemma_with_next(s: Seq<u8>, pid: usize)
    requires
        s.len() == PAGE_BYTE,
        pid <= i32::MAX,
    ensures
        slots_kept(s, splice(s, PAGE_NEXT_PAGE_ID as int, page_id_bytes(pid)), -1),
        next_page(splice(s, PAGE_NEXT_PAGE_ID as int, page_id_bytes(pid))) == pid,
        num_slots(splice(s, PAGE_NEXT_PAGE_ID as int, page_id_bytes(pid))) == num_slots(s),
{
    let t = splice(s, PAGE_NEXT_PAGE_ID as int, page_id_bytes(pid));
    crate::converter::lemma_int_at_splice(s, 0, pid as i32);
    assert(t[540] == s[540] && t[541] == s[541] && t[542] == s[542] && t[543] == s[543]);
    assert forall|k: int| #[trigger] slot_live(s, k) implies slot_live(t, k) && slot_data(t, k) == slot_data(s, k) by {
        assert(slot_data(t, k) =~= slot_data(s, k));
    }
}

/// `k` is the first slot from `from` on that holds a record.
pub open spec fn first_live_from(s: Seq<u8>, from: int, k: int) -> bool {
    &&& from <= k
    &&& slot_live(s, k)
    &&& forall|j: int| from <= j < k ==> !slot_live(s, j)
}

/// The slots from `from` on that hold a record, in increasing order.
pub open spec fn live_from(s: Seq<u8>, from: int) -> Seq<int>
    decreases PAGE_CAPACITY - from,
{
    if from >= PAGE_CAPACITY || from < 0 {
        Seq::empty()
    } else if slot_live(s, from) {
        seq![from].add(live_from(s, from + 1))
    } else {
        live_from(s, from + 1)
    }
}

/// Walking a page by its first live slot from a position on visits exactly the slots that
/// hold a record, each once, in increasing order.
pub proof fn lemma_scan_completeness(s: Seq<u8>, from: int)
    requires
        0 <= from,
    ensures
        forall|k: int| #[trigger] live_from(s, from).contains(k) <==> (from <= k && slot_live(s, k)),
        forall|a: int, b: int| 0 <= a < b < live_from(s, from).len() ==> live_from(s, from)[a] < live_from(s, from)[b],
        forall|k: int| #[trigger] first_live_from(s, from, k) ==> live_from(s, from) == seq![k].add(live_from(s, k + 1)),
        (forall|k: int| !#[trigger] first_live_from(s, from, k)) ==> live_from(s, from).len() == 0,
    decreases PAGE_CAPACITY - from,
{
    if from < PAGE_CAPACITY {
        lemma_scan_completeness(s, from + 1);
        let l = live_from(s, from);
        let r = live_from(s, from + 1);
        if slot_live(s, from) {
            assert(l == seq![from].add(r));
            assert(l.len() == r.len() + 1);
            assert(l[0] == from);
            assert forall|i: int| 0 <= i < r.len() implies l[i + 1] == r[i] by {}
            assert forall|k: int| l.contains(k) <==> (from <= k && slot_live(s, k)) by {
                if l.contains(k) {
                    let i = choose|i: int| 0 <= i < l.len() && l[i] == k;
                    if i > 0 {
                        assert(r[i - 1] == k);
                        assert(r.contains(k));
                    }
                }
                if from <= k && slot_live(s, k) {
                    if k == from {
                        assert(l[0] == k);
                    } else {
                        assert(r.contains(k));
                        let i = choose|i: int| 0 <= i < r.len() && r[i] == k;
                        assert(l[i + 1] == k);
                    }
                }
            }
            assert forall|a: int, b: int| 0 <= a < b < l.len() implies l[a] < l[b] by {
                assert(l[b] == r[b - 1]);
                assert(r.contains(r[b - 1]));
                if a > 0 {
                    assert(l[a] == r[a - 1]);
                    assert(r[a - 1] < r[b - 1]);
                } else {
                    assert(from + 1 <= r[b - 1]);
                }
            }
            assert forall|k: int| first_live_from(s, from, k) implies l == seq![k].add(live_from(s, k + 1)) by {
                if k != from {
                    assert(!slot_live(s, from));
                }
            }
        } else {
            assert(l == r);
            assert forall|k: int| l.contains(k) <==> (from <= k && slot_live(s, k)) by {}
            assert forall|k: int| first_live_from(s, from, k) implies l == seq![k].add(live_from(s, k + 1)) by {
                assert(first_live_from(s, from + 1, k));
            }
            assert((forall|k: int| !#[trigger] first_live_from(s, from, k)) ==> (forall|k: int| !#[trigger] first_live_from(s, from + 1, k))) by {
                if exists|k: int| #[trigger] first_live_from(s, from + 1, k) {
                    let k = choose|k: int| #[trigger] first_live_from(s, from + 1, k);
                    assert(first_live_from(s, from, k));
                }
            }
        }
        if forall|k: int| !#[trigger] first_live_from(s, from, k) {
            if slot_live(s, from) {
                assert(first_live_from(s, from, from));
            }
        }
    } else {
        assert forall|k: int| !(from <= k && slot_live(s, k)) by {}
    }
}

impl RecordPage {
    /// The first slot from `from` on that holds a record.
    pub fn next_live_slot(&self, from: usize) -> (r: Option<SlotNo>)
        requires
            self.wf(),
        ensures
            r matches Some(k) ==> first_live_from(self@, from as int, k.value as int),
            r is None ==> forall|k: int| !#[trigger] first_live_from(self@, from as int, k),
    {
        let mut i: usize = from;
        while i < PAGE_CAPACITY
            invariant
                self.wf(),
                from <= i || i >= PAGE_CAPACITY,
                forall|j: int| from <= j < i ==> !slot_live(self@, j),
            decreases PAGE_CAPACITY - i,
        {
            let sno = SlotNo::new(i);
            match self.is_free_slot(sno) {
                Ok(free) => {
                    if !free {
                        return Some(sno);
                    }
                },
                Err(_) => {},
            }
            i = i + 1;
        }
        proof {
            assert forall|k: int| !#[trigger] first_live_from(self@, from as int, k) by {
                if first_live_from(self@, from as int, k) {
                    assert(k < PAGE_CAPACITY);
                }
            }
        }
        None
    }
}

} // verus!
