use vstd::prelude::*;

use crate::converter::{lemma_int_at_splice, decode_int, encode_int, int_at, int_bytes, splice, string_from_utf8};
use crate::types::{invalid_arg, Error, Res};
use vstd::string::StringSliceAdditionalSpecFns;
use vstd::utf8::encode_utf8;

verus! {

/// The size of every page, in bytes.
pub const PAGE_BYTE: usize = 544;

/// A fixed-size byte buffer with typed accessors.
pub struct Page {
    data: Vec<u8>,
}

impl View for Page {
    type V = Seq<u8>;

    closed spec fn view(&self) -> Seq<u8> {
        self.data@
    }
}

/// A page of zero bytes.
pub open spec fn zero_page() -> Seq<u8> {
    Seq::new(PAGE_BYTE as nat, |i: int| 0u8)
}

impl Page {
    /// The page has the page size.
    pub open spec fn wf(&self) -> bool {
        self@.len() == PAGE_BYTE
    }

    /// The number of bytes of the page, which is always `PAGE_BYTE`.
    pub fn len(&self) -> (r: usize)
        requires
            self.wf(),
        ensures
            r == PAGE_BYTE,
            self@.len() == PAGE_BYTE,
    {
        self.data.len()
    }

    /// A page of zero bytes.
    pub fn new() -> (r: Page)
        ensures
            r@ == zero_page(),
            r.wf(),
    {
        let mut data: Vec<u8> = Vec::new();
        let mut i: usize = 0;
        while i < PAGE_BYTE
            invariant
                i <= PAGE_BYTE,
                data@ == Seq::new(i as nat, |k: int| 0u8),
            decreases PAGE_BYTE - i,
        {
            data.push(0u8);
            i = i + 1;
            assert(data@ =~= Seq::new(i as nat, |k: int| 0u8));
        }
        Page { data }
    }

    /// The page holding `data`, which has the page size.
    pub fn from_data(data: Vec<u8>) -> (r: Page)
        requires
            data@.len() == PAGE_BYTE,
        ensures
            r@ == data@,
            r.wf(),
    {
        Page { data }
    }

    /// A copy of this page.
    pub fn copy(&self) -> (r: Page)
        requires
            self.wf(),
        ensures
            r@ == self@,
            r.wf(),
    {
        let mut data: Vec<u8> = Vec::new();
        let mut i: usize = 0;
        while i < PAGE_BYTE
            invariant
                i <= PAGE_BYTE,
                self.data@.len() == PAGE_BYTE,
                data@ == self.data@.subrange(0, i as int),
            decreases PAGE_BYTE - i,
        {
            data.push(self.data[i]);
            i = i + 1;
            assert(data@ =~= self.data@.subrange(0, i as int));
        }
        assert(data@ =~= self.data@);
        Page { data }
    }

    /// The bytes of the page.
    pub fn get_data(&self) -> (r: &[u8])
        requires
            self.wf(),
        ensures
            r@ == self@,
    {
        self.data.as_slice()
    }

    /// The integer stored little-endian at `offset`.
    pub fn get_int_value(&self, offset: usize) -> (r: Res<i32>)
        requires
            self.wf(),
        ensures
            offset + 4 <= PAGE_BYTE ==> r == Ok::<i32, Error>(int_at(self@, offset as int)),
            offset + 4 > PAGE_BYTE ==> r is Err && r->Err_0 is InvalidArg,
    {
        if offset > PAGE_BYTE - 4 {
            return Err(invalid_arg("offset is past the end of the page"));
        }
        Ok(decode_int(self.data[offset], self.data[offset + 1], self.data[offset + 2], self.data[offset + 3]))
    }

    /// Stores `value` little-endian at `offset`.
    pub fn set_int_value(&mut self, offset: usize, value: i32) -> (r: Res<()>)
        requires
            old(self).wf(),
        ensures
            final(self).wf(),
            offset + 4 <= PAGE_BYTE ==> r is Ok && final(self)@ == splice(old(self)@, offset as int, int_bytes(value)),
            offset + 4 > PAGE_BYTE ==> r is Err && r->Err_0 is InvalidArg && final(self)@ == old(self)@,
    {
        if offset > PAGE_BYTE - 4 {
            return Err(invalid_arg("offset is past the end of the page"));
        }
        let b = encode_int(value);
        self.data.set(offset, b.0);
        self.data.set(offset + 1, b.1);
        self.data.set(offset + 2, b.2);
        self.data.set(offset + 3, b.3);
        assert(self.data@ =~= splice(old(self)@, offset as int, int_bytes(value)));
        Ok(())
    }

    /// The `length` bytes from `offset` as a string; `InvalidArg` where they pass the end of
    /// the page or are not UTF-8.
    pub fn get_varchar_value(&self, offset: usize, length: usize) -> (r: Res<String>)
        requires
            self.wf(),
        ensures
            offset + length > PAGE_BYTE ==> r is Err && r->Err_0 is InvalidArg,
            r matches Ok(s) ==> offset + length <= PAGE_BYTE
                && encode_utf8(s@) == self@.subrange(offset as int, offset + length),
            offset + length <= PAGE_BYTE && (exists|c: Seq<char>|
                encode_utf8(c) == self@.subrange(offset as int, offset + length)) ==> r is Ok,
            r matches Err(e) ==> e is InvalidArg,
    {
        if offset > PAGE_BYTE || length > PAGE_BYTE - offset {
            return Err(invalid_arg("offset is past the end of the page"));
        }
        let mut buf: Vec<u8> = Vec::new();
        let mut i: usize = 0;
        while i < length
            invariant
                i <= length,
                offset + length <= PAGE_BYTE,
                self.data@.len() == PAGE_BYTE,
                buf@ == self.data@.subrange(offset as int, offset + i),
            decreases length - i,
        {
            buf.push(self.data[offset + i]);
            i = i + 1;
            assert(buf@ =~= self.data@.subrange(offset as int, offset + i));
        }
        match string_from_utf8(buf) {
            Some(s) => Ok(s),
            None => Err(invalid_arg("the bytes are not UTF-8")),
        }
    }

    /// Copies the bytes of `value` to `offset`, with no terminator.
    pub fn set_varchar_value(&mut self, offset: usize, value: &str) -> (r: Res<()>)
        requires
            old(self).wf(),
        ensures
            final(self).wf(),
            offset + value.spec_bytes().len() <= PAGE_BYTE ==> r is Ok
                && final(self)@ == splice(old(self)@, offset as int, value.spec_bytes()),
            offset + value.spec_bytes().len() > PAGE_BYTE ==> r is Err && r->Err_0 is InvalidArg
                && final(self)@ == old(self)@,
    {
        let bytes = value.as_bytes();
        let n = bytes.len();
        if offset > PAGE_BYTE || n > PAGE_BYTE - offset {
            return Err(invalid_arg("offset is past the end of the page"));
        }
        let mut i: usize = 0;
        while i < n
            invariant
                i <= n,
                n == bytes@.len(),
                offset + n <= PAGE_BYTE,
                bytes@ == value.spec_bytes(),
                self.data@.len() == PAGE_BYTE,
                self.data@ == splice(old(self)@, offset as int, bytes@.subrange(0, i as int)),
            decreases n - i,
        {
            self.data.set(offset + i, bytes[i]);
            i = i + 1;
            assert(self.data@ =~= splice(old(self)@, offset as int, bytes@.subrange(0, i as int)));
        }
        assert(bytes@.subrange(0, n as int) =~= bytes@);
        Ok(())
    }

    /// The byte at `offset`.
    pub fn get_byte_value(&self, offset: usize) -> (r: Res<u8>)
        requires
            self.wf(),
        ensures
            offset < PAGE_BYTE ==> r == Ok::<u8, Error>(self@[offset as int]),
            offset >= PAGE_BYTE ==> r is Err && r->Err_0 is InvalidArg,
    {
        if offset >= PAGE_BYTE {
            return Err(invalid_arg("offset is past the end of the page"));
        }
        Ok(self.data[offset])
    }

    /// Stores `value` at `offset`.
    pub fn set_byte_value(&mut self, offset: usize, value: u8) -> (r: Res<()>)
        requires
            old(self).wf(),
        ensures
            final(self).wf(),
            offset < PAGE_BYTE ==> r is Ok && final(self)@ == old(self)@.update(offset as int, value),
            offset >= PAGE_BYTE ==> r is Err && r->Err_0 is InvalidArg && final(self)@ == old(self)@,
    {
        if offset >= PAGE_BYTE {
            return Err(invalid_arg("offset is past the end of the page"));
        }
        self.data.set(offset, value);
        Ok(())
    }
}

/// What a setter of the page codec writes at an offset that fits, the matching getter reads
/// back, and a write elsewhere leaves it in place.
pub proof fn lemma_page_round_trip(s: Seq<u8>, off: int, v: i32, b: u8, bytes: Seq<u8>, off2: int, w: i32)
    requires
        s.len() == PAGE_BYTE,
        0 <= off,
        0 <= off2,
    ensures
        off + 4 <= PAGE_BYTE ==> int_at(splice(s, off, int_bytes(v)), off) == v,
        off < PAGE_BYTE ==> s.update(off, b)[off] == b,
        off + bytes.len() <= PAGE_BYTE ==> splice(s, off, bytes).subrange(off, off + bytes.len()) == bytes,
        off + 4 <= PAGE_BYTE && off2 + 4 <= PAGE_BYTE && (off2 + 4 <= off || off + 4 <= off2)
            ==> int_at(splice(splice(s, off, int_bytes(v)), off2, int_bytes(w)), off) == v,
{
    if off + 4 <= PAGE_BYTE {
        lemma_int_at_splice(s, off, v);
        let t = splice(s, off, int_bytes(v));
        let t2 = splice(t, off2, int_bytes(w));
        if off2 + 4 <= PAGE_BYTE && (off2 + 4 <= off || off + 4 <= off2) {
            assert(t2[off] == t[off] && t2[off + 1] == t[off + 1] && t2[off + 2] == t[off + 2]
                && t2[off + 3] == t[off + 3]);
        }
    }
    if off + bytes.len() <= PAGE_BYTE {
        assert(splice(s, off, bytes).subrange(off, off + bytes.len()) =~= bytes);
    }
}

/// `s` with each write of `ws` (bytes at an offset) applied in order.
pub open spec fn apply_writes(s: Seq<u8>, ws: Seq<(int, Seq<u8>)>) -> Seq<u8>
    decreases ws.len(),
{
    if ws.len() == 0 {
        s
    } else {
        splice(apply_writes(s, ws.drop_last()), ws.last().0, ws.last().1)
    }
}

/// A write lies outside the bytes `[off, off + w)`.
pub open spec fn write_outside(wr: (int, Seq<u8>), off: int, w: int) -> bool {
    wr.0 + wr.1.len() <= off || off + w <= wr.0
}

/// Any sequence of writes outside a window leaves the window as it was: what a setter of the
/// page codec wrote there, the matching getter still reads after them.
pub proof fn lemma_page_window_kept(s: Seq<u8>, ws: Seq<(int, Seq<u8>)>, off: int, w: int)
    requires
        0 <= off,
        0 <= w,
        off + w <= s.len(),
        forall|i: int| 0 <= i < ws.len() ==> #[trigger] write_outside(ws[i], off, w),
    ensures
        apply_writes(s, ws).len() == s.len(),
        apply_writes(s, ws).subrange(off, off + w) == s.subrange(off, off + w),
        w >= 4 ==> int_at(apply_writes(s, ws), off) == int_at(s, off),
        w >= 1 ==> apply_writes(s, ws)[off] == s[off],
    decreases ws.len(),
{
    if ws.len() > 0 {
        let d = ws.drop_last();
        assert forall|i: int| 0 <= i < d.len() implies #[trigger] write_outside(d[i], off, w) by {
            assert(d[i] == ws[i]);
        }
        lemma_page_window_kept(s, d, off, w);
        assert(write_outside(ws[ws.len() - 1], off, w));
        let t = apply_writes(s, d);
        let wr = ws.last();
        assert(wr == ws[ws.len() - 1]);
        assert(apply_writes(s, ws) == splice(t, wr.0, wr.1));
        assert forall|k: int| 0 <= k < w implies #[trigger] apply_writes(s, ws).subrange(off, off + w)[k] == t.subrange(off, off + w)[k] by {
            assert(!(wr.0 <= off + k < wr.0 + wr.1.len()));
        }
        assert(apply_writes(s, ws).subrange(off, off + w) =~= t.subrange(off, off + w));
    }
    let r = apply_writes(s, ws);
    assert(r.subrange(off, off + w) =~= s.subrange(off, off + w));
    if w >= 4 {
        assert(r[off] == r.subrange(off, off + w)[0]);
        assert(r[off + 1] == r.subrange(off, off + w)[1]);
        assert(r[off + 2] == r.subrange(off, off + w)[2]);
        assert(r[off + 3] == r.subrange(off, off + w)[3]);
    }
    if w >= 1 {
        assert(r[off] == r.subrange(off, off + w)[0]);
    }
}

} // verus!
