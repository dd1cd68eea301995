use vstd::prelude::*;

use crate::converter::{decode_int, encode_int, int_at, int_bytes, splice, string_from_utf8};
use crate::filemgr::PAGE_RECORD_BYTE;
use crate::relop::schema::{AttributeType, Schema, SchemaView};
use crate::types::{invalid_arg, Res};
use vstd::string::StringSliceAdditionalSpecFns;
use vstd::utf8::encode_utf8;

verus! {

/// Field `fno` exists and lies inside the record frame.
pub open spec fn field_in_frame(sv: SchemaView, fno: int) -> bool {
    &&& 0 <= fno < sv.types.len()
    &&& fno < sv.offsets.len()
    &&& 0 <= sv.offsets[fno]
    &&& sv.offsets[fno] + sv.types[fno].size() <= PAGE_RECORD_BYTE
}

/// The integer that field `fno` of the frame `data` holds, where it is an integer field.
pub open spec fn int_field(sv: SchemaView, data: Seq<u8>, fno: int) -> Option<i32> {
    if field_in_frame(sv, fno) && sv.types[fno] == AttributeType::Int {
        Some(int_at(data, sv.offsets[fno]))
    } else {
        None
    }
}

/// The frame `data` with the integer field `fno` set to `v`.
pub open spec fn with_int_field(sv: SchemaView, data: Seq<u8>, fno: int, v: i32) -> Seq<u8> {
    splice(data, sv.offsets[fno], int_bytes(v))
}

/// `k` is the position of the first zero byte of `w`.
pub open spec fn first_nul(w: Seq<u8>, k: int) -> bool {
    &&& 0 <= k < w.len()
    &&& w[k] == 0
    &&& forall|j: int| 0 <= j < k ==> w[j] != 0
}

/// The bytes of `w` before its first zero byte; `None` where it has none.
pub open spec fn c_string(w: Seq<u8>) -> Option<Seq<u8>> {
    if exists|k: int| first_nul(w, k) {
        Some(w.subrange(0, choose|k: int| first_nul(w, k)))
    } else {
        None
    }
}

/// The width of a character field.
pub open spec fn varchar_width(t: AttributeType) -> int {
    match t {
        AttributeType::Varchar(n) => n as int,
        AttributeType::Int => 0,
    }
}

/// The text bytes of field `fno` of the frame `data`, where it is a terminated character field.
pub open spec fn varchar_field(sv: SchemaView, data: Seq<u8>, fno: int) -> Option<Seq<u8>> {
    if field_in_frame(sv, fno) && sv.types[fno] is Varchar {
        c_string(data.subrange(sv.offsets[fno], sv.offsets[fno] + varchar_width(sv.types[fno])))
    } else {
        None
    }
}

/// The frame `data` with the character field `fno` set to the bytes `b` and a terminator.
pub open spec fn with_varchar_field(sv: SchemaView, data: Seq<u8>, fno: int, b: Seq<u8>) -> Seq<u8> {
    splice(data, sv.offsets[fno], b.push(0u8))
}

/// The character of the decimal digit `d`.
pub open spec fn digit_char(d: int) -> char {
    seq!['0', '1', '2', '3', '4', '5', '6', '7', '8', '9'][d]
}

/// The decimal digits of `n`, most significant first.
pub open spec fn digits(n: nat) -> Seq<char>
    decreases n,
{
    if n < 10 {
        seq![digit_char(n as int)]
    } else {
        digits(n / 10).push(digit_char((n % 10) as int))
    }
}

/// The decimal text of `v`: its digits, after a `-` where it is negative.
pub open spec fn decimal(v: int) -> Seq<char> {
    if v < 0 {
        seq!['-'] + digits((-v) as nat)
    } else {
        digits(v as nat)
    }
}

/// Relies on the `Display` of `i32`, through `format!`: the decimal digits of the value,
/// after a `-` where it is negative.
#[verifier::external_body]
fn int_text(v: i32) -> (r: String)
    ensures
        r@ == decimal(v as int),
{
    format!("{}", v)
}

/// A fixed byte frame read through a schema.
pub struct Record<'a> {
    data: [u8; PAGE_RECORD_BYTE],
    schema: &'a Schema,
}

impl<'a> View for Record<'a> {
    type V = Seq<u8>;

    closed spec fn view(&self) -> Seq<u8> {
        self.data@
    }
}

impl<'a> Record<'a> {
    /// Every record frame has the record size.
    pub proof fn lemma_len(&self)
        ensures
            self@.len() == PAGE_RECORD_BYTE,
    {
    }

    /// The schema the record is read through.
    pub closed spec fn sch(&self) -> SchemaView {
        self.schema@
    }

    /// The record of frame `data` read through `schema`.
    pub fn new(data: [u8; PAGE_RECORD_BYTE], schema: &'a Schema) -> (r: Record<'a>)
        ensures
            r@ == data@,
            r.sch() == schema@,
    {
        Record { data, schema }
    }

    /// The record of a frame of zero bytes read through `schema`.
    pub fn new_zero(schema: &'a Schema) -> (r: Record<'a>)
        ensures
            r@ == Seq::new(PAGE_RECORD_BYTE as nat, |i: int| 0u8),
            r.sch() == schema@,
    {
        let data = [0u8; PAGE_RECORD_BYTE];
        assert(data@ =~= Seq::new(PAGE_RECORD_BYTE as nat, |i: int| 0u8));
        Record { data, schema }
    }

    /// The number of fields of the schema.
    pub fn get_field_len(&self) -> (r: usize)
        ensures
            r == self.sch().names.len(),
    {
        self.schema.len()
    }

    /// The byte at `pos` of the frame.
    pub fn get_byte(&self, pos: usize) -> (r: Option<u8>)
        ensures
            pos < PAGE_RECORD_BYTE ==> r == Some(self@[pos as int]),
            pos >= PAGE_RECORD_BYTE ==> r is None,
    {
        if pos < PAGE_RECORD_BYTE {
            Some(self.data[pos])
        } else {
            None
        }
    }

    /// The schema the record is read through.
    pub fn get_schema(&self) -> (r: &'a Schema)
        ensures
            r@ == self.sch(),
    {
        self.schema
    }

    /// The byte frame.
    pub fn get_data(&self) -> (r: &[u8; PAGE_RECORD_BYTE])
        ensures
            r@ == self@,
    {
        &self.data
    }
    /// The offset of field `fno` where it lies inside the frame and has the type `want` (an
    /// integer field) or any width (a character field).
    fn field_offset(&self, fno: usize, want_int: bool) -> (r: Option<usize>)
        ensures
            r matches Some(o) ==> field_in_frame(self.sch(), fno as int) && o == self.sch().offsets[fno as int]
                && (self.sch().types[fno as int] is Int <==> want_int),
            r is None ==> !(field_in_frame(self.sch(), fno as int) && (self.sch().types[fno as int] is Int <==> want_int)),
    {
        let ty = match self.schema.get_type(fno) {
            Some(t) => *t,
            None => return None,
        };
        let off = match self.schema.get_offset(fno) {
            Some(o) => *o,
            None => return None,
        };
        let is_int = match ty {
            AttributeType::Int => true,
            AttributeType::Varchar(_) => false,
        };
        if is_int != want_int {
            return None;
        }
        let size = ty.get_size();
        if off > PAGE_RECORD_BYTE || size > PAGE_RECORD_BYTE - off {
            return None;
        }
        Some(off)
    }

    /// Stores `v` in the integer field `fno`; `InvalidArg` where the field is not an integer
    /// field inside the frame.
    pub fn set_int_field(&mut self, fno: usize, v: i32) -> (r: Res<()>)
        ensures
            final(self).sch() == old(self).sch(),
            int_field(old(self).sch(), old(self)@, fno as int) is Some ==> r is Ok
                && final(self)@ == with_int_field(old(self).sch(), old(self)@, fno as int, v),
            int_field(old(self).sch(), old(self)@, fno as int) is None ==> r is Err && r->Err_0 is InvalidArg
                && final(self)@ == old(self)@,
    {
        let off = match self.field_offset(fno, true) {
            Some(o) => o,
            None => return Err(invalid_arg("the field is not an integer field of the record")),
        };
        let b = encode_int(v);
        self.data[off] = b.0;
        self.data[off + 1] = b.1;
        self.data[off + 2] = b.2;
        self.data[off + 3] = b.3;
        assert(self.data@ =~= with_int_field(old(self).sch(), old(self)@, fno as int, v));
        Ok(())
    }

    /// The integer in field `fno`; `None` where it is not an integer field inside the frame.
    pub fn get_int_field(&self, fno: usize) -> (r: Option<i32>)
        ensures
            r == int_field(self.sch(), self@, fno as int),
    {
        let off = match self.field_offset(fno, true) {
            Some(o) => o,
            None => return None,
        };
        Some(decode_int(self.data[off], self.data[off + 1], self.data[off + 2], self.data[off + 3]))
    }

    /// Stores the bytes of `v` and a terminating zero in the character field `fno`;
    /// `InvalidArg` where it is not a character field inside the frame or `v` with its
    /// terminator does not fit.
    pub fn set_varchar_field(&mut self, fno: usize, v: &String) -> (r: Res<()>)
        ensures
            final(self).sch() == old(self).sch(),
            ({
                let sv = old(self).sch();
                let ok = field_in_frame(sv, fno as int) && sv.types[fno as int] is Varchar
                    && encode_utf8(v@).len() + 1 <= varchar_width(sv.types[fno as int]);
                &&& ok ==> r is Ok && final(self)@ == with_varchar_field(sv, old(self)@, fno as int, encode_utf8(v@))
                &&& !ok ==> r is Err && r->Err_0 is InvalidArg && final(self)@ == old(self)@
            }),
    {
        let off = match self.field_offset(fno, false) {
            Some(o) => o,
            None => return Err(invalid_arg("the field is not a character field of the record")),
        };
        let n = self.schema.get_type(fno).unwrap().get_size();
        let bytes = v.as_str().as_bytes();
        let len = bytes.len();
        if len >= n {
            return Err(invalid_arg("the string does not fit the field"));
        }
        let ghost old_data = self.data@;
        let mut i: usize = 0;
        while i < len
            invariant
                i <= len,
                len == bytes@.len(),
                bytes@ == encode_utf8(v@),
                off + n <= PAGE_RECORD_BYTE,
                len < n,
                self.data@ == splice(old_data, off as int, bytes@.subrange(0, i as int)),
                self.schema == old(self).schema,
            decreases len - i,
        {
            self.data[off + i] = bytes[i];
            i = i + 1;
            assert(self.data@ =~= splice(old_data, off as int, bytes@.subrange(0, i as int)));
        }
        self.data[off + len] = 0u8;
        assert(self.data@ =~= with_varchar_field(old(self).sch(), old(self)@, fno as int, encode_utf8(v@)));
        Ok(())
    }

    /// The text of the character field `fno` up to its terminator; `None` where it is not a
    /// character field inside the frame, has no terminator or is not UTF-8 text.
    pub fn get_varchar_field(&self, fno: usize) -> (r: Option<String>)
        ensures
            r matches Some(s) ==> varchar_field(self.sch(), self@, fno as int) == Some(encode_utf8(s@)),
            (varchar_field(self.sch(), self@, fno as int) matches Some(b)
                && exists|c: Seq<char>| encode_utf8(c) == b) ==> r is Some,
    {
        let off = match self.field_offset(fno, false) {
            Some(o) => o,
            None => return None,
        };
        let n = self.schema.get_type(fno).unwrap().get_size();
        let ghost w = self@.subrange(off as int, off + n);
        let mut buf: Vec<u8> = Vec::new();
        let mut i: usize = 0;
        while i < n
            invariant
                i <= n,
                off + n <= PAGE_RECORD_BYTE,
                w == self@.subrange(off as int, off + n),
                field_in_frame(self.sch(), fno as int),
                self.sch().types[fno as int] is Varchar,
                off == self.sch().offsets[fno as int],
                n == varchar_width(self.sch().types[fno as int]),
                buf@ == w.subrange(0, i as int),
                forall|j: int| 0 <= j < i ==> w[j] != 0,
            decreases n - i,
        {
            let b = self.data[off + i];
            if b == 0u8 {
                assert(first_nul(w, i as int));
                assert(c_string(w) == Some(buf@));
                return string_from_utf8(buf);
            }
            buf.push(b);
            i = i + 1;
            assert(buf@ =~= w.subrange(0, i as int));
        }
        assert(forall|k: int| !first_nul(w, k));
        None
    }

    /// The value of field `fno` as text: the decimal text of an integer field, the text of
    /// a character field; `None` where the field cannot be read.
    pub fn get_as_string(&self, fno: usize) -> (r: Option<String>)
        ensures
            int_field(self.sch(), self@, fno as int) matches Some(v) ==> (r matches Some(s) && s@ == decimal(v as int)),
            fno < self.sch().types.len() && self.sch().types[fno as int] is Varchar ==> (r matches Some(s)
                ==> varchar_field(self.sch(), self@, fno as int) == Some(encode_utf8(s@))),
            r is Some ==> int_field(self.sch(), self@, fno as int) is Some || varchar_field(self.sch(), self@, fno as int) is Some,
            fno < self.sch().types.len() && self.sch().types[fno as int] is Varchar
                && (varchar_field(self.sch(), self@, fno as int) matches Some(b) && exists|c: Seq<char>| encode_utf8(c) == b)
                ==> r is Some,
    {
        let is_int = match self.schema.get_type(fno) {
            Some(AttributeType::Int) => true,
            Some(AttributeType::Varchar(_)) => false,
            None => return None,
        };
        if is_int {
            match self.get_int_field(fno) {
                Some(v) => Some(int_text(v)),
                None => None,
            }
        } else {
            self.get_varchar_field(fno)
        }
    }
}

/// A character field written with bytes that hold no zero byte reads back exactly those
/// bytes, and the text whose encoding they are; an integer field reads back its integer.
pub proof fn lemma_tuple_round_trip(sv: SchemaView, data: Seq<u8>, fno: int, v: i32, b: Seq<u8>)
    requires
        data.len() == PAGE_RECORD_BYTE,
    ensures
        int_field(sv, data, fno) is Some ==> int_field(sv, with_int_field(sv, data, fno, v), fno) == Some(v),
        (field_in_frame(sv, fno) && sv.types[fno] is Varchar && b.len() + 1 <= varchar_width(sv.types[fno])
            && (forall|j: int| 0 <= j < b.len() ==> b[j] != 0))
            ==> varchar_field(sv, with_varchar_field(sv, data, fno, b), fno) == Some(b),
        forall|s1: Seq<char>, s2: Seq<char>| encode_utf8(s1) == encode_utf8(s2) ==> s1 == s2,
{
    if int_field(sv, data, fno) is Some {
        crate::converter::lemma_int_at_splice(data, sv.offsets[fno], v);
    }
    if field_in_frame(sv, fno) && sv.types[fno] is Varchar && b.len() + 1 <= varchar_width(sv.types[fno])
        && (forall|j: int| 0 <= j < b.len() ==> b[j] != 0) {
        let off = sv.offsets[fno];
        let n = varchar_width(sv.types[fno]);
        let w = with_varchar_field(sv, data, fno, b).subrange(off, off + n);
        assert(first_nul(w, b.len() as int));
        assert(w.subrange(0, b.len() as int) =~= b);
    }
    assert forall|s1: Seq<char>, s2: Seq<char>| encode_utf8(s1) == encode_utf8(s2) implies s1 == s2 by {
        vstd::utf8::encode_utf8_decode_utf8(s1);
        vstd::utf8::encode_utf8_decode_utf8(s2);
    }
}

/// Two distinct fields of a packed schema that lie inside the frame do not overlap.
pub proof fn lemma_fields_disjoint(sv: SchemaView, i: int, j: int)
    requires
        sv.packed(),
        field_in_frame(sv, i),
        field_in_frame(sv, j),
        i < j,
    ensures
        sv.offsets[i] + sv.types[i].size() <= sv.offsets[j],
{
    crate::relop::schema::lemma_width_mono(sv.types, i, i);
    crate::relop::schema::lemma_width_mono(sv.types, i + 1, j);
    assert(sv.offsets == crate::relop::schema::packed_offsets(sv.types));
    assert(sv.offsets[i] == crate::relop::schema::clamp(crate::relop::schema::width(sv.types.subrange(0, i))));
    assert(sv.offsets[j] == crate::relop::schema::clamp(crate::relop::schema::width(sv.types.subrange(0, j))));
}

/// The write `wr` sets field `j` of a record read through `sv` (as the field setters do).
pub open spec fn field_write(sv: SchemaView, j: int, wr: (int, Seq<u8>)) -> bool {
    field_in_frame(sv, j) && wr.0 == sv.offsets[j] && wr.1.len() <= sv.types[j].size()
}

/// Once a field is written, any sequence of writes to the other fields of a packed schema
/// leaves what it reads unchanged.
pub proof fn lemma_tuple_field_kept(sv: SchemaView, d: Seq<u8>, i: int, ws: Seq<(int, Seq<u8>)>, js: Seq<int>)
    requires
        sv.packed(),
        d.len() == PAGE_RECORD_BYTE,
        field_in_frame(sv, i),
        ws.len() == js.len(),
        forall|k: int| 0 <= k < ws.len() ==> js[k] != i && #[trigger] field_write(sv, js[k], ws[k]),
    ensures
        int_field(sv, crate::page::apply_writes(d, ws), i) == int_field(sv, d, i),
        varchar_field(sv, crate::page::apply_writes(d, ws), i) == varchar_field(sv, d, i),
{
    let off = sv.offsets[i];
    let w = sv.types[i].size();
    assert forall|k: int| 0 <= k < ws.len() implies #[trigger] crate::page::write_outside(ws[k], off, w) by {
        assert(field_write(sv, js[k], ws[k]));
        if js[k] < i {
            lemma_fields_disjoint(sv, js[k], i);
        } else {
            lemma_fields_disjoint(sv, i, js[k]);
        }
    }
    crate::page::lemma_page_window_kept(d, ws, off, w);
    if sv.types[i] is Varchar {
        assert(varchar_width(sv.types[i]) == w);
    }
}

} // verus!
