use vstd::prelude::*;
use vstd::utf8::encode_utf8;

verus! {

/// The unsigned value of four bytes read little-endian.
pub open spec fn le_u32(b0: u8, b1: u8, b2: u8, b3: u8) -> u32 {
    (b0 as u32) | ((b1 as u32) << 8u32) | ((b2 as u32) << 16u32) | ((b3 as u32) << 24u32)
}

/// The 32-bit two's complement integer stored little-endian at `off`.
pub open spec fn int_at(s: Seq<u8>, off: int) -> i32 {
    le_u32(s[off], s[off + 1], s[off + 2], s[off + 3]) as i32
}

/// The four little-endian bytes of `v`.
pub open spec fn int_bytes(v: i32) -> Seq<u8> {
    let u = v as u32;
    seq![
        (u & 0xffu32) as u8,
        ((u >> 8u32) & 0xffu32) as u8,
        ((u >> 16u32) & 0xffu32) as u8,
        ((u >> 24u32) & 0xffu32) as u8,
    ]
}

/// `s` with the bytes of `b` written from `off` on (bytes past the end of `s` are dropped).
pub open spec fn splice(s: Seq<u8>, off: int, b: Seq<u8>) -> Seq<u8> {
    Seq::new(s.len(), |j: int| if off <= j < off + b.len() { b[j - off] } else { s[j] })
}

/// Decoding the encoding of an integer gives the integer back.
pub proof fn lemma_int_bytes_round_trip(v: i32)
    ensures
        le_u32(int_bytes(v)[0], int_bytes(v)[1], int_bytes(v)[2], int_bytes(v)[3]) as i32 == v,
{
    let u = v as u32;
    assert(((u & 0xffu32) as u8) as u32 | ((((u >> 8u32) & 0xffu32) as u8) as u32) << 8u32
        | ((((u >> 16u32) & 0xffu32) as u8) as u32) << 16u32
        | ((((u >> 24u32) & 0xffu32) as u8) as u32) << 24u32 == u) by (bit_vector);
    assert((v as u32) as i32 == v) by (bit_vector);
}

/// Reading an integer where one was just spliced in gives it back.
pub proof fn lemma_int_at_splice(s: Seq<u8>, off: int, v: i32)
    requires
        0 <= off,
        off + 4 <= s.len(),
    ensures
        int_at(splice(s, off, int_bytes(v)), off) == v,
{
    lemma_int_bytes_round_trip(v);
}

/// A splice elsewhere leaves the integer at `off2` as it was.
pub proof fn lemma_int_at_splice_other(s: Seq<u8>, off: int, b: Seq<u8>, off2: int)
    requires
        0 <= off2,
        off2 + 4 <= s.len(),
        off2 + 4 <= off || off + b.len() <= off2,
    ensures
        int_at(splice(s, off, b), off2) == int_at(s, off2),
{
    let t = splice(s, off, b);
    assert(t[off2] == s[off2] && t[off2 + 1] == s[off2 + 1] && t[off2 + 2] == s[off2 + 2] && t[off2 + 3] == s[off2 + 3]);
}

/// Four zero bytes read as an integer give zero.
pub proof fn lemma_int_at_zero(s: Seq<u8>, off: int)
    requires
        0 <= off,
        off + 4 <= s.len(),
        s[off] == 0 && s[off + 1] == 0 && s[off + 2] == 0 && s[off + 3] == 0,
    ensures
        int_at(s, off) == 0,
{
    assert(le_u32(0u8, 0u8, 0u8, 0u8) == 0u32) by (bit_vector);
}

/// The four little-endian bytes of `v`.
pub fn encode_int(v: i32) -> (r: (u8, u8, u8, u8))
    ensures
        seq![r.0, r.1, r.2, r.3] == int_bytes(v),
{
    let u = v as u32;
    ((u & 0xff) as u8, ((u >> 8) & 0xff) as u8, ((u >> 16) & 0xff) as u8, ((u >> 24) & 0xff) as u8)
}

/// The integer whose little-endian bytes are `b0 .. b3`.
pub fn decode_int(b0: u8, b1: u8, b2: u8, b3: u8) -> (r: i32)
    ensures
        r == le_u32(b0, b1, b2, b3) as i32,
{
    ((b0 as u32) | ((b1 as u32) << 8) | ((b2 as u32) << 16) | ((b3 as u32) << 24)) as i32
}

/// Writes `v` little-endian into `data[offset .. offset + 4]`.
pub fn set_int_value(data: &mut [u8], offset: usize, v: i32)
    requires
        offset + 4 <= old(data)@.len(),
    ensures
        final(data)@ == splice(old(data)@, offset as int, int_bytes(v)),
{
    let b = encode_int(v);
    data[offset] = b.0;
    data[offset + 1] = b.1;
    data[offset + 2] = b.2;
    data[offset + 3] = b.3;
    assert(data@ =~= splice(old(data)@, offset as int, int_bytes(v)));
}

/// Reads the little-endian integer at `offset`; `None` where four bytes do not fit there.
pub fn get_int_value(data: &[u8], offset: usize) -> (r: Option<i32>)
    ensures
        r == (if offset + 4 <= data@.len() {
            Some(int_at(data@, offset as int))
        } else {
            None::<i32>
        }),
{
    if offset > data.len() || data.len() - offset < 4 {
        return None;
    }
    Some(decode_int(data[offset], data[offset + 1], data[offset + 2], data[offset + 3]))
}

/// Relies on `String::from_utf8`: it succeeds exactly on the byte sequences that are the
/// UTF-8 encoding of some string, and the string it returns has those bytes.
#[verifier::external_body]
pub(crate) fn string_from_utf8(bytes: Vec<u8>) -> (r: Option<String>)
    ensures
        r matches Some(s) ==> encode_utf8(s@) == bytes@,
        r is None ==> forall|c: Seq<char>| encode_utf8(c) != bytes@,
{
    String::from_utf8(bytes).ok()
}

} // verus!
