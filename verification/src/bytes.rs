//! Little-endian integer codecs and byte-range copies on `Vec<u8>` buffers.
use vstd::prelude::*;
use vstd::bytes::*;

verus! {

/// `s` with the bytes `t` written at offset `off` (length unchanged).
pub open spec fn splice(s: Seq<u8>, off: int, t: Seq<u8>) -> Seq<u8> {
    s.subrange(0, off) + t + s.subrange(off + t.len(), s.len() as int)
}

/// The eight little-endian bytes of an `i64` (two's complement).
pub open spec fn i64_le(v: i64) -> Seq<u8> {
    spec_u64_to_le_bytes(v as u64)
}

/// The `i64` whose little-endian bytes are `s`.
pub open spec fn i64_from_le(s: Seq<u8>) -> i64 {
    spec_u64_from_le_bytes(s) as i64
}

/// The `u32` stored little-endian at `off` of `s`.
pub open spec fn u32_at(s: Seq<u8>, off: int) -> u32 {
    spec_u32_from_le_bytes(s.subrange(off, off + 4))
}

/// The `u16` stored little-endian at `off` of `s`.
pub open spec fn u16_at(s: Seq<u8>, off: int) -> u16 {
    spec_u16_from_le_bytes(s.subrange(off, off + 2))
}

/// The `i64` stored little-endian at `off` of `s`.
pub open spec fn i64_at(s: Seq<u8>, off: int) -> i64 {
    i64_from_le(s.subrange(off, off + 8))
}

/// Encoding then decoding an `i64`, `u32` or `u16` gives it back, and the
/// encodings have 8, 4 and 2 bytes.
pub proof fn lemma_le_roundtrip()
    ensures
        forall|v: i64| #[trigger] i64_le(v).len() == 8 && i64_from_le(i64_le(v)) == v,
        forall|v: u32|
            #[trigger] spec_u32_to_le_bytes(v).len() == 4 && spec_u32_from_le_bytes(
                spec_u32_to_le_bytes(v),
            ) == v,
        forall|v: u16|
            #[trigger] spec_u16_to_le_bytes(v).len() == 2 && spec_u16_from_le_bytes(
                spec_u16_to_le_bytes(v),
            ) == v,
{
    lemma_auto_spec_u64_to_from_le_bytes();
    lemma_auto_spec_u32_to_from_le_bytes();
    lemma_auto_spec_u16_to_from_le_bytes();
    assert forall|v: i64| #[trigger] i64_le(v).len() == 8 && i64_from_le(i64_le(v)) == v by {
        let u = v as u64;
        assert(spec_u64_from_le_bytes(spec_u64_to_le_bytes(u)) == u);
        assert((u as i64) == v) by (bit_vector)
            requires
                u == v as u64,
        ;
    }
}

/// Copies `src` into `buf` at offset `off`.
pub fn write_bytes(buf: &mut Vec<u8>, off: usize, src: &[u8])
    requires
        off + src@.len() <= old(buf)@.len(),
    ensures
        final(buf)@ == splice(old(buf)@, off as int, src@),
{
    let ghost start = buf@;
    let _n = buf.len();
    let mut i: usize = 0;
    while i < src.len()
        invariant
            i <= src@.len(),
            off + src@.len() <= start.len(),
            start.len() <= usize::MAX,
            buf@.len() == start.len(),
            forall|j: int| 0 <= j < off ==> buf@[j] == start[j],
            forall|j: int| off <= j < off + i ==> buf@[j] == src@[j - off],
            forall|j: int| off + i <= j < start.len() ==> buf@[j] == start[j],
        decreases src@.len() - i,
    {
        buf.set(off + i, src[i]);
        i = i + 1;
    }
    assert(buf@ =~= splice(start, off as int, src@));
}

/// Copies `len` bytes of `src` starting at `off` into a new vector.
pub fn copy_range(src: &[u8], off: usize, len: usize) -> (out: Vec<u8>)
    requires
        off + len <= src@.len(),
    ensures
        out@ == src@.subrange(off as int, off + len),
{
    let _n = src.len();
    let mut out: Vec<u8> = Vec::with_capacity(len);
    let mut i: usize = 0;
    while i < len
        invariant
            i <= len,
            src@.len() <= usize::MAX,
            off + len <= src@.len(),
            out@ == src@.subrange(off as int, off + i),
        decreases len - i,
    {
        out.push(src[off + i]);
        i = i + 1;
        assert(out@ =~= src@.subrange(off as int, off + i));
    }
    out
}

/// Reads the `u16` stored little-endian at `off`.
pub fn read_u16(buf: &[u8], off: usize) -> (v: u16)
    requires
        off + 2 <= buf@.len(),
    ensures
        v == u16_at(buf@, off as int),
{
    let _n = buf.len();
    u16_from_le_bytes(vstd::slice::slice_subrange(buf, off, off + 2))
}

/// Reads the `u32` stored little-endian at `off`.
pub fn read_u32(buf: &[u8], off: usize) -> (v: u32)
    requires
        off + 4 <= buf@.len(),
    ensures
        v == u32_at(buf@, off as int),
{
    let _n = buf.len();
    u32_from_le_bytes(vstd::slice::slice_subrange(buf, off, off + 4))
}

/// Reads the `i64` stored little-endian at `off`.
pub fn read_i64(buf: &[u8], off: usize) -> (v: i64)
    requires
        off + 8 <= buf@.len(),
    ensures
        v == i64_at(buf@, off as int),
{
    let _n = buf.len();
    let u = u64_from_le_bytes(vstd::slice::slice_subrange(buf, off, off + 8));
    #[verifier::truncate]
    (u as i64)
}

/// Writes `v` little-endian at `off`.
pub fn write_u16(buf: &mut Vec<u8>, off: usize, v: u16)
    requires
        off + 2 <= old(buf)@.len(),
    ensures
        final(buf)@ == splice(old(buf)@, off as int, spec_u16_to_le_bytes(v)),
{
    proof { lemma_le_roundtrip(); }
    let b = u16_to_le_bytes(v);
    write_bytes(buf, off, b.as_slice());
}

/// Writes `v` little-endian at `off`.
pub fn write_u32(buf: &mut Vec<u8>, off: usize, v: u32)
    requires
        off + 4 <= old(buf)@.len(),
    ensures
        final(buf)@ == splice(old(buf)@, off as int, spec_u32_to_le_bytes(v)),
{
    proof { lemma_le_roundtrip(); }
    let b = u32_to_le_bytes(v);
    write_bytes(buf, off, b.as_slice());
}

/// Writes `v` little-endian at `off`.
pub fn write_i64(buf: &mut Vec<u8>, off: usize, v: i64)
    requires
        off + 8 <= old(buf)@.len(),
    ensures
        final(buf)@ == splice(old(buf)@, off as int, i64_le(v)),
{
    proof { lemma_le_roundtrip(); }
    let b = u64_to_le_bytes(v as u64);
    write_bytes(buf, off, b.as_slice());
}

/// Appends `v` little-endian to `buf`.
pub fn push_u32(buf: &mut Vec<u8>, v: u32)
    ensures
        final(buf)@ == old(buf)@ + spec_u32_to_le_bytes(v),
{
    proof { lemma_le_roundtrip(); }
    let b = u32_to_le_bytes(v);
    push_all(buf, b.as_slice());
}

/// Appends all of `src` to `buf`.
pub fn push_all(buf: &mut Vec<u8>, src: &[u8])
    ensures
        final(buf)@ == old(buf)@ + src@,
{
    let ghost start = buf@;
    let mut i: usize = 0;
    while i < src.len()
        invariant
            i <= src@.len(),
            buf@ == start + src@.subrange(0, i as int),
        decreases src@.len() - i,
    {
        buf.push(src[i]);
        i = i + 1;
        assert(buf@ =~= start + src@.subrange(0, i as int));
    }
    assert(src@.subrange(0, src@.len() as int) =~= src@);
}

} // verus!

verus! {

/// Equal ranges have equal sub-ranges.
pub proof fn lemma_sub_eq(s1: Seq<u8>, s2: Seq<u8>, a: int, b: int, c: int, d: int)
    requires
        0 <= a <= c <= d <= b <= s1.len(),
        b <= s2.len(),
        s1.subrange(a, b) == s2.subrange(a, b),
    ensures
        s1.subrange(c, d) == s2.subrange(c, d),
{
    assert(s1.subrange(c, d) =~= s1.subrange(a, b).subrange(c - a, d - a));
    assert(s2.subrange(c, d) =~= s2.subrange(a, b).subrange(c - a, d - a));
}

/// Writing at `off` leaves every range outside `[off, off + t.len())` as it was,
/// and the written range holds `t`.
pub proof fn lemma_splice(s: Seq<u8>, off: int, t: Seq<u8>)
    requires
        0 <= off,
        off + t.len() <= s.len(),
    ensures
        splice(s, off, t).len() == s.len(),
        splice(s, off, t).subrange(off, off + t.len()) == t,
        forall|a: int, b: int|
            0 <= a <= b <= off ==> #[trigger] splice(s, off, t).subrange(a, b) == s.subrange(a, b),
        forall|a: int, b: int|
            off + t.len() <= a <= b <= s.len() ==> #[trigger] splice(s, off, t).subrange(a, b)
                == s.subrange(a, b),
{
    let r = splice(s, off, t);
    assert(r.subrange(off, off + t.len()) =~= t);
    assert forall|a: int, b: int| 0 <= a <= b <= off implies #[trigger] r.subrange(a, b) == s.subrange(a, b) by {
        assert(r.subrange(a, b) =~= s.subrange(a, b));
    }
    assert forall|a: int, b: int| off + t.len() <= a <= b <= s.len() implies #[trigger] r.subrange(a, b) == s.subrange(a, b) by {
        assert(r.subrange(a, b) =~= s.subrange(a, b));
    }
}

/// A range that holds `a + b` holds `a` and then `b`.
pub proof fn lemma_split(buf: Seq<u8>, off: int, a: Seq<u8>, b: Seq<u8>)
    requires
        0 <= off,
        off + a.len() + b.len() <= buf.len(),
        buf.subrange(off, off + a.len() + b.len()) == a + b,
    ensures
        buf.subrange(off, off + a.len()) == a,
        buf.subrange(off + a.len(), off + a.len() + b.len()) == b,
{
    assert forall|i: int| 0 <= i < a.len() implies buf.subrange(off, off + a.len())[i] == a[i] by {
        assert(buf.subrange(off, off + a.len() + b.len())[i] == (a + b)[i]);
    }
    assert(buf.subrange(off, off + a.len()) =~= a);
    assert forall|i: int| 0 <= i < b.len() implies buf.subrange(
        off + a.len(),
        off + a.len() + b.len(),
    )[i] == b[i] by {
        let k = a.len() + i;
        assert(buf.subrange(off, off + a.len() + b.len())[k] == (a + b)[k]);
        assert(buf.subrange(off, off + a.len() + b.len())[k] == buf[off + k]);
        assert((a + b)[k] == b[i]);
    }
    assert(buf.subrange(off + a.len(), off + a.len() + b.len()) =~= b);
}

} // verus!
