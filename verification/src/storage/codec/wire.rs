use vstd::bytes::*;
use vstd::prelude::*;
use vstd::slice::slice_subrange;

verus! {

/// The `len` bytes of `s` that start at `pos`.
pub open spec fn region(s: Seq<u8>, pos: int, len: int) -> Seq<u8> {
    s.subrange(pos, pos + len)
}

/// `s` with the bytes `b` written over it from `pos` on.
pub open spec fn overlay(s: Seq<u8>, pos: int, b: Seq<u8>) -> Seq<u8> {
    Seq::new(s.len(), |i: int| if pos <= i < pos + b.len() { b[i - pos] } else { s[i] })
}

pub open spec fn u32_at(s: Seq<u8>, pos: int) -> u32 {
    spec_u32_from_le_bytes(region(s, pos, 4))
}

pub open spec fn u64_at(s: Seq<u8>, pos: int) -> u64 {
    spec_u64_from_le_bytes(region(s, pos, 8))
}

/// A page of zero bytes of the given length.
pub open spec fn zeros(len: nat) -> Seq<u8> {
    Seq::new(len, |i: int| 0u8)
}

/// What was written can be read back, and the length stays.
pub proof fn lemma_overlay_same(s: Seq<u8>, pos: int, b: Seq<u8>)
    requires
        0 <= pos,
        pos + b.len() <= s.len(),
    ensures
        overlay(s, pos, b).len() == s.len(),
        region(overlay(s, pos, b), pos, b.len() as int) == b,
{
    assert(region(overlay(s, pos, b), pos, b.len() as int) =~= b);
}

/// A write leaves every region that it does not touch as it was.
pub proof fn lemma_overlay_other(s: Seq<u8>, pos: int, b: Seq<u8>, q: int, n: int)
    requires
        0 <= pos,
        pos + b.len() <= s.len(),
        0 <= q,
        0 <= n,
        q + n <= s.len(),
        q + n <= pos || pos + b.len() <= q,
    ensures
        region(overlay(s, pos, b), q, n) == region(s, q, n),
{
    assert(region(overlay(s, pos, b), q, n) =~= region(s, q, n));
}

/// A region of a region is a region of the whole.
pub proof fn lemma_region_of_region(s: Seq<u8>, pos: int, len: int, q: int, n: int)
    requires
        0 <= pos,
        0 <= len,
        pos + len <= s.len(),
        0 <= q,
        0 <= n,
        q + n <= len,
    ensures
        region(region(s, pos, len), q, n) == region(s, pos + q, n),
{
    assert(region(region(s, pos, len), q, n) =~= region(s, pos + q, n));
}

/// Writes `src` over `buf` from `pos` on.
pub fn put(buf: &mut Vec<u8>, pos: usize, src: &Vec<u8>)
    requires
        pos + src.len() <= old(buf).len(),
    ensures
        final(buf)@ == overlay(old(buf)@, pos as int, src@),
        final(buf).len() == old(buf).len(),
        region(final(buf)@, pos as int, src@.len() as int) == src@,
        forall|q: int, n: int|
            0 <= q && 0 <= n && q + n <= old(buf)@.len() && (q + n <= pos || pos + src@.len() <= q)
                ==> #[trigger] region(final(buf)@, q, n) == region(old(buf)@, q, n),
{
    proof {
        lemma_overlay_same(old(buf)@, pos as int, src@);
        assert forall|q: int, n: int|
            0 <= q && 0 <= n && q + n <= old(buf)@.len() && (q + n <= pos || pos + src@.len()
                <= q) implies #[trigger] region(overlay(old(buf)@, pos as int, src@), q, n)
            == region(old(buf)@, q, n) by {
            lemma_overlay_other(old(buf)@, pos as int, src@, q, n);
        }
    }
    let mut k: usize = 0;
    while k < src.len()
        invariant
            k <= src@.len(),
            pos + src.len() <= buf.len(),
            buf.len() == old(buf).len(),
            buf@ == overlay(old(buf)@, pos as int, src@.subrange(0, k as int)),
        decreases src@.len() - k,
    {
        buf.set(pos + k, src[k]);
        assert(buf@ =~= overlay(old(buf)@, pos as int, src@.subrange(0, k + 1)));
        k += 1;
    }
    assert(src@.subrange(0, k as int) =~= src@);
}

/// Copies the `len` bytes of `buf` that start at `pos`.
pub fn get(buf: &Vec<u8>, pos: usize, len: usize) -> (out: Vec<u8>)
    requires
        pos + len <= buf.len(),
    ensures
        out@ == region(buf@, pos as int, len as int),
{
    let mut out: Vec<u8> = Vec::new();
    let mut k: usize = 0;
    while k < len
        invariant
            k <= len,
            pos + len <= buf.len(),
            out@ == buf@.subrange(pos as int, pos + k),
        decreases len - k,
    {
        out.push(buf[pos + k]);
        assert(out@ =~= buf@.subrange(pos as int, pos + k + 1));
        k += 1;
    }
    out
}

pub fn put_u32(buf: &mut Vec<u8>, pos: usize, v: u32)
    requires
        pos + 4 <= old(buf).len(),
    ensures
        final(buf)@ == overlay(old(buf)@, pos as int, spec_u32_to_le_bytes(v)),
        final(buf).len() == old(buf).len(),
        u32_at(final(buf)@, pos as int) == v,
{
    let bytes = u32_to_le_bytes(v);
    put(buf, pos, &bytes);
    proof {
        lemma_auto_spec_u32_to_from_le_bytes();
        lemma_overlay_same(old(buf)@, pos as int, bytes@);
    }
}

pub fn get_u32(buf: &Vec<u8>, pos: usize) -> (v: u32)
    requires
        pos + 4 <= buf.len(),
    ensures
        v == u32_at(buf@, pos as int),
{
    u32_from_le_bytes(slice_subrange(buf.as_slice(), pos, pos + 4))
}

pub fn put_u64(buf: &mut Vec<u8>, pos: usize, v: u64)
    requires
        pos + 8 <= old(buf).len(),
    ensures
        final(buf)@ == overlay(old(buf)@, pos as int, spec_u64_to_le_bytes(v)),
        final(buf).len() == old(buf).len(),
        u64_at(final(buf)@, pos as int) == v,
{
    let bytes = u64_to_le_bytes(v);
    put(buf, pos, &bytes);
    proof {
        lemma_auto_spec_u64_to_from_le_bytes();
        lemma_overlay_same(old(buf)@, pos as int, bytes@);
    }
}

pub fn get_u64(buf: &Vec<u8>, pos: usize) -> (v: u64)
    requires
        pos + 8 <= buf.len(),
    ensures
        v == u64_at(buf@, pos as int),
{
    u64_from_le_bytes(slice_subrange(buf.as_slice(), pos, pos + 8))
}

/// A fresh block of `len` zero bytes.
pub fn zero_block(len: usize) -> (out: Vec<u8>)
    ensures
        out@ == zeros(len as nat),
{
    let mut out: Vec<u8> = Vec::new();
    let mut k: usize = 0;
    while k < len
        invariant
            k <= len,
            out@ == zeros(k as nat),
        decreases len - k,
    {
        out.push(0u8);
        assert(out@ =~= zeros((k + 1) as nat));
        k += 1;
    }
    out
}

/// A copy of a block of bytes.
pub fn copy_block(src: &Vec<u8>) -> (out: Vec<u8>)
    ensures
        out@ == src@,
{
    let out = get(src, 0, src.len());
    assert(out@ =~= src@);
    out
}

} // verus!
