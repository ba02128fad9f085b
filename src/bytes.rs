//! Little-endian integer fields inside byte buffers.
use vstd::prelude::*;

verus! {

/// The two little-endian bytes of `x`.
pub open spec fn le16(x: u16) -> Seq<u8> {
    seq![(x % 256) as u8, (x / 256) as u8]
}

/// The four little-endian bytes of `x`.
pub open spec fn le32(x: u32) -> Seq<u8> {
    seq![(x % 256) as u8, ((x / 256) % 256) as u8, ((x / 65536) % 256) as u8, (x / 16777216) as u8]
}

/// The eight little-endian bytes of `x`.
pub open spec fn le64(x: u64) -> Seq<u8> {
    le32((x % 4294967296) as u32) + le32((x / 4294967296) as u32)
}

/// The `u16` stored little-endian at `b[i..i + 2]`.
pub open spec fn get_le16(b: Seq<u8>, i: int) -> u16 {
    (b[i] + 256 * b[i + 1]) as u16
}

/// The `u32` stored little-endian at `b[i..i + 4]`.
pub open spec fn get_le32(b: Seq<u8>, i: int) -> u32 {
    (b[i] + 256 * b[i + 1] + 65536 * b[i + 2] + 16777216 * b[i + 3]) as u32
}

/// The `u64` stored little-endian at `b[i..i + 8]`.
pub open spec fn get_le64(b: Seq<u8>, i: int) -> u64 {
    (get_le32(b, i) + 4294967296 * get_le32(b, i + 4)) as u64
}

/// `b` holds the bytes `f` from position `i` on.
pub open spec fn holds_at(b: Seq<u8>, i: int, f: Seq<u8>) -> bool {
    &&& 0 <= i
    &&& i + f.len() <= b.len()
    &&& forall|k: int| 0 <= k < f.len() ==> #[trigger] b[i + k] == f[k]
}

pub proof fn lemma_le16(b: Seq<u8>, i: int, x: u16)
    requires
        holds_at(b, i, le16(x)),
    ensures
        get_le16(b, i) == x,
{
    assert(b[i + 0] == le16(x)[0]);
    assert(b[i + 1] == le16(x)[1]);
    assert((x % 256) + 256 * (x / 256) == x) by (nonlinear_arith);
}

pub proof fn lemma_le32(b: Seq<u8>, i: int, x: u32)
    requires
        holds_at(b, i, le32(x)),
    ensures
        get_le32(b, i) == x,
{
    assert(b[i + 0] == le32(x)[0]);
    assert(b[i + 1] == le32(x)[1]);
    assert(b[i + 2] == le32(x)[2]);
    assert(b[i + 3] == le32(x)[3]);
    assert((x % 256) + 256 * ((x / 256) % 256) + 65536 * ((x / 65536) % 256) + 16777216 * (x
        / 16777216) == x) by (bit_vector);
}

pub proof fn lemma_le64(b: Seq<u8>, i: int, x: u64)
    requires
        holds_at(b, i, le64(x)),
    ensures
        get_le64(b, i) == x,
{
    let lo = (x % 4294967296) as u32;
    let hi = (x / 4294967296) as u32;
    assert(holds_at(b, i, le32(lo))) by {
        assert forall|k: int| 0 <= k < 4 implies #[trigger] b[i + k] == le32(lo)[k] by {
            assert(b[i + k] == le64(x)[k]);
        }
    }
    assert(holds_at(b, i + 4, le32(hi))) by {
        assert forall|k: int| 0 <= k < 4 implies #[trigger] b[i + 4 + k] == le32(hi)[k] by {
            assert(b[i + (4 + k)] == le64(x)[4 + k]);
        }
    }
    lemma_le32(b, i, lo);
    lemma_le32(b, i + 4, hi);
    assert(x % 4294967296 + 4294967296 * (x / 4294967296) == x) by (nonlinear_arith);
}

/// Reads the little-endian `u16` at `b[i..i + 2]`.
pub fn read_u16_le(b: &[u8], i: usize) -> (r: u16)
    requires
        i + 2 <= b@.len(),
    ensures
        r == get_le16(b@, i as int),
{
    b[i] as u16 + (b[i + 1] as u16) * 256
}

/// Reads the little-endian `u32` at `b[i..i + 4]`.
pub fn read_u32_le(b: &[u8], i: usize) -> (r: u32)
    requires
        i + 4 <= b@.len(),
    ensures
        r == get_le32(b@, i as int),
{
    b[i] as u32 + (b[i + 1] as u32) * 256 + (b[i + 2] as u32) * 65536 + (b[i + 3] as u32)
        * 16777216
}

/// Reads the little-endian `u64` at `b[i..i + 8]`.
pub fn read_u64_le(b: &[u8], i: usize) -> (r: u64)
    requires
        i + 8 <= b@.len(),
    ensures
        r == get_le64(b@, i as int),
{
    let _len = b.len();
    let lo = read_u32_le(b, i);
    let hi = read_u32_le(b, i + 4);
    lo as u64 + (hi as u64) * 4294967296
}

/// Appends the little-endian bytes of `x`.
pub fn push_u16_le(v: &mut Vec<u8>, x: u16)
    ensures
        final(v)@ == old(v)@ + le16(x),
{
    v.push((x % 256) as u8);
    v.push((x / 256) as u8);
    assert(final(v)@ =~= old(v)@ + le16(x));
}

/// Appends the little-endian bytes of `x`.
pub fn push_u32_le(v: &mut Vec<u8>, x: u32)
    ensures
        final(v)@ == old(v)@ + le32(x),
{
    v.push((x % 256) as u8);
    v.push(((x / 256) % 256) as u8);
    v.push(((x / 65536) % 256) as u8);
    v.push((x / 16777216) as u8);
    assert(final(v)@ =~= old(v)@ + le32(x));
}

/// Appends the little-endian bytes of `x`.
pub fn push_u64_le(v: &mut Vec<u8>, x: u64)
    ensures
        final(v)@ == old(v)@ + le64(x),
{
    push_u32_le(v, (x % 4294967296) as u32);
    push_u32_le(v, (x / 4294967296) as u32);
    assert(final(v)@ =~= old(v)@ + le64(x));
}

/// Appends all of `src`.
pub fn push_all(v: &mut Vec<u8>, src: &[u8])
    ensures
        final(v)@ == old(v)@ + src@,
{
    let mut i: usize = 0;
    while i < src.len()
        invariant
            i <= src@.len(),
            v@ == old(v)@ + src@.subrange(0, i as int),
        decreases src@.len() - i,
    {
        v.push(src[i]);
        i = i + 1;
        assert(v@ =~= old(v)@ + src@.subrange(0, i as int));
    }
    assert(src@.subrange(0, src@.len() as int) =~= src@);
}

/// Appends `n` zero bytes.
pub fn push_zeros(v: &mut Vec<u8>, n: usize)
    ensures
        final(v)@ == old(v)@ + Seq::new(n as nat, |k: int| 0u8),
{
    let mut i: usize = 0;
    while i < n
        invariant
            i <= n,
            v@ == old(v)@ + Seq::new(i as nat, |k: int| 0u8),
        decreases n - i,
    {
        v.push(0u8);
        i = i + 1;
        assert(v@ =~= old(v)@ + Seq::new(i as nat, |k: int| 0u8));
    }
}

/// A copy of `b[start..end]`.
pub fn copy_range(b: &[u8], start: usize, end: usize) -> (r: Vec<u8>)
    requires
        start <= end <= b@.len(),
    ensures
        r@ == b@.subrange(start as int, end as int),
{
    let mut r: Vec<u8> = Vec::new();
    let mut i: usize = start;
    while i < end
        invariant
            start <= i <= end,
            end <= b@.len(),
            r@ == b@.subrange(start as int, i as int),
        decreases end - i,
    {
        r.push(b[i]);
        i = i + 1;
        assert(r@ =~= b@.subrange(start as int, i as int));
    }
    r
}

/// Whether `a` and `b` hold the same bytes.
pub fn bytes_eq(a: &[u8], b: &[u8]) -> (r: bool)
    ensures
        r == (a@ == b@),
{
    if a.len() != b.len() {
        return false;
    }
    let mut i: usize = 0;
    while i < a.len()
        invariant
            a@.len() == b@.len(),
            i <= a@.len(),
            forall|k: int| 0 <= k < i ==> a@[k] == b@[k],
        decreases a@.len() - i,
    {
        if a[i] != b[i] {
            return false;
        }
        i = i + 1;
    }
    assert(a@ =~= b@);
    true
}

/// Whether `b` begins with `prefix`.
pub fn starts_with(b: &[u8], prefix: &[u8]) -> (r: bool)
    ensures
        r == (prefix@.len() <= b@.len() && b@.subrange(0, prefix@.len() as int) == prefix@),
{
    if prefix.len() > b.len() {
        return false;
    }
    let mut i: usize = 0;
    while i < prefix.len()
        invariant
            prefix@.len() <= b@.len(),
            i <= prefix@.len(),
            forall|k: int| 0 <= k < i ==> b@[k] == prefix@[k],
        decreases prefix@.len() - i,
    {
        if b[i] != prefix[i] {
            assert(b@.subrange(0, prefix@.len() as int)[i as int] != prefix@[i as int]);
            return false;
        }
        i = i + 1;
    }
    assert(b@.subrange(0, prefix@.len() as int) =~= prefix@);
    true
}

} // verus!
