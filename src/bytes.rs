//! Byte-level helpers: little-endian integers and copies between byte buffers.

use vstd::prelude::*;

verus! {

/// Little-endian bytes of a `u32`.
pub open spec fn le32(x: u32) -> Seq<u8> {
    seq![x as u8, (x >> 8) as u8, (x >> 16) as u8, (x >> 24) as u8]
}

/// The `u32` whose little-endian bytes are the first four of `s`.
pub open spec fn from_le32(s: Seq<u8>) -> u32 {
    (s[0] as u32) | ((s[1] as u32) << 8) | ((s[2] as u32) << 16) | ((s[3] as u32) << 24)
}

/// Little-endian bytes of a `u16`.
pub open spec fn le16(x: u16) -> Seq<u8> {
    seq![x as u8, (x >> 8) as u8]
}

/// The `u16` whose little-endian bytes are the first two of `s`.
pub open spec fn from_le16(s: Seq<u8>) -> u16 {
    (s[0] as u16) | ((s[1] as u16) << 8)
}

pub open spec fn zeros(n: nat) -> Seq<u8> {
    Seq::new(n, |i: int| 0u8)
}

pub open spec fn all_bytes_equal(s: Seq<u8>, b: u8) -> bool {
    forall|i: int| 0 <= i < s.len() ==> s[i] == b
}

pub proof fn lemma_le32_round_trip(x: u32)
    ensures
        from_le32(le32(x)) == x,
        le32(x).len() == 4,
{
    let b0 = x as u8;
    let b1 = (x >> 8) as u8;
    let b2 = (x >> 16) as u8;
    let b3 = (x >> 24) as u8;
    assert(((b0 as u32) | ((b1 as u32) << 8) | ((b2 as u32) << 16) | ((b3 as u32) << 24)) == x)
        by (bit_vector)
        requires
            b0 == x as u8,
            b1 == (x >> 8) as u8,
            b2 == (x >> 16) as u8,
            b3 == (x >> 24) as u8,
    ;
}

pub proof fn lemma_le16_round_trip(x: u16)
    ensures
        from_le16(le16(x)) == x,
        le16(x).len() == 2,
{
    let b0 = x as u8;
    let b1 = (x >> 8) as u8;
    assert(((b0 as u16) | ((b1 as u16) << 8)) == x) by (bit_vector)
        requires
            b0 == x as u8,
            b1 == (x >> 8) as u8,
    ;
}

/// Distinct four-byte strings give distinct little-endian values.
pub proof fn lemma_from_le32_injective(a: Seq<u8>, b: Seq<u8>)
    requires
        a.len() == 4,
        b.len() == 4,
        a != b,
    ensures
        from_le32(a) != from_le32(b),
{
    let (a0, a1, a2, a3) = (a[0], a[1], a[2], a[3]);
    let (b0, b1, b2, b3) = (b[0], b[1], b[2], b[3]);
    assert(((a0 as u32) | ((a1 as u32) << 8) | ((a2 as u32) << 16) | ((a3 as u32) << 24)) == ((
    b0 as u32) | ((b1 as u32) << 8) | ((b2 as u32) << 16) | ((b3 as u32) << 24)) ==> a0 == b0 && a1
        == b1 && a2 == b2 && a3 == b3) by (bit_vector);
    if a0 == b0 && a1 == b1 && a2 == b2 && a3 == b3 {
        assert(a =~= b);
    }
}

/// Appends `src` to `out`.
pub fn extend_bytes(out: &mut Vec<u8>, src: &[u8])
    ensures
        final(out)@ == old(out)@ + src@,
{
    let mut i: usize = 0;
    while i < src.len()
        invariant
            i <= src@.len(),
            out@ == old(out)@ + src@.subrange(0, i as int),
        decreases src@.len() - i,
    {
        out.push(src[i]);
        i += 1;
    }
    proof {
        assert(src@.subrange(0, src@.len() as int) == src@);
    }
}

/// Appends `n` zero bytes to `out`.
pub fn push_zeros(out: &mut Vec<u8>, n: usize)
    ensures
        final(out)@ == old(out)@ + zeros(n as nat),
{
    let mut i: usize = 0;
    while i < n
        invariant
            i <= n,
            out@ == old(out)@ + zeros(i as nat),
        decreases n - i,
    {
        out.push(0u8);
        i += 1;
        proof {
            assert(zeros(i as nat) == zeros((i - 1) as nat).push(0u8));
        }
    }
}

/// Appends the little-endian bytes of `x` to `out`.
pub fn push_le32(out: &mut Vec<u8>, x: u32)
    ensures
        final(out)@ == old(out)@ + le32(x),
{
    out.push(#[verifier::truncate] (x as u8));
    out.push(#[verifier::truncate] ((x >> 8) as u8));
    out.push(#[verifier::truncate] ((x >> 16) as u8));
    out.push(#[verifier::truncate] ((x >> 24) as u8));
}

/// Appends the little-endian bytes of `x` to `out`.
pub fn push_le16(out: &mut Vec<u8>, x: u16)
    ensures
        final(out)@ == old(out)@ + le16(x),
{
    out.push(#[verifier::truncate] (x as u8));
    out.push(#[verifier::truncate] ((x >> 8) as u8));
}

/// Reads a little-endian `u32` at `at`.
pub fn read_le32(bytes: &[u8], at: usize) -> (r: u32)
    requires
        at + 4 <= bytes@.len(),
    ensures
        r == from_le32(bytes@.subrange(at as int, at + 4)),
{
    (bytes[at] as u32) | ((bytes[at + 1] as u32) << 8) | ((bytes[at + 2] as u32) << 16) | ((
    bytes[at + 3] as u32) << 24)
}

/// Reads a little-endian `u16` at `at`.
pub fn read_le16(bytes: &[u8], at: usize) -> (r: u16)
    requires
        at + 2 <= bytes@.len(),
    ensures
        r == from_le16(bytes@.subrange(at as int, at + 2)),
{
    (bytes[at] as u16) | ((bytes[at + 1] as u16) << 8)
}

/// Whether every byte of `bytes` equals `b`.
pub fn all_equal(bytes: &[u8], b: u8) -> (r: bool)
    ensures
        r == all_bytes_equal(bytes@, b),
{
    let mut i: usize = 0;
    while i < bytes.len()
        invariant
            i <= bytes@.len(),
            all_bytes_equal(bytes@.subrange(0, i as int), b),
        decreases bytes@.len() - i,
    {
        if bytes[i] != b {
            return false;
        }
        i += 1;
    }
    proof {
        assert(bytes@.subrange(0, bytes@.len() as int) == bytes@);
    }
    true
}

/// Whether `a` and `b` hold the same bytes.
pub fn same_bytes(a: &[u8], b: &[u8]) -> (r: bool)
    ensures
        r == (a@ == b@),
{
    if a.len() != b.len() {
        return false;
    }
    let mut i: usize = 0;
    while i < a.len()
        invariant
            i <= a@.len(),
            a@.len() == b@.len(),
            a@.subrange(0, i as int) == b@.subrange(0, i as int),
        decreases a@.len() - i,
    {
        if a[i] != b[i] {
            assert(a@[i as int] != b@[i as int]);
            return false;
        }
        proof {
            assert(a@.subrange(0, i + 1) == a@.subrange(0, i as int).push(a@[i as int]));
            assert(b@.subrange(0, i + 1) == b@.subrange(0, i as int).push(b@[i as int]));
        }
        i += 1;
    }
    proof {
        assert(a@.subrange(0, a@.len() as int) == a@);
        assert(b@.subrange(0, b@.len() as int) == b@);
    }
    true
}

/// Copies `len` bytes of `src`, starting at `at`, into a new vector.
pub fn copy_range(src: &[u8], at: usize, len: usize) -> (r: Vec<u8>)
    requires
        at + len <= src@.len(),
    ensures
        r@ == src@.subrange(at as int, at + len),
{
    let mut out: Vec<u8> = Vec::with_capacity(len);
    let mut i: usize = 0;
    let n: usize = src.len();
    while i < len
        invariant
            i <= len,
            at + len <= src@.len(),
            src@.len() == n,
            out@ == src@.subrange(at as int, at + i),
        decreases len - i,
    {
        out.push(src[at + i]);
        i += 1;
    }
    out
}

/// Copies `N` bytes of `src`, starting at `at`, into a new array.
pub fn array_from<const N: usize>(src: &[u8], at: usize) -> (r: [u8; N])
    requires
        at + N <= src@.len(),
    ensures
        r@ == src@.subrange(at as int, at + N),
{
    let mut r: [u8; N] = [0u8; N];
    let mut i: usize = 0;
    let n: usize = src.len();
    while i < N
        invariant
            i <= N,
            at + N <= src@.len(),
            src@.len() == n,
            r@.len() == N,
            r@.subrange(0, i as int) == src@.subrange(at as int, at + i),
        decreases N - i,
    {
        r[i] = src[at + i];
        proof {
            assert(r@.subrange(0, i + 1) == src@.subrange(at as int, at + i + 1));
        }
        i += 1;
    }
    proof {
        assert(r@.subrange(0, N as int) == r@);
    }
    r
}

/// `s` with the bytes from `at` on replaced by `src`.
pub open spec fn overwrite(s: Seq<u8>, at: int, src: Seq<u8>) -> Seq<u8> {
    s.subrange(0, at) + src + s.subrange(at + src.len(), s.len() as int)
}

/// Writes `src` into `dst` at `at`.
pub fn write_range<const N: usize>(dst: &mut [u8; N], at: usize, src: &[u8])
    requires
        at + src@.len() <= N,
    ensures
        final(dst)@ == overwrite(old(dst)@, at as int, src@),
{
    let mut i: usize = 0;
    while i < src.len()
        invariant
            i <= src@.len(),
            at + src@.len() <= N,
            dst@.len() == N,
            dst@ == overwrite(old(dst)@, at as int, src@.subrange(0, i as int)),
        decreases src@.len() - i,
    {
        dst[at + i] = src[i];
        i += 1;
        proof {
            assert(dst@ == overwrite(old(dst)@, at as int, src@.subrange(0, i as int)));
        }
    }
    proof {
        assert(src@.subrange(0, src@.len() as int) == src@);
    }
}

/// `s` with the bytes in `from..to` set to `b`.
pub open spec fn filled(s: Seq<u8>, from: int, to: int, b: u8) -> Seq<u8> {
    Seq::new(s.len(), |j: int| if from <= j < to { b } else { s[j] })
}

/// Sets every byte of `dst` in `from..to` to `b`.
pub fn fill_range<const N: usize>(dst: &mut [u8; N], from: usize, to: usize, b: u8)
    requires
        from <= to <= N,
    ensures
        final(dst)@ == filled(old(dst)@, from as int, to as int, b),
{
    let mut i: usize = from;
    while i < to
        invariant
            from <= i <= to <= N,
            dst@.len() == N,
            dst@ == filled(old(dst)@, from as int, i as int, b),
        decreases to - i,
    {
        dst[i] = b;
        i += 1;
        proof {
            assert(dst@ == filled(old(dst)@, from as int, i as int, b));
        }
    }
}

} // verus!
