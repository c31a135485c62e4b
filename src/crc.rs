//! CRC-32 with the reflected polynomial 0xEDB88320, initial value 0xFFFFFFFF
//! and a final complement.

use vstd::prelude::*;

verus! {

pub const CRC32_POLYNOMIAL: u32 = 0xEDB8_8320;

/// One shift of the reflected CRC register.
pub open spec fn crc_shift(c: u32) -> u32 {
    if c & 1 != 0 {
        (c >> 1) ^ CRC32_POLYNOMIAL
    } else {
        c >> 1
    }
}

/// `n` shifts of the register.
pub open spec fn crc_shifts(c: u32, n: nat) -> u32
    decreases n,
{
    if n == 0 {
        c
    } else {
        crc_shift(crc_shifts(c, (n - 1) as nat))
    }
}

/// The register after absorbing one byte.
pub open spec fn crc_absorb(c: u32, b: u8) -> u32 {
    crc_shifts(c ^ (b as u32), 8)
}

/// The register after absorbing every byte of `s`, starting from all ones.
pub open spec fn crc_register(s: Seq<u8>) -> u32
    decreases s.len(),
{
    if s.len() == 0 {
        0xFFFF_FFFFu32
    } else {
        crc_absorb(crc_register(s.drop_last()), s.last())
    }
}

/// The CRC-32 checksum of `s`.
pub open spec fn crc32_spec(s: Seq<u8>) -> u32 {
    !crc_register(s)
}

/// A shift of the register is linear over xor.
pub proof fn lemma_shift_linear(a: u32, b: u32)
    ensures
        crc_shift(a ^ b) == crc_shift(a) ^ crc_shift(b),
{
    assert((if (a ^ b) & 1 != 0 {
        ((a ^ b) >> 1) ^ 0xEDB8_8320u32
    } else {
        (a ^ b) >> 1
    }) == (if a & 1 != 0 {
        (a >> 1) ^ 0xEDB8_8320u32
    } else {
        a >> 1
    }) ^ (if b & 1 != 0 {
        (b >> 1) ^ 0xEDB8_8320u32
    } else {
        b >> 1
    })) by (bit_vector);
}

/// Only the zero register shifts to zero.
pub proof fn lemma_shift_nonzero(a: u32)
    requires
        a != 0,
    ensures
        crc_shift(a) != 0,
{
    assert(a != 0 ==> (if a & 1 != 0 {
        (a >> 1) ^ 0xEDB8_8320u32
    } else {
        a >> 1
    }) != 0) by (bit_vector);
}

pub proof fn lemma_shifts_linear(a: u32, b: u32, n: nat)
    ensures
        crc_shifts(a ^ b, n) == crc_shifts(a, n) ^ crc_shifts(b, n),
    decreases n,
{
    if n > 0 {
        lemma_shifts_linear(a, b, (n - 1) as nat);
        lemma_shift_linear(crc_shifts(a, (n - 1) as nat), crc_shifts(b, (n - 1) as nat));
    }
}

pub proof fn lemma_shifts_nonzero(a: u32, n: nat)
    requires
        a != 0,
    ensures
        crc_shifts(a, n) != 0,
    decreases n,
{
    if n > 0 {
        lemma_shifts_nonzero(a, (n - 1) as nat);
        lemma_shift_nonzero(crc_shifts(a, (n - 1) as nat));
    }
}

/// The registers of two inputs that differ in exactly one byte, before that
/// byte, stay different from that byte on.
proof fn lemma_register_differs(s1: Seq<u8>, s2: Seq<u8>, p: int, k: int)
    requires
        s1.len() == s2.len(),
        0 <= p < k <= s1.len(),
        s1[p] != s2[p],
        forall|j: int| 0 <= j < s1.len() && j != p ==> s1[j] == s2[j],
    ensures
        crc_register(s1.subrange(0, k)) != crc_register(s2.subrange(0, k)),
    decreases k,
{
    let a = s1.subrange(0, k);
    let b = s2.subrange(0, k);
    assert(a.drop_last() == s1.subrange(0, k - 1));
    assert(b.drop_last() == s2.subrange(0, k - 1));
    let r1 = crc_register(s1.subrange(0, k - 1));
    let r2 = crc_register(s2.subrange(0, k - 1));
    let b1 = s1[k - 1];
    let b2 = s2[k - 1];
    lemma_shifts_linear(r1 ^ (b1 as u32), r2 ^ (b2 as u32), 8);
    assert((r1 ^ (b1 as u32)) ^ (r2 ^ (b2 as u32)) == (r1 ^ r2) ^ ((b1 as u32) ^ (b2 as u32))) by (bit_vector);
    if k - 1 == p {
        assert(s1.subrange(0, k - 1) == s2.subrange(0, k - 1));
        assert(r1 ^ r2 == 0) by (bit_vector)
            requires
                r1 == r2,
        ;
        assert((b1 as u32) ^ (b2 as u32) != 0) by (bit_vector)
            requires
                b1 != b2,
        ;
        assert((r1 ^ r2) ^ ((b1 as u32) ^ (b2 as u32)) == (b1 as u32) ^ (b2 as u32)) by (bit_vector)
            requires
                r1 ^ r2 == 0,
        ;
        lemma_shifts_nonzero((b1 as u32) ^ (b2 as u32), 8);
    } else {
        lemma_register_differs(s1, s2, p, k - 1);
        assert(r1 ^ r2 != 0) by (bit_vector)
            requires
                r1 != r2,
        ;
        assert((b1 as u32) ^ (b2 as u32) == 0) by (bit_vector)
            requires
                b1 == b2,
        ;
        assert((r1 ^ r2) ^ ((b1 as u32) ^ (b2 as u32)) == r1 ^ r2) by (bit_vector)
            requires
                (b1 as u32) ^ (b2 as u32) == 0,
        ;
        lemma_shifts_nonzero(r1 ^ r2, 8);
    }
    let x = crc_shifts(r1 ^ (b1 as u32), 8);
    let y = crc_shifts(r2 ^ (b2 as u32), 8);
    assert(x ^ y != 0 ==> x != y) by (bit_vector);
}

/// The checksum detects every change of a single byte.
pub proof fn lemma_crc32_detects_one_byte(s1: Seq<u8>, s2: Seq<u8>, p: int)
    requires
        s1.len() == s2.len(),
        0 <= p < s1.len(),
        s1[p] != s2[p],
        forall|j: int| 0 <= j < s1.len() && j != p ==> s1[j] == s2[j],
    ensures
        crc32_spec(s1) != crc32_spec(s2),
{
    lemma_register_differs(s1, s2, p, s1.len() as int);
    assert(s1.subrange(0, s1.len() as int) == s1);
    assert(s2.subrange(0, s2.len() as int) == s2);
    let r1 = crc_register(s1);
    let r2 = crc_register(s2);
    assert(r1 != r2 ==> !r1 != !r2) by (bit_vector);
}

/// Computes the CRC-32 checksum of `bytes`.
pub fn crc32(bytes: &[u8]) -> (r: u32)
    ensures
        r == crc32_spec(bytes@),
{
    let mut crc: u32 = 0xFFFF_FFFF;
    let mut i: usize = 0;
    while i < bytes.len()
        invariant
            i <= bytes@.len(),
            crc == crc_register(bytes@.subrange(0, i as int)),
        decreases bytes@.len() - i,
    {
        let ghost before = crc;
        crc ^= bytes[i] as u32;
        let ghost start = crc;
        let mut bit: usize = 0;
        while bit < 8
            invariant
                bit <= 8,
                crc == crc_shifts(start, bit as nat),
            decreases 8 - bit,
        {
            if (crc & 1) != 0 {
                crc = (crc >> 1) ^ CRC32_POLYNOMIAL;
            } else {
                crc >>= 1;
            }
            bit += 1;
        }
        proof {
            let s = bytes@.subrange(0, i + 1);
            assert(s.drop_last() == bytes@.subrange(0, i as int));
            assert(s.last() == bytes@[i as int]);
        }
        i += 1;
    }
    proof {
        assert(bytes@.subrange(0, bytes@.len() as int) == bytes@);
    }
    !crc
}

} // verus!
