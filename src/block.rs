//! The block record as this engine sees it: an encoded byte string of bounded
//! length whose first byte is never zero. Zero bytes after the last non-zero
//! byte are padding, not part of the block, so a block zero-filled into a slot
//! is recovered exactly when the slot is parsed.

use crate::MAX_BLOCK_SIZE;
use vstd::prelude::*;

verus! {

/// Bytes that form a validly constructed block: at least one byte, at most
/// `MAX_BLOCK_SIZE`, and a non-zero first byte (the occupied-slot sentinel).
pub open spec fn valid_block_bytes(s: Seq<u8>) -> bool {
    &&& 1 <= s.len() <= MAX_BLOCK_SIZE
    &&& s[0] != 0
}

/// The canonical encoding of a block: valid block bytes that do not end in a
/// zero byte.
pub open spec fn canonical_block_bytes(s: Seq<u8>) -> bool {
    &&& valid_block_bytes(s)
    &&& s.last() != 0
}

/// `s` without its trailing zero bytes.
pub open spec fn trimmed(s: Seq<u8>) -> Seq<u8>
    decreases s.len(),
{
    if s.len() == 0 {
        s
    } else if s.last() == 0 {
        trimmed(s.drop_last())
    } else {
        s
    }
}

/// Trimming valid block bytes gives a canonical encoding that is a prefix of
/// them.
pub proof fn lemma_trimmed_canonical(s: Seq<u8>)
    requires
        valid_block_bytes(s),
    ensures
        canonical_block_bytes(trimmed(s)),
        trimmed(s).len() <= s.len(),
        trimmed(s) == s.subrange(0, trimmed(s).len() as int),
    decreases s.len(),
{
    if s.last() == 0 {
        let p = s.drop_last();
        if p.len() == 0 {
            assert(s[0] == s.last());
        } else {
            lemma_trimmed_canonical(p);
            assert(trimmed(p) =~= s.subrange(0, trimmed(p).len() as int));
        }
    } else {
        assert(s.subrange(0, s.len() as int) =~= s);
    }
}

/// Zero-filling a canonical encoding and trimming it again gives it back.
pub proof fn lemma_trim_zero_filled(c: Seq<u8>, n: nat)
    requires
        c.len() >= 1,
        c.last() != 0,
    ensures
        trimmed(c + Seq::new(n, |i: int| 0u8)) == c,
    decreases n,
{
    let t = c + Seq::new(n, |i: int| 0u8);
    if n > 0 {
        assert(t.drop_last() =~= c + Seq::new((n - 1) as nat, |i: int| 0u8));
        lemma_trim_zero_filled(c, (n - 1) as nat);
    } else {
        assert(t =~= c);
    }
}

/// `s` followed by zero bytes up to `MAX_BLOCK_SIZE`.
pub open spec fn padded(s: Seq<u8>) -> Seq<u8> {
    s + Seq::new((MAX_BLOCK_SIZE - s.len()) as nat, |i: int| 0u8)
}

/// Returned by [`Block::from_bytes`] for bytes that do not form a block.
#[derive(Debug, Clone, Copy, PartialEq, Eq, Structural)]
pub struct InvalidBlockBytes;

/// An encoded block.
#[derive(Debug)]
pub struct Block {
    bytes: Vec<u8>,
}

impl View for Block {
    type V = Seq<u8>;

    closed spec fn view(&self) -> Seq<u8> {
        self.bytes@
    }
}

impl Block {
    #[verifier::type_invariant]
    closed spec fn inv(self) -> bool {
        canonical_block_bytes(self.bytes@)
    }

    /// Parses a block from a buffer that starts with its encoding; zero bytes
    /// after the last non-zero byte are padding and are dropped.
    pub fn from_bytes(bytes: &[u8]) -> (r: Result<Block, InvalidBlockBytes>)
        ensures
            r is Ok <==> valid_block_bytes(bytes@),
            r matches Ok(b) ==> b@ == trimmed(bytes@),
    {
        if bytes.len() == 0 || bytes.len() > MAX_BLOCK_SIZE || bytes[0] == 0 {
            return Err(InvalidBlockBytes);
        }
        let mut end: usize = bytes.len();
        proof {
            assert(bytes@.subrange(0, end as int) =~= bytes@);
        }
        while bytes[end - 1] == 0
            invariant
                1 <= end <= bytes@.len(),
                bytes@[0] != 0,
                trimmed(bytes@) == trimmed(bytes@.subrange(0, end as int)),
            decreases end,
        {
            proof {
                assert(bytes@.subrange(0, end as int).drop_last() =~= bytes@.subrange(0, end - 1));
            }
            end -= 1;
        }
        let mut v: Vec<u8> = Vec::with_capacity(end);
        let mut i: usize = 0;
        while i < end
            invariant
                i <= end <= bytes@.len(),
                v@ == bytes@.subrange(0, i as int),
            decreases end - i,
        {
            v.push(bytes[i]);
            i += 1;
        }
        proof {
            lemma_trimmed_canonical(bytes@);
        }
        Ok(Block { bytes: v })
    }

    /// The encoded bytes of the block.
    pub fn as_bytes(&self) -> (r: &[u8])
        ensures
            r@ == self@,
            canonical_block_bytes(self@),
    {
        proof {
            use_type_invariant(self);
        }
        self.bytes.as_slice()
    }

    /// The encoded length of the block.
    pub fn len(&self) -> (r: usize)
        ensures
            r == self@.len(),
            1 <= r <= MAX_BLOCK_SIZE,
    {
        proof {
            use_type_invariant(self);
        }
        self.bytes.len()
    }

    /// The block zero-filled to `MAX_BLOCK_SIZE` bytes, as it lies in a slot.
    pub fn padded_bytes(&self) -> (r: Vec<u8>)
        ensures
            r@ == padded(self@),
            r@.len() == MAX_BLOCK_SIZE,
            canonical_block_bytes(self@),
    {
        proof {
            use_type_invariant(self);
        }
        let mut v: Vec<u8> = Vec::with_capacity(MAX_BLOCK_SIZE);
        let mut i: usize = 0;
        while i < MAX_BLOCK_SIZE
            invariant
                i <= MAX_BLOCK_SIZE,
                self@.len() <= MAX_BLOCK_SIZE,
                v@ == padded(self@).subrange(0, i as int),
            decreases MAX_BLOCK_SIZE - i,
        {
            if i < self.bytes.len() {
                v.push(self.bytes[i]);
            } else {
                v.push(0u8);
            }
            i += 1;
        }
        v
    }
}

} // verus!
