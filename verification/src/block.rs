//! A single cipher block: a fixed 16-byte buffer with the operations the
//! CMAC construction needs (XOR, copying, zeroing, GF(2^128) doubling and
//! constant-time equality).

use vstd::prelude::*;

verus! {

/// The block size in bytes; every construction here is specialized to
/// 128-bit (AES-sized) blocks.
pub const SIZE: usize = 16;

/// The all-zero block, as a sequence.
pub open spec fn zero_seq() -> Seq<u8> {
    Seq::new(16, |i: int| 0u8)
}

/// Byte-wise XOR of two 16-byte sequences.
pub open spec fn xor_seq(a: Seq<u8>, b: Seq<u8>) -> Seq<u8> {
    Seq::new(16, |i: int| a[i] ^ b[i])
}

/// `a` with `patch` XORed in, starting at offset `at`; bytes outside
/// `at .. at + patch.len()` are untouched.
pub open spec fn xor_at(a: Seq<u8>, at: int, patch: Seq<u8>) -> Seq<u8> {
    Seq::new(16, |i: int|
        if at <= i < at + patch.len() {
            a[i] ^ patch[i - at]
        } else {
            a[i]
        })
}

/// A byte sequence of length at most 16, right-padded with zero bytes to a
/// full block.
pub open spec fn pad_seq(s: Seq<u8>) -> Seq<u8> {
    Seq::new(16, |i: int| if i < s.len() { s[i] } else { 0u8 })
}

/// The GF(2^128) "doubling" of a block used for CMAC subkey derivation:
/// the 16 bytes, read as a big-endian 128-bit value, are shifted left by
/// one bit, and if the original most-significant bit was set, the
/// reduction constant 0x87 is XORed into the least-significant byte.
pub open spec fn dbl_seq(a: Seq<u8>) -> Seq<u8> {
    Seq::new(16, |i: int|
        if i < 15 {
            (a[i] << 1) | (a[i + 1] >> 7)
        } else {
            (a[15] << 1) ^ (if a[0] >> 7 == 1 { 0x87u8 } else { 0u8 })
        })
}

/// A block acceptable to pass to a block cipher.
pub struct Block {
    bytes: [u8; 16],
}

impl View for Block {
    type V = Seq<u8>;

    closed spec fn view(&self) -> Seq<u8> {
        self.bytes@
    }
}

/// A block always views as exactly 16 bytes.
pub broadcast proof fn lemma_block_view_len(b: Block)
    ensures
        #[trigger] b@.len() == 16,
{
}

/// Relies on subtle's `ConstantTimeEq` for byte slices: the returned
/// `Choice` unwraps to 1 exactly when the two slices have equal length and
/// equal contents (here both are 16 bytes long).
#[verifier::external_body]
fn ct_eq_bytes(a: &[u8; 16], b: &[u8; 16]) -> (r: bool)
    ensures
        r == (a@ == b@),
{
    bool::from(subtle::ConstantTimeEq::ct_eq(a.as_slice(), b.as_slice()))
}

impl Block {
    /// Create a new block, initialized to zero.
    pub fn new() -> (r: Block)
        ensures
            r@ == zero_seq(),
    {
        let r = Block { bytes: [0u8; 16] };
        proof {
            assert(r@ =~= zero_seq());
        }
        r
    }

    /// Create a block holding the given 16 bytes.
    pub fn from_bytes(buf: [u8; 16]) -> (r: Block)
        ensures
            r@ == buf@,
    {
        Block { bytes: buf }
    }

    /// Create a block from a sequence of at most 16 bytes, right-padded
    /// with zero.
    pub fn from_slice(buf: &[u8]) -> (r: Block)
        requires
            buf@.len() <= 16,
        ensures
            r@ == pad_seq(buf@),
    {
        let mut r = Block::new();
        let mut i: usize = 0;
        while i < buf.len()
            invariant
                buf@.len() <= 16,
                i <= buf@.len(),
                r@.len() == 16,
                forall|j: int| 0 <= j < i ==> r@[j] == buf@[j],
                forall|j: int| i <= j < 16 ==> r@[j] == 0u8,
            decreases buf@.len() - i,
        {
            r.bytes[i] = buf[i];
            i += 1;
        }
        proof {
            assert(r@ =~= pad_seq(buf@));
        }
        r
    }

    /// Read access to the underlying bytes.
    pub fn as_bytes(&self) -> (r: &[u8; 16])
        ensures
            r@ == self@,
    {
        &self.bytes
    }

    /// XOR `count` bytes of `src`, starting at `src_start`, into this block
    /// at offset `at`.
    pub fn xor_range(&mut self, src: &[u8], src_start: usize, at: usize, count: usize)
        requires
            at + count <= 16,
            src_start + count <= src@.len(),
        ensures
            final(self)@ == xor_at(old(self)@, at as int, src@.subrange(src_start as int, src_start + count)),
    {
        let n: usize = src.len();
        let mut i: usize = 0;
        while i < count
            invariant
                i <= count,
                at + count <= 16,
                src_start + count <= n,
                n == src@.len(),
                self@.len() == 16,
                forall|j: int| at <= j < at + i ==> self@[j] == (old(self)@[j] ^ src@[src_start + j - at]),
                forall|j: int| 0 <= j < 16 && !(at <= j < at + i) ==> self@[j] == old(self)@[j],
            decreases count - i,
        {
            self.bytes[at + i] = self.bytes[at + i] ^ src[src_start + i];
            i += 1;
        }
        proof {
            assert(self@ =~= xor_at(old(self)@, at as int, src@.subrange(src_start as int, src_start + count)));
        }
    }

    /// XOR the other block-sized slice into this one.
    pub fn xor_in_place(&mut self, other: &[u8])
        requires
            other@.len() == 16,
        ensures
            final(self)@ == xor_seq(old(self)@, other@),
    {
        self.xor_range(other, 0, 0, 16);
        proof {
            assert(other@.subrange(0, 16) =~= other@);
            assert(xor_at(old(self)@, 0, other@) =~= xor_seq(old(self)@, other@));
        }
    }

    /// XOR a single byte into this block at the given offset.
    pub fn xor_byte_at(&mut self, at: usize, v: u8)
        requires
            at < 16,
        ensures
            final(self)@ == old(self)@.update(at as int, old(self)@[at as int] ^ v),
    {
        self.bytes[at] = self.bytes[at] ^ v;
        proof {
            assert(self@ =~= old(self)@.update(at as int, old(self)@[at as int] ^ v));
        }
    }

    /// Copy the contents of the other block into this one.
    pub fn copy_from_block(&mut self, other: &Block)
        ensures
            final(self)@ == other@,
    {
        self.bytes = other.bytes;
    }

    /// Perform the GF(2^128) doubling operation used for CMAC subkey
    /// derivation.
    pub fn dbl(&mut self)
        ensures
            final(self)@ == dbl_seq(old(self)@),
    {
        let reduce: u8 = if self.bytes[0] >> 7 == 1 { 0x87 } else { 0 };
        let mut i: usize = 0;
        while i < 15
            invariant
                i <= 15,
                self@.len() == 16,
                reduce == (if old(self)@[0] >> 7 == 1 { 0x87u8 } else { 0u8 }),
                forall|j: int| 0 <= j < i ==> self@[j] == ((old(self)@[j] << 1) | (old(self)@[j + 1] >> 7)),
                forall|j: int| i <= j < 16 ==> self@[j] == old(self)@[j],
            decreases 15 - i,
        {
            self.bytes[i] = (self.bytes[i] << 1) | (self.bytes[i + 1] >> 7);
            i += 1;
        }
        self.bytes[15] = (self.bytes[15] << 1) ^ reduce;
        proof {
            assert(self@ =~= dbl_seq(old(self)@));
        }
    }

    /// Overwrite all 16 bytes with zero.
    pub fn clear(&mut self)
        ensures
            final(self)@ == zero_seq(),
        opens_invariants none
        no_unwind
    {
        let mut i: usize = 0;
        while i < 16
            invariant
                i <= 16,
                self@.len() == 16,
                forall|j: int| 0 <= j < i ==> self@[j] == 0u8,
            decreases 16 - i,
        {
            self.bytes[i] = 0;
            i += 1;
        }
        proof {
            assert(self@ =~= zero_seq());
        }
    }

    /// Constant-time equality of two blocks: the comparison inspects every
    /// byte with no early exit on a mismatch, so its timing leaks nothing
    /// about how far two tags or keys agree.
    pub fn ct_eq(&self, other: &Block) -> (r: bool)
        ensures
            r == (self@ == other@),
    {
        ct_eq_bytes(&self.bytes, &other.bytes)
    }
}

impl Default for Block {
    /// A zero-filled block.
    fn default() -> (r: Block)
        ensures
            r@ == zero_seq(),
    {
        Block::new()
    }
}

impl Drop for Block {
    /// Zero the block when its storage is released, so no secret material
    /// is left behind in freed memory.
    fn drop(&mut self)
        opens_invariants none
        no_unwind
    {
        self.clear();
    }
}

/// Doubling a block twice is exactly the reference
/// shift-left-and-conditionally-XOR-0x87 computation applied twice.
pub proof fn lemma_dbl_twice(a: Seq<u8>, once: Seq<u8>, twice: Seq<u8>)
    requires
        once == dbl_seq(a),
        twice == dbl_seq(once),
    ensures
        twice == dbl_seq(dbl_seq(a)),
{
}

/// XOR with the same block-sized value is self-inverse: XORing `b` into
/// `a` twice restores the original `a`.
pub proof fn lemma_xor_self_inverse(a: Seq<u8>, b: Seq<u8>)
    requires
        a.len() == 16,
    ensures
        xor_seq(xor_seq(a, b), b) == a,
{
    assert forall|i: int| 0 <= i < 16 implies xor_seq(xor_seq(a, b), b)[i] == a[i] by {
        let x = a[i];
        let y = b[i];
        assert((x ^ y) ^ y == x) by (bit_vector);
    }
    assert(xor_seq(xor_seq(a, b), b) =~= a);
}

} // verus!
