//! Cipher-based Message Authentication Code (CMAC, RFC 4493 /
//! NIST SP 800-38B), streaming over a block-cipher capability.

use vstd::prelude::*;
use vstd::arithmetic::div_mod::{lemma_fundamental_div_mod, lemma_fundamental_div_mod_converse};
use crate::block::{Block, zero_seq, xor_seq, xor_at, dbl_seq};
use crate::block_cipher::BlockCipher;

verus! {

broadcast use crate::block::lemma_block_view_len;

/// The first CMAC subkey: the GF(2^128) double of the encryption of the
/// all-zero block.
pub open spec fn subkey1_spec<C: BlockCipher>(c: C) -> Seq<u8> {
    dbl_seq(c.block_spec(zero_seq()))
}

/// The second CMAC subkey: the GF(2^128) double of the first.
pub open spec fn subkey2_spec<C: BlockCipher>(c: C) -> Seq<u8> {
    dbl_seq(subkey1_spec(c))
}

/// How many leading 16-byte blocks of an `n`-byte message CMAC commits
/// (encrypts) while streaming. The final full-or-partial block is always
/// held back until finalization, so a nonempty message of an exact
/// multiple of 16 bytes has one block fewer committed than it has blocks.
pub open spec fn committed_blocks(n: nat) -> nat {
    if n == 0 {
        0
    } else {
        (((n - 1) as nat) / 16) as nat
    }
}

/// The CBC-MAC chaining value after encrypting the first `k` blocks of
/// `msg`: each block is XORed into the previous chaining value and the
/// result encrypted.
pub open spec fn chain<C: BlockCipher>(c: C, msg: Seq<u8>, k: nat) -> Seq<u8>
    decreases k,
{
    if k == 0 {
        zero_seq()
    } else {
        c.block_spec(xor_seq(chain(c, msg, (k - 1) as nat), msg.subrange(16 * (k - 1) as int, 16 * k as int)))
    }
}

/// The bytes of `msg` held back (not yet run through the cipher) while
/// streaming: everything past the committed blocks, between 0 and 16
/// bytes.
pub open spec fn buffered(msg: Seq<u8>) -> Seq<u8> {
    msg.skip(16 * committed_blocks(msg.len()) as int)
}

/// The internal accumulator after absorbing `msg`: the chaining value over
/// the committed blocks, with the held-back bytes XORed in at the front.
pub open spec fn absorbed_state<C: BlockCipher>(c: C, msg: Seq<u8>) -> Seq<u8> {
    xor_at(chain(c, msg, committed_blocks(msg.len())), 0, buffered(msg))
}

/// The CMAC tag of `msg` under cipher `c`: the final block (complete, or
/// padded with a single 1-bit and zeros) is XORed with the subkey selected
/// by whether it was complete, then encrypted once more.
pub open spec fn cmac_spec<C: BlockCipher>(c: C, msg: Seq<u8>) -> Seq<u8> {
    let st = absorbed_state(c, msg);
    if msg.len() > 0 && msg.len() % 16 == 0 {
        c.block_spec(xor_seq(st, subkey1_spec(c)))
    } else {
        let masked = xor_seq(st, subkey2_spec(c));
        let pos = buffered(msg).len() as int;
        c.block_spec(masked.update(pos, masked[pos] ^ 0x80))
    }
}

/// Cipher-based Message Authentication Code over an owned block-cipher
/// capability.
pub struct Cmac<C: BlockCipher> {
    cipher: C,
    subkey1: Block,
    subkey2: Block,
    state: Block,
    state_pos: usize,
    finished: bool,
    absorbed: Ghost<Seq<u8>>,
}

impl<C: BlockCipher> Cmac<C> {
    /// The cipher capability this instance owns.
    pub closed spec fn spec_cipher(&self) -> C {
        self.cipher
    }

    /// The bytes fed to `update` since construction or the last `reset`.
    pub closed spec fn bytes_absorbed(&self) -> Seq<u8> {
        self.absorbed@
    }

    /// Whether `finish` has produced a tag since the last `reset`.
    pub closed spec fn spec_finished(&self) -> bool {
        self.finished
    }

    /// The first derived subkey.
    pub closed spec fn spec_subkey1(&self) -> Seq<u8> {
        self.subkey1@
    }

    /// The second derived subkey.
    pub closed spec fn spec_subkey2(&self) -> Seq<u8> {
        self.subkey2@
    }

    /// Whether `finish` has produced a tag since the last `reset`; while
    /// this holds, `update` and `finish` may not be called again.
    pub fn is_finished(&self) -> (r: bool)
        ensures
            r == self.spec_finished(),
    {
        self.finished
    }

    /// Well-formedness: the subkeys are the ones derived from the cipher,
    /// and while no tag has been produced, the accumulator and cursor are
    /// exactly what absorbing `bytes_absorbed()` leaves behind.
    pub closed spec fn wf(&self) -> bool {
        &&& self.subkey1@ == subkey1_spec(self.cipher)
        &&& self.subkey2@ == subkey2_spec(self.cipher)
        &&& self.state_pos <= 16
        &&& (!self.finished ==> {
            &&& self.state_pos == buffered(self.absorbed@).len()
            &&& self.state@ == absorbed_state(self.cipher, self.absorbed@)
        })
    }

    /// Create a new CMAC instance with the given cipher, deriving both
    /// subkeys and zeroing the accumulator.
    pub fn new(cipher: C) -> (r: Self)
        ensures
            r.wf(),
            !r.spec_finished(),
            r.bytes_absorbed() == Seq::<u8>::empty(),
            r.spec_cipher() == cipher,
            r.spec_subkey1() == subkey1_spec(cipher),
            r.spec_subkey2() == subkey2_spec(cipher),
    {
        let mut subkey1 = Block::new();
        cipher.encrypt(&mut subkey1);
        subkey1.dbl();

        let mut subkey2 = Block::new();
        subkey2.copy_from_block(&subkey1);
        subkey2.dbl();

        let r = Cmac {
            cipher,
            subkey1,
            subkey2,
            state: Block::new(),
            state_pos: 0,
            finished: false,
            absorbed: Ghost(Seq::empty()),
        };
        proof {
            lemma_absorbed_state_empty(r.cipher);
        }
        r
    }

    /// Reset the instance back to its initial state: the accumulator and
    /// cursor are cleared and a new, independent MAC computation may
    /// begin; the subkeys and cipher are untouched.
    pub fn reset(&mut self)
        requires
            old(self).wf(),
        ensures
            final(self).wf(),
            !final(self).spec_finished(),
            final(self).bytes_absorbed() == Seq::<u8>::empty(),
            final(self).spec_cipher() == old(self).spec_cipher(),
            final(self).spec_subkey1() == old(self).spec_subkey1(),
            final(self).spec_subkey2() == old(self).spec_subkey2(),
    {
        self.state.clear();
        self.state_pos = 0;
        self.finished = false;
        self.absorbed = Ghost(Seq::empty());
        proof {
            lemma_absorbed_state_empty(self.cipher);
        }
    }

    /// Update the MAC state with the given message bytes.
    ///
    /// Interior full blocks are XORed into the accumulator and encrypted
    /// eagerly; the final full-or-partial block of the stream seen so far
    /// is always held back, because only at `finish` is it known whether
    /// the true final block is complete (which decides the subkey).
    pub fn update(&mut self, msg: &[u8])
        requires
            old(self).wf(),
            !old(self).spec_finished(),
        ensures
            final(self).wf(),
            !final(self).spec_finished(),
            final(self).bytes_absorbed() == old(self).bytes_absorbed() + msg@,
            final(self).spec_cipher() == old(self).spec_cipher(),
            final(self).spec_subkey1() == old(self).spec_subkey1(),
            final(self).spec_subkey2() == old(self).spec_subkey2(),
    {
        let ghost c = self.cipher;
        let ghost a0 = self.absorbed@;
        let ghost mut k: nat = committed_blocks(a0.len());
        proof {
            lemma_buffered_len(a0.len());
        }

        let total: usize = msg.len();
        let mut pos: usize = 0;
        let remaining: usize = 16 - self.state_pos;

        if total > remaining {
            // Fill the current block to exactly 16 bytes and commit it.
            let ghost fill = msg@.subrange(0, remaining as int);
            proof {
                lemma_absorb_fill(c, a0, k, self.state@, fill);
            }
            self.state.xor_range(msg, 0, self.state_pos, remaining);
            self.cipher.encrypt(&mut self.state);
            self.state_pos = 0;
            pos = remaining;
            proof {
                k = k + 1;
                assert(a0 + fill =~= a0 + msg@.take(pos as int));
                assert(self.state@ =~= xor_at(chain(c, a0 + msg@.take(pos as int), k), 0,
                    (a0 + msg@.take(pos as int)).skip(16 * k as int)));
            }

            // Commit every further interior full block; strictly more
            // bytes than one block must remain, so that the final block
            // of the stream stays held back.
            while total - pos > 16
                invariant
                    pos < total,
                    total == msg@.len(),
                    self.state_pos == 0,
                    !self.finished,
                    self.cipher == c,
                    self.absorbed@ == a0,
                    self.subkey1@ == old(self).spec_subkey1(),
                    self.subkey2@ == old(self).spec_subkey2(),
                    a0.len() + pos == 16 * k,
                    self.state@ == xor_at(chain(c, a0 + msg@.take(pos as int), k), 0,
                        (a0 + msg@.take(pos as int)).skip(16 * k as int)),
                decreases total - pos,
            {
                let ghost a_cur = a0 + msg@.take(pos as int);
                let ghost blk = msg@.subrange(pos as int, pos + 16);
                proof {
                    assert(a_cur.skip(16 * k as int) =~= Seq::<u8>::empty());
                    lemma_absorb_fill(c, a_cur, k, self.state@, blk);
                }
                self.state.xor_range(msg, pos, 0, 16);
                self.cipher.encrypt(&mut self.state);
                pos = pos + 16;
                proof {
                    k = k + 1;
                    assert(a_cur + blk =~= a0 + msg@.take(pos as int));
                    assert(self.state@ =~= xor_at(chain(c, a0 + msg@.take(pos as int), k), 0,
                        (a0 + msg@.take(pos as int)).skip(16 * k as int)));
                }
            }
        }

        // Absorb the remaining tail (up to one full block) into the
        // held-back portion of the accumulator.
        let ghost a_mid = a0 + msg@.take(pos as int);
        let ghost a_fin = a0 + msg@;
        proof {
            assert(16 * k <= a_mid.len());
            assert(a_mid.len() - 16 * k == self.state_pos);
        }
        if total > pos {
            let t: usize = total - pos;
            let ghost tail = msg@.subrange(pos as int, total as int);
            proof {
                lemma_absorb_tail(c, a_mid, k, self.state@, tail);
            }
            self.state.xor_range(msg, pos, self.state_pos, t);
            self.state_pos = self.state_pos + t;
            proof {
                assert(a_mid + tail =~= a_fin);
            }
        }
        self.absorbed = Ghost(a_fin);
        proof {
            assert(a_fin =~= a_mid + msg@.subrange(pos as int, total as int));
            if a_fin.len() == 0 {
                assert(k == 0);
            } else {
                lemma_committed_blocks_of(a_fin.len(), k, (a_fin.len() - 16 * k) as nat);
            }
            assert(self.state@ == absorbed_state(c, a_fin));
            assert(self.state_pos == buffered(a_fin).len());
        }
    }

    /// Finish the MAC computation, returning the tag.
    ///
    /// If the held-back final block is exactly complete, the first subkey
    /// is XORed in; otherwise the second subkey is XORed in together with
    /// a 0x80 byte at the first unused position (a 1-bit followed by
    /// zeros). One last encryption of the accumulator yields the tag.
    pub fn finish(&mut self) -> (tag: Block)
        requires
            old(self).wf(),
            !old(self).spec_finished(),
        ensures
            final(self).wf(),
            final(self).spec_finished(),
            tag@ == cmac_spec(old(self).spec_cipher(), old(self).bytes_absorbed()),
            final(self).bytes_absorbed() == old(self).bytes_absorbed(),
            final(self).spec_cipher() == old(self).spec_cipher(),
            final(self).spec_subkey1() == old(self).spec_subkey1(),
            final(self).spec_subkey2() == old(self).spec_subkey2(),
    {
        let ghost c = self.cipher;
        let ghost a = self.absorbed@;
        let ghost k = committed_blocks(a.len());
        proof {
            lemma_buffered_len(a.len());
        }

        if self.state_pos == 16 {
            proof {
                lemma_fundamental_div_mod_converse(a.len() as int, 16, (k + 1) as int, 0);
            }
            self.state.xor_in_place(self.subkey1.as_bytes().as_slice());
        } else {
            proof {
                if a.len() > 0 {
                    lemma_fundamental_div_mod_converse(
                        a.len() as int, 16, k as int, (a.len() - 16 * k) as int);
                }
            }
            self.state.xor_in_place(self.subkey2.as_bytes().as_slice());
            self.state.xor_byte_at(self.state_pos, 0x80);
        }

        self.cipher.encrypt(&mut self.state);
        self.finished = true;

        let mut tag = Block::new();
        tag.copy_from_block(&self.state);
        tag
    }
}

/// Subkey derivation is deterministic: two well-formed instances whose
/// ciphers agree on the all-zero block carry the same derived subkeys.
pub proof fn lemma_subkeys_deterministic<C: BlockCipher>(m1: Cmac<C>, m2: Cmac<C>)
    requires
        m1.wf(),
        m2.wf(),
        m1.spec_cipher().block_spec(zero_seq()) == m2.spec_cipher().block_spec(zero_seq()),
    ensures
        m1.spec_subkey1() == m2.spec_subkey1(),
        m1.spec_subkey2() == m2.spec_subkey2(),
{
}

/// The tag is a function of the cipher and of the absorbed bytes alone:
/// two well-formed, unfinished instances over the same cipher that have
/// absorbed the same bytes — no matter in how many `update` calls, or
/// whether one of them was recycled with `reset` — finish with the same
/// tag.
pub proof fn lemma_replay_equivalence<C: BlockCipher>(m1: Cmac<C>, m2: Cmac<C>)
    requires
        m1.wf(),
        m2.wf(),
        !m1.spec_finished(),
        !m2.spec_finished(),
        m1.spec_cipher() == m2.spec_cipher(),
        m1.bytes_absorbed() == m2.bytes_absorbed(),
    ensures
        cmac_spec(m1.spec_cipher(), m1.bytes_absorbed())
            == cmac_spec(m2.spec_cipher(), m2.bytes_absorbed()),
        m1.spec_subkey1() == m2.spec_subkey1(),
        m1.spec_subkey2() == m2.spec_subkey2(),
{
}

/// Which subkey finalization applies is decided by the message length
/// alone: a nonempty message of an exact multiple of 16 bytes is closed
/// with the first subkey and no padding; every other length is closed
/// with the second subkey and a 0x80 byte XORed at the first unused
/// position of the final block.
pub proof fn lemma_finish_subkey_selection<C: BlockCipher>(c: C, msg: Seq<u8>)
    ensures
        msg.len() > 0 && msg.len() % 16 == 0 ==> cmac_spec(c, msg) == c.block_spec(
            xor_seq(absorbed_state(c, msg), subkey1_spec(c))),
        !(msg.len() > 0 && msg.len() % 16 == 0) ==> cmac_spec(c, msg) == c.block_spec(
            xor_seq(absorbed_state(c, msg), subkey2_spec(c)).update(
                buffered(msg).len() as int,
                xor_seq(absorbed_state(c, msg), subkey2_spec(c))[buffered(msg).len() as int] ^ 0x80,
            )),
{
}

/// How many bytes an `n`-byte message leaves held back: between 1 and 16
/// once anything was absorbed, and 0 only for the empty message.
proof fn lemma_buffered_len(n: nat)
    ensures
        16 * committed_blocks(n) <= n,
        n - 16 * committed_blocks(n) <= 16,
        n > 0 ==> n - 16 * committed_blocks(n) >= 1,
        n == 0 ==> committed_blocks(n) == 0,
{
    if n > 0 {
        lemma_fundamental_div_mod((n - 1) as int, 16);
    }
}

/// `committed_blocks` inverts the split of a message into `k` whole blocks
/// followed by 1 to 16 held-back bytes.
proof fn lemma_committed_blocks_of(n: nat, k: nat, s: nat)
    requires
        n == 16 * k + s,
        1 <= s <= 16,
    ensures
        committed_blocks(n) == k,
{
    lemma_fundamental_div_mod_converse((n - 1) as int, 16, k as int, (s - 1) as int);
}

/// The chaining value over the first `k` blocks reads nothing past byte
/// `16 * k`, so it is the same for any two messages that agree there.
proof fn lemma_chain_prefix<C: BlockCipher>(c: C, m1: Seq<u8>, m2: Seq<u8>, k: nat)
    requires
        16 * k <= m1.len(),
        16 * k <= m2.len(),
        m1.subrange(0, 16 * k as int) == m2.subrange(0, 16 * k as int),
    ensures
        chain(c, m1, k) == chain(c, m2, k),
    decreases k,
{
    if k > 0 {
        let j = (k - 1) as nat;
        let s1 = m1.subrange(0, 16 * k as int);
        let s2 = m2.subrange(0, 16 * k as int);
        assert(16 * j <= 16 * k);
        assert forall|i: int| 0 <= i < 16 * k implies m1[i] == m2[i] by {
            assert(s1[i] == m1[i]);
            assert(s2[i] == m2[i]);
        }
        assert(m1.subrange(0, 16 * j as int) =~= m2.subrange(0, 16 * j as int));
        lemma_chain_prefix(c, m1, m2, j);
        assert(m1.subrange(16 * j as int, 16 * k as int) =~= m2.subrange(16 * j as int, 16 * k as int));
    }
}

/// Completing the held-back bytes of `a` to a full block with `fill` and
/// encrypting the accumulator commits exactly one more block of the
/// stream `a + fill`.
proof fn lemma_absorb_fill<C: BlockCipher>(c: C, a: Seq<u8>, k: nat, st: Seq<u8>, fill: Seq<u8>)
    requires
        16 * k <= a.len(),
        a.len() - 16 * k + fill.len() == 16,
        st == xor_at(chain(c, a, k), 0, a.skip(16 * k as int)),
    ensures
        c.block_spec(xor_at(st, a.len() - 16 * k, fill)) == chain(c, a + fill, (k + 1) as nat),
{
    let sp = a.len() - 16 * k;
    let a1 = a + fill;
    assert(a1.len() == 16 * (k + 1));
    assert(a1.subrange(0, 16 * k as int) =~= a.subrange(0, 16 * k as int));
    lemma_chain_prefix(c, a, a1, k);
    let ch = chain(c, a1, k);
    let blk = a1.subrange(16 * k as int, 16 * (k + 1) as int);
    assert(xor_at(st, sp, fill) =~= xor_seq(ch, blk)) by {
        assert forall|i: int| 0 <= i < 16 implies xor_at(st, sp, fill)[i] == ch[i] ^ blk[i] by {
            assert(blk[i] == a1[16 * k + i]);
            if i < sp {
                assert(a.skip(16 * k as int)[i] == a[16 * k + i]);
            } else {
                assert(a1[16 * k + i] == fill[i - sp]);
            }
        }
    }
}

/// XORing up to a block's worth of further bytes into the accumulator at
/// the cursor absorbs them into the held-back portion of the stream.
proof fn lemma_absorb_tail<C: BlockCipher>(c: C, a: Seq<u8>, k: nat, st: Seq<u8>, tail: Seq<u8>)
    requires
        16 * k <= a.len(),
        a.len() - 16 * k + tail.len() <= 16,
        st == xor_at(chain(c, a, k), 0, a.skip(16 * k as int)),
    ensures
        xor_at(st, a.len() - 16 * k, tail)
            == xor_at(chain(c, a + tail, k), 0, (a + tail).skip(16 * k as int)),
{
    let sp = a.len() - 16 * k;
    let t = tail.len() as int;
    let a1 = a + tail;
    assert(a1.subrange(0, 16 * k as int) =~= a.subrange(0, 16 * k as int));
    lemma_chain_prefix(c, a, a1, k);
    let ch = chain(c, a1, k);
    assert(xor_at(st, sp, tail) =~= xor_at(ch, 0, a1.skip(16 * k as int))) by {
        assert forall|i: int| 0 <= i < 16 implies
            xor_at(st, sp, tail)[i] == xor_at(ch, 0, a1.skip(16 * k as int))[i] by {
            if i < sp {
                assert(a.skip(16 * k as int)[i] == a[16 * k + i]);
                assert(a1.skip(16 * k as int)[i] == a1[16 * k + i]);
            } else if i < sp + t {
                assert(a1.skip(16 * k as int)[i] == a1[16 * k + i]);
                assert(a1[16 * k + i] == tail[i - sp]);
            }
        }
    }
}

/// Absorbing no bytes leaves the accumulator all zero.
proof fn lemma_absorbed_state_empty<C: BlockCipher>(c: C)
    ensures
        buffered(Seq::<u8>::empty()) == Seq::<u8>::empty(),
        absorbed_state(c, Seq::<u8>::empty()) == zero_seq(),
{
    assert(buffered(Seq::<u8>::empty()) =~= Seq::<u8>::empty());
    assert(absorbed_state(c, Seq::<u8>::empty()) =~= zero_seq());
}

} // verus!
