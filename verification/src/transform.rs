//! The scoop-pair swap: the PoC1 -> PoC2 transformation itself.
//!
//! The file is an array of `SCOOPS_IN_NONCE` scoop blocks of
//! `nonces * SCOOP_SIZE` bytes each; block `b` holds one 64-byte record per
//! nonce.  The conversion pairs block `s` with its mirror block
//! `SCOOPS_IN_NONCE - 1 - s` and, record by record, swaps the second
//! 32-byte hash half between the two blocks.  First halves never move, the
//! pass is a permutation of the file's bytes, and running it twice restores
//! the original layout.

use crate::plot::{Plot, NONCE_SIZE, SCOOPS_IN_NONCE, SCOOP_SIZE, SHABAL256_HASH_SIZE};
use vstd::arithmetic::div_mod::{
    lemma_div_pos_is_pos, lemma_fundamental_div_mod, lemma_fundamental_div_mod_converse,
    lemma_mod_division_less_than_divisor, lemma_multiply_divide_lt,
};
use vstd::prelude::*;
use vstd::seq_lib::lemma_multiset_commutative;

verus! {

/// Byte `i` sits in the second 32-byte hash half of its 64-byte record.
pub open spec fn second_half(i: int) -> bool {
    i % (SCOOP_SIZE as int) >= SHABAL256_HASH_SIZE as int
}

/// Record-wise mix of two equally long scoop blocks: first hash halves
/// from `a`, second hash halves from `b`.
pub open spec fn mixed(a: Seq<u8>, b: Seq<u8>) -> Seq<u8> {
    Seq::new(a.len(), |i: int| if second_half(i) { b[i] } else { a[i] })
}

/// The mix of two blocks carried out only below index `m`.
spec fn mixed_upto(a: Seq<u8>, b: Seq<u8>, m: int) -> Seq<u8> {
    Seq::new(
        a.len(),
        |i: int|
            if i < m && second_half(i) {
                b[i]
            } else {
                a[i]
            },
    )
}

/// Index of the scoop block that byte `i` of the file belongs to.
pub open spec fn scoop_block(nonces: int, i: int) -> int {
    i / (nonces * (SCOOP_SIZE as int))
}

/// Offset of byte `i` within its scoop block.
pub open spec fn block_off(nonces: int, i: int) -> int {
    i % (nonces * (SCOOP_SIZE as int))
}

/// The mirrored-pair index a scoop block belongs to: block `b` and block
/// `SCOOPS_IN_NONCE - 1 - b` share one pair.
pub open spec fn pair_of(b: int) -> int {
    if b < SCOOPS_IN_NONCE as int / 2 {
        b
    } else {
        SCOOPS_IN_NONCE as int - 1 - b
    }
}

/// Where the byte at index `i` of the converted file comes from in the
/// source file: a first-half byte stays put, a second-half byte comes from
/// the same offset of the mirror block.
pub open spec fn src_index(nonces: int, i: int) -> int {
    if second_half(i) {
        (SCOOPS_IN_NONCE as int - 1 - scoop_block(nonces, i)) * (nonces * (SCOOP_SIZE as int))
            + block_off(nonces, i)
    } else {
        i
    }
}

/// The converted layout of a whole plot of `nonces` nonces.
pub open spec fn poc2_layout(data: Seq<u8>, nonces: int) -> Seq<u8> {
    Seq::new(data.len(), |i: int| data[src_index(nonces, i)])
}

/// Decomposes a valid byte index into its block index and block offset.
proof fn lemma_byte_decomp(nonces: int, i: int)
    requires
        nonces > 0,
        0 <= i < nonces * (NONCE_SIZE as int),
    ensures
        0 <= scoop_block(nonces, i) < SCOOPS_IN_NONCE as int,
        0 <= block_off(nonces, i) < nonces * (SCOOP_SIZE as int),
        i == scoop_block(nonces, i) * (nonces * (SCOOP_SIZE as int)) + block_off(nonces, i),
        i % (SCOOP_SIZE as int) == block_off(nonces, i) % (SCOOP_SIZE as int),
{
    let bs = nonces * 64;
    assert(nonces * 262144 == 4096 * bs) by (nonlinear_arith)
        requires
            bs == nonces * 64,
    ;
    lemma_div_pos_is_pos(i, bs);
    lemma_multiply_divide_lt(i, bs, 4096);
    lemma_mod_division_less_than_divisor(i, bs);
    lemma_fundamental_div_mod(i, bs);
    let b = i / bs;
    let j = i % bs;
    assert(i == b * bs + j) by (nonlinear_arith)
        requires
            i == bs * b + j,
    ;
    lemma_mod_division_less_than_divisor(j, 64);
    lemma_fundamental_div_mod(j, 64);
    assert(i == (b * nonces + j / 64) * 64 + j % 64) by (nonlinear_arith)
        requires
            i == b * (nonces * 64) + j,
            j == 64 * (j / 64) + j % 64,
    ;
    lemma_fundamental_div_mod_converse(i, 64, b * nonces + j / 64, j % 64);
}

/// Recombines a block index and a block offset into the byte index they
/// decompose to.
proof fn lemma_byte_recomp(nonces: int, b: int, j: int)
    requires
        nonces > 0,
        0 <= b < SCOOPS_IN_NONCE as int,
        0 <= j < nonces * (SCOOP_SIZE as int),
    ensures
        0 <= b * (nonces * (SCOOP_SIZE as int)) + j < nonces * (NONCE_SIZE as int),
        scoop_block(nonces, b * (nonces * (SCOOP_SIZE as int)) + j) == b,
        block_off(nonces, b * (nonces * (SCOOP_SIZE as int)) + j) == j,
        (b * (nonces * (SCOOP_SIZE as int)) + j) % (SCOOP_SIZE as int) == j % (
        SCOOP_SIZE as int),
{
    let bs = nonces * 64;
    let i = b * bs + j;
    assert(0 <= i && i < nonces * 262144) by (nonlinear_arith)
        requires
            0 <= b < 4096,
            0 <= j < bs,
            bs == nonces * 64,
            nonces > 0,
            i == b * bs + j,
    ;
    lemma_fundamental_div_mod_converse(i, bs, b, j);
    lemma_mod_division_less_than_divisor(j, 64);
    lemma_fundamental_div_mod(j, 64);
    assert(i == (b * nonces + j / 64) * 64 + j % 64) by (nonlinear_arith)
        requires
            i == b * (nonces * 64) + j,
            j == 64 * (j / 64) + j % 64,
    ;
    lemma_fundamental_div_mod_converse(i, 64, b * nonces + j / 64, j % 64);
}

/// The conversion's source map is a self-inverse permutation of the file's
/// byte indices, and the identity on every first hash half.
pub proof fn lemma_src_index_involution(nonces: int, i: int)
    requires
        nonces > 0,
        0 <= i < nonces * (NONCE_SIZE as int),
    ensures
        0 <= src_index(nonces, i) < nonces * (NONCE_SIZE as int),
        src_index(nonces, src_index(nonces, i)) == i,
        !second_half(i) ==> src_index(nonces, i) == i,
{
    lemma_byte_decomp(nonces, i);
    if second_half(i) {
        let bs = nonces * 64;
        let b = scoop_block(nonces, i);
        let j = block_off(nonces, i);
        lemma_byte_recomp(nonces, 4095 - b, j);
        let m = (4095 - b) * bs + j;
        assert(second_half(m));
        assert(src_index(nonces, m) == (4095 - (4095 - b)) * bs + j);
        assert((4095 - (4095 - b)) * bs + j == b * bs + j) by (nonlinear_arith);
    }
}

/// Byte conservation: converting a converted plot restores the original
/// byte-for-byte - the pair-swap pass is an involution - and the layout
/// always has the size of its input.
pub proof fn lemma_layout_involution(data: Seq<u8>, nonces: int)
    requires
        nonces >= 0,
        data.len() == nonces * (NONCE_SIZE as int),
    ensures
        poc2_layout(data, nonces).len() == data.len(),
        poc2_layout(poc2_layout(data, nonces), nonces) == data,
{
    let once = poc2_layout(data, nonces);
    let twice = poc2_layout(once, nonces);
    assert forall|i: int| 0 <= i < data.len() implies twice[i] == data[i] by {
        assert(nonces > 0) by (nonlinear_arith)
            requires
                nonces * 262144 > 0,
        ;
        lemma_src_index_involution(nonces, i);
        lemma_src_index_involution(nonces, src_index(nonces, i));
    }
    assert(twice =~= data);
}

/// First-half invariance: a byte in the first 32 bytes of its record never
/// moves; a byte in the second 32 bytes comes from the same record offset
/// of the mirror scoop block.
pub proof fn lemma_halves(data: Seq<u8>, nonces: int, i: int)
    requires
        nonces > 0,
        data.len() == nonces * (NONCE_SIZE as int),
        0 <= i < data.len(),
    ensures
        !second_half(i) ==> poc2_layout(data, nonces)[i] == data[i],
        second_half(i) ==> {
            let m = src_index(nonces, i);
            &&& poc2_layout(data, nonces)[i] == data[m]
            &&& scoop_block(nonces, m) == SCOOPS_IN_NONCE as int - 1 - scoop_block(nonces, i)
            &&& block_off(nonces, m) == block_off(nonces, i)
        },
{
    lemma_byte_decomp(nonces, i);
    if second_half(i) {
        lemma_byte_recomp(nonces, 4095 - scoop_block(nonces, i), block_off(nonces, i));
    }
}

/// Idempotence of the pairing: iterating the forward index over
/// `[0, SCOOPS_IN_NONCE / 2)` and taking the mirror block as the backward
/// index partitions the scoop blocks into disjoint pairs - no block is
/// selected twice, and none pairs with itself.
pub proof fn lemma_pairing_partitions()
    ensures
        forall|s: int|
            0 <= s < SCOOPS_IN_NONCE as int / 2 ==> {
                let back = SCOOPS_IN_NONCE as int - 1 - s;
                &&& s != back
                &&& SCOOPS_IN_NONCE as int / 2 <= back < SCOOPS_IN_NONCE as int
                &&& #[trigger] pair_of(s) == s
                &&& pair_of(back) == s
            },
        forall|b: int|
            0 <= b < SCOOPS_IN_NONCE as int ==> {
                &&& 0 <= #[trigger] pair_of(b) < SCOOPS_IN_NONCE as int / 2
                &&& (b == pair_of(b) || b == SCOOPS_IN_NONCE as int - 1 - pair_of(b))
            },
        forall|b1: int, b2: int|
            0 <= b1 < SCOOPS_IN_NONCE as int && 0 <= b2 < SCOOPS_IN_NONCE as int && b1 != b2
                && #[trigger] pair_of(b1) == #[trigger] pair_of(b2) ==> b1 == SCOOPS_IN_NONCE as int
                - 1 - b2,
{
}

/// Swaps the second hash half of every record between two equally long
/// buffers, as one mirrored block pair of the conversion pass requires.
/// First halves stay put in both buffers.
#[verifier::loop_isolation(false)]
pub fn swap_scoop_pair(fwd: &mut Vec<u8>, bwd: &mut Vec<u8>)
    requires
        old(fwd)@.len() == old(bwd)@.len(),
    ensures
        final(fwd)@ == mixed(old(fwd)@, old(bwd)@),
        final(bwd)@ == mixed(old(bwd)@, old(fwd)@),
{
    let ghost f0 = fwd@;
    let ghost b0 = bwd@;
    proof {
        assert(SCOOP_SIZE == 64 && SHABAL256_HASH_SIZE == 32);
    }
    let n = fwd.len();
    let mut i: usize = 0;
    while i < n
        invariant
            0 <= i <= n,
            f0.len() == n,
            b0.len() == n,
            fwd@ == mixed_upto(f0, b0, i as int),
            bwd@ == mixed_upto(b0, f0, i as int),
        decreases n - i,
    {
        if i % 64 >= 32 {
            let x = fwd[i];
            let y = bwd[i];
            fwd[i] = y;
            bwd[i] = x;
            proof {
                assert(second_half(i as int));
            }
        } else {
            proof {
                assert(!second_half(i as int));
            }
        }
        proof {
            assert(fwd@ =~= mixed_upto(f0, b0, i + 1));
            assert(bwd@ =~= mixed_upto(b0, f0, i + 1));
        }
        i = i + 1;
    }
    assert(fwd@ =~= mixed(f0, b0));
    assert(bwd@ =~= mixed(b0, f0));
}

/// The conversion pass carried out only for mirrored pairs below `s` and,
/// within pair `s`, only for block offsets below `j`.
spec fn partial_layout(orig: Seq<u8>, nonces: int, s: int, j: int) -> Seq<u8> {
    Seq::new(
        orig.len(),
        |i: int|
            if second_half(i) && (pair_of(scoop_block(nonces, i)) < s || (pair_of(
                scoop_block(nonces, i),
            ) == s && block_off(nonces, i) < j)) {
                orig[src_index(nonces, i)]
            } else {
                orig[i]
            },
    )
}

/// A byte whose block pairs as `s` and whose block offset is `j` sits
/// either in the forward block `s` or in the backward block `4095 - s`.
proof fn lemma_pair_member(nonces: int, s: int, i: int, j: int)
    requires
        nonces > 0,
        0 <= s < SCOOPS_IN_NONCE as int / 2,
        0 <= i < nonces * (NONCE_SIZE as int),
        pair_of(scoop_block(nonces, i)) == s,
        block_off(nonces, i) == j,
    ensures
        i == s * (nonces * (SCOOP_SIZE as int)) + j || i == (SCOOPS_IN_NONCE as int - 1 - s) * (
        nonces * (SCOOP_SIZE as int)) + j,
{
    lemma_byte_decomp(nonces, i);
}

/// Block-wise reading of the conversion: scoop block `s` of the converted
/// file is the record-wise mix of source block `s` and its mirror block,
/// exactly what swapping the pair's second hash halves produces.  A pass
/// that reads a mirrored block pair, swaps halves and writes both blocks
/// back therefore builds the converted layout.
pub proof fn lemma_block_is_mixed(data: Seq<u8>, nonces: int, s: int)
    requires
        nonces > 0,
        data.len() == nonces * (NONCE_SIZE as int),
        0 <= s < SCOOPS_IN_NONCE as int,
    ensures
        ({
            let bs = nonces * (SCOOP_SIZE as int);
            let m = SCOOPS_IN_NONCE as int - 1 - s;
            poc2_layout(data, nonces).subrange(s * bs, (s + 1) * bs) == mixed(
                data.subrange(s * bs, (s + 1) * bs),
                data.subrange(m * bs, (m + 1) * bs),
            )
        }),
{
    let bs = nonces * 64;
    let m = 4095 - s;
    assert(0 <= s * bs && (s + 1) * bs <= data.len() && 0 <= m * bs && (m + 1) * bs <= data.len())
        by (nonlinear_arith)
        requires
            0 <= s < 4096,
            m == 4095 - s,
            bs == nonces * 64,
            data.len() == nonces * 262144,
            nonces > 0,
    ;
    let lhs = poc2_layout(data, nonces).subrange(s * bs, (s + 1) * bs);
    let rhs = mixed(data.subrange(s * bs, (s + 1) * bs), data.subrange(m * bs, (m + 1) * bs));
    assert((s + 1) * bs == s * bs + bs && (m + 1) * bs == m * bs + bs) by (nonlinear_arith);
    assert forall|r: int| 0 <= r < bs implies lhs[r] == rhs[r] by {
        lemma_byte_recomp(nonces, s, r);
        lemma_byte_recomp(nonces, m, r);
    }
    assert(lhs =~= rhs);
}

/// Swapping the bytes at two positions of a sequence leaves its multiset
/// of bytes unchanged.
proof fn lemma_swap_two_multiset(s: Seq<u8>, p: int, q: int)
    requires
        0 <= p < q < s.len(),
    ensures
        s.update(p, s[q]).update(q, s[p]).to_multiset() == s.to_multiset(),
{
    let t = s.update(p, s[q]).update(q, s[p]);
    let a = s.subrange(0, p);
    let b = s.subrange(p + 1, q);
    let c = s.subrange(q + 1, s.len() as int);
    let x = seq![s[p]];
    let y = seq![s[q]];
    assert(s =~= a + x + b + y + c);
    assert(t =~= a + y + b + x + c);
    lemma_multiset_commutative(a + x + b + y, c);
    lemma_multiset_commutative(a + x + b, y);
    lemma_multiset_commutative(a + x, b);
    lemma_multiset_commutative(a, x);
    lemma_multiset_commutative(a + y + b + x, c);
    lemma_multiset_commutative(a + y + b, x);
    lemma_multiset_commutative(a + y, b);
    lemma_multiset_commutative(a, y);
    assert(t.to_multiset() =~= s.to_multiset());
}

/// One step of the pass - swapping one pair of second-half bytes, or
/// skipping a first-half offset - leaves the multiset of bytes unchanged.
proof fn lemma_partial_step_multiset(orig: Seq<u8>, nonces: int, s: int, j: int)
    requires
        nonces > 0,
        orig.len() == nonces * (NONCE_SIZE as int),
        0 <= s < SCOOPS_IN_NONCE as int / 2,
        0 <= j < nonces * (SCOOP_SIZE as int),
    ensures
        partial_layout(orig, nonces, s, j + 1).to_multiset() == partial_layout(
            orig,
            nonces,
            s,
            j,
        ).to_multiset(),
{
    let bs = nonces * 64;
    let prev = partial_layout(orig, nonces, s, j);
    let next = partial_layout(orig, nonces, s, j + 1);
    lemma_byte_recomp(nonces, s, j);
    lemma_byte_recomp(nonces, 4095 - s, j);
    let p = s * bs + j;
    let q = (4095 - s) * bs + j;
    if j % 64 >= 32 {
        assert(p < q) by (nonlinear_arith)
            requires
                0 <= s < 2048,
                0 <= j < bs,
                bs > 0,
                p == s * bs + j,
                q == (4095 - s) * bs + j,
        ;
        assert(next =~= prev.update(p, prev[q]).update(q, prev[p])) by {
            assert forall|i: int| 0 <= i < orig.len() implies next[i] == prev.update(
                p,
                prev[q],
            ).update(q, prev[p])[i] by {
                lemma_byte_decomp(nonces, i);
                if pair_of(scoop_block(nonces, i)) == s && block_off(nonces, i) == j {
                    lemma_pair_member(nonces, s, i, j);
                }
            }
        }
        lemma_swap_two_multiset(prev, p, q);
    } else {
        assert(next =~= prev) by {
            assert forall|i: int| 0 <= i < orig.len() implies next[i] == prev[i] by {
                lemma_byte_decomp(nonces, i);
            }
        }
    }
}

/// The multiset of bytes is unchanged after any prefix of the pass.
proof fn lemma_partial_multiset(orig: Seq<u8>, nonces: int, s: int, j: int)
    requires
        nonces > 0,
        orig.len() == nonces * (NONCE_SIZE as int),
        0 <= s < SCOOPS_IN_NONCE as int / 2,
        0 <= j <= nonces * (SCOOP_SIZE as int),
    ensures
        partial_layout(orig, nonces, s, j).to_multiset() == orig.to_multiset(),
    decreases s, j,
{
    let bs = nonces * 64;
    if j > 0 {
        lemma_partial_multiset(orig, nonces, s, j - 1);
        lemma_partial_step_multiset(orig, nonces, s, j - 1);
    } else if s > 0 {
        assert(partial_layout(orig, nonces, s, 0) =~= partial_layout(orig, nonces, s - 1, bs)) by {
            assert forall|i: int| 0 <= i < orig.len() implies partial_layout(orig, nonces, s, 0)[i]
                == partial_layout(orig, nonces, s - 1, bs)[i] by {
                lemma_byte_decomp(nonces, i);
            }
        }
        lemma_partial_multiset(orig, nonces, s - 1, bs);
    } else {
        assert(partial_layout(orig, nonces, 0, 0) =~= orig) by {
            assert forall|i: int| 0 <= i < orig.len() implies partial_layout(orig, nonces, 0, 0)[i]
                == orig[i] by {
                lemma_byte_decomp(nonces, i);
            }
        }
    }
}

/// Byte conservation, multiset form: the conversion is a permutation of
/// the file's bytes, so the multiset of all bytes is conserved.
pub proof fn lemma_layout_multiset(data: Seq<u8>, nonces: int)
    requires
        nonces >= 0,
        data.len() == nonces * (NONCE_SIZE as int),
    ensures
        poc2_layout(data, nonces).to_multiset() == data.to_multiset(),
{
    if data.len() == 0 {
        assert(poc2_layout(data, nonces) =~= data);
    } else {
        let bs = nonces * 64;
        assert(nonces > 0) by (nonlinear_arith)
            requires
                nonces >= 0,
                nonces * 262144 == data.len(),
                data.len() > 0,
        ;
        assert(poc2_layout(data, nonces) =~= partial_layout(data, nonces, 2047, bs)) by {
            assert forall|i: int| 0 <= i < data.len() implies poc2_layout(data, nonces)[i]
                == partial_layout(data, nonces, 2047, bs)[i] by {
                lemma_byte_decomp(nonces, i);
            }
        }
        lemma_partial_multiset(data, nonces, 2047, bs);
    }
}

impl Plot {
    /// Size in bytes of one scoop block: one 64-byte record per nonce.
    pub fn block_size(&self) -> (r: u64)
        requires
            self.wf(),
        ensures
            r == self.nonces * (SCOOP_SIZE as int),
            (SCOOPS_IN_NONCE as int) * r == self.size,
    {
        proof {
            assert(self.nonces * 64 <= self.nonces * 262144 && 4096 * (self.nonces * 64)
                == self.nonces * 262144) by (nonlinear_arith)
                requires
                    self.nonces >= 0,
            ;
        }
        (self.nonces as u64) * SCOOP_SIZE
    }

    /// File offsets of the mirrored block pair of iteration `scoop`: the
    /// forward block `scoop`, addressed from the start, and the backward
    /// block `SCOOPS_IN_NONCE - 1 - scoop`, addressed by its distance from
    /// the end of the file.
    pub fn pair_offsets(&self, scoop: u64) -> (r: (u64, u64))
        requires
            self.wf(),
            scoop < SCOOPS_IN_NONCE / 2,
        ensures
            r.0 == scoop * (self.nonces * (SCOOP_SIZE as int)),
            r.1 == (SCOOPS_IN_NONCE as int - 1 - scoop) * (self.nonces * (SCOOP_SIZE as int)),
            r.1 == self.size - r.0 - self.nonces * (SCOOP_SIZE as int),
            r.0 + self.nonces * (SCOOP_SIZE as int) <= self.size,
            r.1 + self.nonces * (SCOOP_SIZE as int) <= self.size,
    {
        let bs = self.block_size();
        proof {
            assert(scoop * bs + bs <= 4096 * bs && (4095 - scoop) * bs + bs <= 4096 * bs && (4095
                - scoop) * bs == 4096 * bs - scoop * bs - bs) by (nonlinear_arith)
                requires
                    0 <= scoop < 2048,
                    bs >= 0,
            ;
        }
        let pos = scoop * bs;
        (pos, self.size - pos - bs)
    }

    /// Runs the whole scoop-pair swap pass over a plot's bytes in memory:
    /// for each mirrored block pair, swaps the second hash half of every
    /// record between the forward and the backward block.  The result is
    /// exactly the PoC2 layout of the input.
    #[verifier::loop_isolation(false)]
    pub fn convert(&self, data: &mut Vec<u8>)
        requires
            self.wf(),
            old(data)@.len() == self.size,
        ensures
            final(data)@.len() == old(data)@.len(),
            final(data)@ == poc2_layout(old(data)@, self.nonces as int),
    {
        let ghost orig = data@;
        let ghost nn = self.nonces as int;
        let len = data.len();
        proof {
            assert(nn <= len && nn * 64 <= len && 4096 * (nn * 64) == len) by (nonlinear_arith)
                requires
                    nn >= 0,
                    nn * 262144 == len,
            ;
        }
        let nonces_us = self.nonces as usize;
        let bs: usize = nonces_us * 64;
        proof {
            assert(partial_layout(orig, nn, 0, 0) =~= orig) by {
                assert forall|i: int| 0 <= i < orig.len() implies partial_layout(orig, nn, 0, 0)[i]
                    == orig[i] by {
                    assert(nn > 0) by (nonlinear_arith)
                        requires
                            nn >= 0,
                            nn * 262144 == len,
                            0 <= i < len,
                    ;
                    lemma_byte_decomp(nn, i);
                }
            }
        }
        let mut s: usize = 0;
        while s < 2048
            invariant
                0 <= s <= 2048,
                data@.len() == len,
                data@ == partial_layout(orig, nn, s as int, 0),
            decreases 2048 - s,
        {
            proof {
                assert(s * bs + bs <= len && (4095 - s) * bs + bs <= len) by (nonlinear_arith)
                    requires
                        0 <= s < 2048,
                        bs == nn * 64,
                        nn >= 0,
                        len == nn * 262144,
                ;
            }
            let pos = s * bs;
            let bpos = (4095 - s) * bs;
            let mut j: usize = 0;
            while j < bs
                invariant
                    0 <= j <= bs,
                    data@.len() == len,
                    data@ == partial_layout(orig, nn, s as int, j as int),
                decreases bs - j,
            {
                proof {
                    assert(nn > 0) by (nonlinear_arith)
                        requires
                            nn >= 0,
                            bs == nn * 64,
                            0 <= j < bs,
                    ;
                    lemma_byte_recomp(nn, s as int, j as int);
                    lemma_byte_recomp(nn, 4095 - s as int, j as int);
                }
                if j % 64 >= 32 {
                    let x = data[pos + j];
                    let y = data[bpos + j];
                    data[pos + j] = y;
                    data[bpos + j] = x;
                }
                proof {
                    assert(data@ =~= partial_layout(orig, nn, s as int, j + 1)) by {
                        assert forall|i: int| 0 <= i < len implies data@[i] == partial_layout(
                            orig,
                            nn,
                            s as int,
                            j + 1,
                        )[i] by {
                            lemma_byte_decomp(nn, i);
                            if pair_of(scoop_block(nn, i)) == s as int && block_off(nn, i)
                                == j as int {
                                lemma_pair_member(nn, s as int, i, j as int);
                            }
                        }
                    }
                }
                j = j + 1;
            }
            proof {
                assert(partial_layout(orig, nn, s as int, bs as int) =~= partial_layout(
                    orig,
                    nn,
                    s as int + 1,
                    0,
                )) by {
                    assert forall|i: int| 0 <= i < len implies partial_layout(
                        orig,
                        nn,
                        s as int,
                        bs as int,
                    )[i] == partial_layout(orig, nn, s as int + 1, 0)[i] by {
                        assert(nn > 0) by (nonlinear_arith)
                            requires
                                nn >= 0,
                                nn * 262144 == len,
                                0 <= i < len,
                        ;
                        lemma_byte_decomp(nn, i);
                    }
                }
            }
            s = s + 1;
        }
        proof {
            assert(data@ =~= poc2_layout(orig, nn)) by {
                assert forall|i: int| 0 <= i < len implies data@[i] == poc2_layout(orig, nn)[i] by {
                    assert(nn > 0) by (nonlinear_arith)
                        requires
                            nn >= 0,
                            nn * 262144 == len,
                            0 <= i < len,
                    ;
                    lemma_byte_decomp(nn, i);
                }
            }
        }
    }
}

} // verus!
