//! Split-block bloom filter: eight hash functions per key, all landing in
//! one 32-byte block (one cache line).
//!
//! The top half of a 64-bit hash picks the block; the low half, multiplied
//! by eight salts, picks one bit in each of the block's eight words.
//! Inserting only ever sets bits, so a key once inserted is always reported
//! as possibly present: there are no false negatives.
//!
//! Sizing from an expected element count and a false-positive rate takes
//! floating point; the filter here is built from the resulting bit count.
use vstd::prelude::*;
use std::hash::{BuildHasher, Hash};
use super::hash_map::{is_pow2, sub1, next_power_of_two, lemma_mask};
use crate::sort::order::{int_of, nat_int};

verus! {

/// Eight 32-bit words: one cache line.
#[derive(Clone, Copy)]
struct Block {
    words: [u32; 8],
}

/// Bloom filter over a power-of-two number of blocks.
pub struct BloomFilter {
    blocks: Vec<Block>,
}

/// The salt that derives hash function `i` from one 32-bit hash.
pub open spec fn salt_of(i: int) -> u32 {
    if i == 0 {
        0x47b6_137bu32
    } else if i == 1 {
        0x4497_4d91u32
    } else if i == 2 {
        0x8824_ad5bu32
    } else if i == 3 {
        0xa2b7_289du32
    } else if i == 4 {
        0x7054_95c7u32
    } else if i == 5 {
        0x2df1_424bu32
    } else if i == 6 {
        0x9efc_4947u32
    } else {
        0x5c6b_fb31u32
    }
}

fn salt(i: usize) -> (r: u32)
    requires
        i < 8,
    ensures
        r == salt_of(int_of(i)),
{
    if i == 0 {
        0x47b6_137b
    } else if i == 1 {
        0x4497_4d91
    } else if i == 2 {
        0x8824_ad5b
    } else if i == 3 {
        0xa2b7_289d
    } else if i == 4 {
        0x7054_95c7
    } else if i == 5 {
        0x2df1_424b
    } else if i == 6 {
        0x9efc_4947
    } else {
        0x5c6b_fb31
    }
}

/// The bit that hash function `i` picks within its word: the top five bits
/// of `h * salt(i)` (wrapping).
pub open spec fn bit_of(h: u32, i: int) -> u32 {
    h.wrapping_mul(salt_of(i)) >> 27u32
}

/// The low 32 bits of a hash.
pub open spec fn low_half(hash: u64) -> u32 {
    (hash & 0xffff_ffffu64) as u32
}

/// The block a hash selects among `nb` blocks.
pub open spec fn block_of(hash: u64, nb: nat) -> int {
    ((hash >> 32u64) as int) % (nb as int)
}

/// The words of `block` after inserting a hash whose low half is `h`.
pub open spec fn with_bits_set(block: Seq<u32>, h: u32) -> Seq<u32> {
    Seq::new(8, |i: int| block[i] | (1u32 << bit_of(h, i)))
}

/// Every one of the eight bits for `h` is set in `block`.
pub open spec fn all_bits_set(block: Seq<u32>, h: u32) -> bool {
    forall|i: int| 0 <= i < 8 ==> #[trigger] block[i] & (1u32 << bit_of(h, i)) != 0
}

proof fn lemma_bit_range(h: u32, s: u32)
    by (bit_vector)
    ensures
        h.wrapping_mul(s) >> 27u32 < 32,
{
}

proof fn lemma_or_sets(w: u32, b: u32)
    by (bit_vector)
    requires
        b < 32,
    ensures
        (w | (1u32 << b)) & (1u32 << b) != 0,
{
}

proof fn lemma_or_keeps(w: u32, m: u32, m2: u32)
    by (bit_vector)
    requires
        w & m2 != 0,
    ensures
        (w | m) & m2 != 0,
{
}

proof fn lemma_zero_clear(m: u32)
    by (bit_vector)
    ensures
        0u32 & m == 0,
{
}

proof fn lemma_low_half(hash: u64)
    by (bit_vector)
    ensures
        hash as u32 == (hash & 0xffff_ffffu64) as u32,
{
}

proof fn lemma_top_fits(hash: u64)
    by (bit_vector)
    ensures
        (hash >> 32u64) <= 0xffff_ffffu64,
{
}

proof fn lemma_block_bound(hash: u64, nb: nat)
    requires
        nb > 0,
    ensures
        0 <= block_of(hash, nb) < nb,
{
    vstd::arithmetic::div_mod::lemma_mod_bound((hash >> 32u64) as int, nb as int);
}

/// Inserting a hash sets all its bits.
pub proof fn lemma_insert_sets(block: Seq<u32>, h: u32)
    requires
        block.len() == 8,
    ensures
        all_bits_set(with_bits_set(block, h), h),
{
    assert forall|i: int| 0 <= i < 8 implies #[trigger] with_bits_set(block, h)[i] & (1u32 << bit_of(h, i)) != 0 by {
        lemma_bit_range(h, salt_of(i));
        lemma_or_sets(block[i], bit_of(h, i));
    }
}

/// Inserting a hash clears no bit.
pub proof fn lemma_insert_keeps(block: Seq<u32>, h: u32, g: u32)
    requires
        block.len() == 8,
        all_bits_set(block, g),
    ensures
        all_bits_set(with_bits_set(block, h), g),
{
    assert forall|i: int| 0 <= i < 8 implies #[trigger] with_bits_set(block, h)[i] & (1u32 << bit_of(g, i)) != 0 by {
        assert(block[i] & (1u32 << bit_of(g, i)) != 0);
        lemma_or_keeps(block[i], 1u32 << bit_of(h, i), 1u32 << bit_of(g, i));
    }
}

/// The blocks after inserting `hash`.
pub open spec fn after_insert(v: Seq<Seq<u32>>, hash: u64) -> Seq<Seq<u32>> {
    v.update(block_of(hash, v.len()), with_bits_set(v[block_of(hash, v.len())], low_half(hash)))
}

/// Blocks `v` report `hash` as possibly inserted.
pub open spec fn reports(v: Seq<Seq<u32>>, hash: u64) -> bool {
    all_bits_set(v[block_of(hash, v.len())], low_half(hash))
}

/// No false negatives: along any run of inserts, where each state is the
/// one before with `hashes[i]` inserted, the last state reports every
/// inserted hash.
pub proof fn law_no_false_negatives(states: Seq<Seq<Seq<u32>>>, hashes: Seq<u64>)
    requires
        states.len() == hashes.len() + 1,
        states[0].len() > 0,
        forall|b: int| 0 <= b < states[0].len() ==> #[trigger] states[0][b].len() == 8,
        forall|i: int| 0 <= i < hashes.len() ==> states[i + 1] == after_insert(states[i], #[trigger] hashes[i]),
    ensures
        forall|i: int| 0 <= i < hashes.len() ==> #[trigger] reports(states[states.len() - 1], hashes[i]),
    decreases hashes.len(),
{
    if hashes.len() > 0 {
        let n = hashes.len() - 1;
        let prev = states.take(n + 1);
        let hs = hashes.take(n);
        assert forall|i: int| 0 <= i < hs.len() implies prev[i + 1] == after_insert(prev[i], #[trigger] hs[i]) by {
            assert(states[i + 1] == after_insert(states[i], hashes[i]));
        }
        assert forall|b: int| 0 <= b < prev[0].len() implies #[trigger] prev[0][b].len() == 8 by {
            assert(states[0][b].len() == 8);
        }
        law_no_false_negatives(prev, hs);
        lemma_states_shape(states, hashes, n);
        let last = states[n];
        let fin = states[n + 1];
        assert(fin == after_insert(last, hashes[n]));
        let b = block_of(hashes[n], last.len());
        lemma_block_bound(hashes[n], last.len());
        lemma_insert_sets(last[b], low_half(hashes[n]));
        assert forall|i: int| 0 <= i < hashes.len() implies #[trigger] reports(states[states.len() - 1], hashes[i]) by {
            if i < n {
                assert(reports(prev[prev.len() - 1], hs[i]));
                let c = block_of(hashes[i], last.len());
                lemma_block_bound(hashes[i], last.len());
                if c == b {
                    lemma_insert_keeps(last[b], low_half(hashes[n]), low_half(hashes[i]));
                }
            }
        }
    }
}

/// Every state along a run of inserts has as many blocks as the first, of
/// eight words each.
proof fn lemma_states_shape(states: Seq<Seq<Seq<u32>>>, hashes: Seq<u64>, k: int)
    requires
        states.len() == hashes.len() + 1,
        0 <= k < states.len(),
        states[0].len() > 0,
        forall|b: int| 0 <= b < states[0].len() ==> #[trigger] states[0][b].len() == 8,
        forall|i: int| 0 <= i < hashes.len() ==> states[i + 1] == after_insert(states[i], #[trigger] hashes[i]),
    ensures
        states[k].len() == states[0].len(),
        forall|b: int| 0 <= b < states[k].len() ==> #[trigger] states[k][b].len() == 8,
    decreases k,
{
    if k > 0 {
        lemma_states_shape(states, hashes, k - 1);
        let prev = states[k - 1];
        assert(states[k] == after_insert(prev, hashes[k - 1]));
        lemma_block_bound(hashes[k - 1], prev.len());
        assert forall|b: int| 0 <= b < states[k].len() implies #[trigger] states[k][b].len() == 8 by {
            assert(prev[b].len() == 8);
        }
    }
}

impl View for BloomFilter {
    type V = Seq<Seq<u32>>;

    /// The words of each block.
    closed spec fn view(&self) -> Seq<Seq<u32>> {
        Seq::new(self.blocks@.len(), |b: int| self.blocks@[b].words@)
    }
}

impl BloomFilter {
    /// A power of two number of blocks.
    pub closed spec fn wf(&self) -> bool {
        &&& is_pow2(self.blocks.len())
        &&& self.blocks@.len() <= usize::MAX / 2
    }

    /// A filter has at least one block, each of eight words: what
    /// `law_no_false_negatives` asks of its first state.
    pub proof fn lemma_shape(&self)
        requires
            self.wf(),
        ensures
            self@.len() > 0,
            forall|b: int| 0 <= b < self@.len() ==> #[trigger] self@[b].len() == 8,
    {
        let k = choose|k: nat| vstd::arithmetic::power2::pow2(k) == self.blocks.len();
        vstd::arithmetic::power2::lemma_pow2_pos(k);
    }

    /// A hash may have been inserted: all eight of its bits are set.
    pub open spec fn might_contain(&self, hash: u64) -> bool {
        all_bits_set(self@[block_of(hash, self@.len())], low_half(hash))
    }

    /// An empty filter of `ceil(num_bits / 256)` blocks rounded up to a
    /// power of two (at least one).
    pub fn with_num_bits(num_bits: usize) -> (bf: Self)
        ensures
            bf.wf(),
            exists|k: nat| vstd::arithmetic::power2::pow2(k) == bf@.len(),
            chunks_for(int_of(num_bits)) <= bf@.len(),
            bf@.len() == 1 || bf@.len() / 2 < chunks_for(int_of(num_bits)),
            forall|b: int, i: int| 0 <= b < bf@.len() && 0 <= i < 8 ==> #[trigger] bf@[b][i] == 0,
            forall|hash: u64| !bf.might_contain(hash),
    {
        let chunks = num_bits / 256 + if num_bits % 256 != 0 { 1 } else { 0 };
        let nb = if chunks == 0 { 1 } else { next_power_of_two(chunks) };
        let mut blocks: Vec<Block> = Vec::new();
        let mut i: usize = 0;
        while i < nb
            invariant
                i <= nb,
                blocks@.len() == i,
                forall|b: int| 0 <= b < i ==> #[trigger] blocks@[b].words@ == seq![0u32, 0, 0, 0, 0, 0, 0, 0],
            decreases nb - i,
        {
            let blk = Block { words: [0u32; 8] };
            assert(blk.words@ =~= seq![0u32, 0, 0, 0, 0, 0, 0, 0]);
            blocks.push(blk);
            i = i + 1;
        }
        let bf = BloomFilter { blocks };
        proof {
            if chunks == 0 {
                vstd::arithmetic::power2::lemma2_to64();
                assert(vstd::arithmetic::power2::pow2(0) == 1);
            }
            assert forall|hash: u64| !bf.might_contain(hash) by {
                let b = block_of(hash, bf@.len());
                lemma_block_bound(hash, bf@.len());
                lemma_zero_clear(1u32 << bit_of(low_half(hash), 0));
                assert(bf@[b][0] == 0);
            }
        }
        bf
    }

    /// Which block a hash selects.
    fn block_index(&self, hash: u64) -> (b: usize)
        requires
            self.wf(),
        ensures
            b < self.blocks@.len(),
            b == block_of(hash, self@.len()),
    {
        let nb = self.blocks.len();
        let top = (hash >> 32) as usize;
        proof {
            lemma_top_fits(hash);
            let k = choose|k: nat| vstd::arithmetic::power2::pow2(k) == nb;
            vstd::arithmetic::power2::lemma_pow2_pos(k);
            lemma_mask(top, nb);
            vstd::arithmetic::div_mod::lemma_mod_bound(top as int, nb as int);
        }
        top & (nb - 1)
    }

    /// Records a pre-hashed value: sets its eight bits.  O(1).
    pub fn insert(&mut self, hash: u64)
        requires
            old(self).wf(),
        ensures
            final(self).wf(),
            final(self)@ == after_insert(old(self)@, hash),
            final(self).might_contain(hash),
            forall|g: u64| old(self).might_contain(g) ==> final(self).might_contain(g),
    {
        let b = self.block_index(hash);
        let h = hash as u32;
        proof {
            lemma_low_half(hash);
        }
        let mut blk = self.blocks[b];
        let ghost w0 = blk.words@;
        let mut i: usize = 0;
        while i < 8
            invariant
                i <= 8,
                blk.words@.len() == 8,
                h == low_half(hash),
                forall|j: int| 0 <= j < i ==> #[trigger] blk.words@[j] == w0[j] | (1u32 << bit_of(h, j)),
                forall|j: int| i <= j < 8 ==> #[trigger] blk.words@[j] == w0[j],
            decreases 8 - i,
        {
            let bit = h.wrapping_mul(salt(i)) >> 27;
            proof {
                lemma_bit_range(h, salt_of(int_of(i)));
            }
            blk.words[i] = blk.words[i] | (1u32 << bit);
            i = i + 1;
        }
        self.blocks.set(b, blk);
        proof {
            let nb = old(self)@.len();
            assert(blk.words@ =~= with_bits_set(w0, h));
            assert(self@ =~= old(self)@.update(int_of(b), with_bits_set(w0, h)));
            lemma_insert_sets(w0, h);
            assert forall|g: u64| old(self).might_contain(g) implies self.might_contain(g) by {
                let bg = block_of(g, nb);
                if bg == b {
                    lemma_insert_keeps(w0, h, low_half(g));
                }
            }
        }
    }

    /// Whether a pre-hashed value may have been inserted: all eight of its
    /// bits are set.  Never false for a value that was inserted.  O(1).
    pub fn maybe_contains(&self, hash: u64) -> (r: bool)
        requires
            self.wf(),
        ensures
            r == self.might_contain(hash),
    {
        let b = self.block_index(hash);
        let h = hash as u32;
        proof {
            lemma_low_half(hash);
        }
        let blk = &self.blocks[b];
        let mut i: usize = 0;
        while i < 8
            invariant
                i <= 8,
                blk.words@.len() == 8,
                *blk == self.blocks@[int_of(b)],
                b < self.blocks@.len(),
                int_of(b) == block_of(hash, self@.len()),
                h == low_half(hash),
                forall|j: int| 0 <= j < i ==> #[trigger] blk.words@[j] & (1u32 << bit_of(h, j)) != 0,
            decreases 8 - i,
        {
            let bit = h.wrapping_mul(salt(i)) >> 27;
            proof {
                lemma_bit_range(h, salt_of(int_of(i)));
            }
            if blk.words[i] & (1u32 << bit) == 0 {
                proof {
                    assert(self@[int_of(b)][int_of(i)] == blk.words@[int_of(i)]);
                    assert(self@[int_of(b)][int_of(i)] & (1u32 << bit_of(h, int_of(i))) == 0);
                }
                return false;
            }
            i = i + 1;
        }
        true
    }
}

/// Number of 256-bit blocks that `num_bits` bits fill, rounding up.
pub open spec fn chunks_for(num_bits: int) -> int {
    num_bits / 256 + if num_bits % 256 != 0 { 1int } else { 0int }
}

/// A 64-bit hash of `val` from `hash_builder` (`BuildHasher::hash_one`).
/// Use one builder for both inserting and probing.  Nothing is claimed of
/// the value: it depends on the builder's seed.
#[verifier::external_body]
pub fn compute_hash<T: Hash, B: BuildHasher>(val: &T, hash_builder: &B) -> u64 {
    hash_builder.hash_one(val)
}

} // verus!
