//! A set of small non-negative integers stored as bits, in one `u64`, one `u128` or a vector
//! of `u64` blocks.

use std::collections::HashSet;
use vstd::prelude::*;

verus! {

/// Bit `i` of a 64-bit word.
pub open spec fn bit64(x: u64, i: u64) -> bool {
    (x >> i) & 1u64 == 1u64
}

/// Bit `i` of a 128-bit word.
pub open spec fn bit128(x: u128, i: u128) -> bool {
    (x >> i) & 1u128 == 1u128
}

pub proof fn lemma_bit64_or_single(x: u64, p: u64, i: u64)
    by (bit_vector)
    requires
        p < 64,
        i < 64,
    ensures
        bit64(x | (1u64 << p), i) == (bit64(x, i) || i == p),
{
}

pub proof fn lemma_bit64_clear_single(x: u64, p: u64, i: u64)
    by (bit_vector)
    requires
        p < 64,
        i < 64,
    ensures
        bit64(x & !(1u64 << p), i) == (bit64(x, i) && i != p),
{
}

pub proof fn lemma_bit64_test(x: u64, p: u64)
    by (bit_vector)
    requires
        p < 64,
    ensures
        ((x & (1u64 << p)) != 0) == bit64(x, p),
{
}

pub proof fn lemma_bit128_or_single(x: u128, p: u128, i: u128)
    by (bit_vector)
    requires
        p < 128,
        i < 128,
    ensures
        bit128(x | (1u128 << p), i) == (bit128(x, i) || i == p),
{
}

pub proof fn lemma_bit128_clear_single(x: u128, p: u128, i: u128)
    by (bit_vector)
    requires
        p < 128,
        i < 128,
    ensures
        bit128(x & !(1u128 << p), i) == (bit128(x, i) && i != p),
{
}

pub proof fn lemma_bit128_test(x: u128, p: u128)
    by (bit_vector)
    requires
        p < 128,
    ensures
        ((x & (1u128 << p)) != 0) == bit128(x, p),
{
}

pub proof fn lemma_bit64_zero_max(i: u64)
    by (bit_vector)
    ensures
        !bit64(0, i),
        i < 64 ==> bit64(0xffff_ffff_ffff_ffffu64, i),
{
}

/// The low `n` bits of a 64-bit word are set, the others clear.
pub proof fn lemma_bit64_low_mask(n: u64, i: u64)
    by (bit_vector)
    requires
        n < 64,
        i < 64,
    ensures
        bit64(((1u64 << n) - 1u64) as u64, i) == (i < n),
        (1u64 << n) >= 1,
{
}

/// The low `n` bits of a 128-bit word are set, the others clear; also the all-ones word.
pub proof fn lemma_bit128_low_mask(n: u128, i: u128)
    by (bit_vector)
    ensures
        n < 128 && i < 128 ==> bit128(((1u128 << n) - 1u128) as u128, i) == (i < n),
        n < 128 ==> (1u128 << n) >= 1,
        i < 128 ==> bit128(0xffff_ffff_ffff_ffff_ffff_ffff_ffff_ffffu128, i),
        !bit128(0, i),
{
}

pub proof fn lemma_bit64_and(a: u64, b: u64, i: u64)
    by (bit_vector)
    ensures
        bit64(a & b, i) == (bit64(a, i) && bit64(b, i)),
        bit64(a | b, i) == (bit64(a, i) || bit64(b, i)),
        bit64(a & !b, i) == (bit64(a, i) && !bit64(b, i)),
{
}

pub proof fn lemma_bit128_and(a: u128, b: u128, i: u128)
    by (bit_vector)
    ensures
        bit128(a & b, i) == (bit128(a, i) && bit128(b, i)),
        bit128(a | b, i) == (bit128(a, i) || bit128(b, i)),
        bit128(a & !b, i) == (bit128(a, i) && !bit128(b, i)),
{
}

/// The low and high halves of a 128-bit word.
pub proof fn lemma_bit128_halves(x: u128, i: u64)
    by (bit_vector)
    requires
        i < 64,
    ensures
        bit128(x, i as u128) == bit64(x as u64, i),
        bit128(x, (i + 64) as u128) == bit64((x >> 64u128) as u64, i),
        (x as u64 == 0 && (x >> 64u128) as u64 == 0) == (x == 0),
{
}

/// Shifting right by one moves each bit down one place.
pub proof fn lemma_bit64_shr1(x: u64, i: u64)
    by (bit_vector)
    requires
        i < 64,
    ensures
        bit64(x >> 1u64, i) == (i < 63 && bit64(x, (i + 1) as u64)),
        ((x & 1u64) != 0) == bit64(x, 0),
{
}

/// Removing position `p` from a word: bits below `p` stay, bits above move down one place.
pub proof fn lemma_bit64_close_gap(x: u64, p: u64, i: u64)
    by (bit_vector)
    requires
        p < 64,
        i < 64,
    ensures
        bit64(
            (x & ((1u64 << p) - 1u64) as u64) | ((x >> 1u64) & !(((1u64 << p) - 1u64) as u64)),
            i,
        ) == if i < p {
            bit64(x, i)
        } else {
            i < 63 && bit64(x, (i + 1) as u64)
        },
{
}

/// Removing position `p` from a 128-bit word.
pub proof fn lemma_bit128_close_gap(x: u128, p: u128, i: u128)
    by (bit_vector)
    requires
        p < 128,
        i < 128,
    ensures
        bit128(
            (x & ((1u128 << p) - 1u128) as u128) | ((x >> 1u128) & !(((1u128 << p)
                - 1u128) as u128)),
            i,
        ) == if i < p {
            bit128(x, i)
        } else {
            i < 127 && bit128(x, (i + 1) as u128)
        },
{
}

/// The number of `k` below `n` for which `p(k)` holds.
pub open spec fn count_below(p: spec_fn(int) -> bool, n: int) -> nat
    decreases n,
{
    if n <= 0 {
        0
    } else {
        count_below(p, n - 1) + if p(n - 1) {
            1nat
        } else {
            0nat
        }
    }
}

/// `count_below` is the size of the set it counts.
pub proof fn lemma_count_below(p: spec_fn(int) -> bool, n: int)
    requires
        n >= 0,
    ensures
        Set::new(|k: int| 0 <= k < n && p(k)).finite(),
        Set::new(|k: int| 0 <= k < n && p(k)).len() == count_below(p, n),
    decreases n,
{
    let s = Set::new(|k: int| 0 <= k < n && p(k));
    if n == 0 {
        assert(s =~= Set::empty());
    } else {
        lemma_count_below(p, n - 1);
        let t = Set::new(|k: int| 0 <= k < n - 1 && p(k));
        if p(n - 1) {
            assert(s =~= t.insert(n - 1));
        } else {
            assert(s =~= t);
        }
    }
}

/// The positions of the bits of a 64-bit word.
pub open spec fn word64_set(x: u64) -> Set<int> {
    Set::new(|k: int| 0 <= k < 64 && bit64(x, k as u64))
}

/// The positions of the bits of a 128-bit word.
pub open spec fn word128_set(x: u128) -> Set<int> {
    Set::new(|k: int| 0 <= k < 128 && bit128(x, k as u128))
}

/// The positions below `64 * nblocks` set in the blocks `a` (and also in `b` when `both`).
pub open spec fn blocks_set(a: Seq<u64>, b: Seq<u64>, nblocks: int, both: bool) -> Set<int> {
    Set::new(
        |k: int|
            0 <= k < 64 * nblocks && bit64(a[k / 64], (k % 64) as u64) && (!both || bit64(
                b[k / 64],
                (k % 64) as u64,
            )),
    )
}

/// A set of non-negative integers below a fixed capacity.
#[derive(Debug, Clone, PartialEq, Eq, Hash)]
pub enum BitSet {
    Small(u64),
    Medium(u128),
    Large(Vec<u64>),
}

impl BitSet {
    /// The positions this set can hold: 64, 128, or 64 per block.
    pub open spec fn capacity(&self) -> int {
        match self {
            BitSet::Small(_) => 64,
            BitSet::Medium(_) => 128,
            BitSet::Large(blocks) => 64 * blocks.len(),
        }
    }

    /// Whether position `i` is in the set.
    pub open spec fn has(&self, i: int) -> bool {
        match self {
            BitSet::Small(x) => 0 <= i < 64 && bit64(*x, i as u64),
            BitSet::Medium(x) => 0 <= i < 128 && bit128(*x, i as u128),
            BitSet::Large(blocks) => 0 <= i < 64 * blocks.len() && bit64(
                blocks@[i / 64],
                (i % 64) as u64,
            ),
        }
    }

    /// Every position, and the capacity, fits in a `usize`.
    pub open spec fn wf(&self) -> bool {
        self.capacity() <= usize::MAX
    }

    /// Whether two sets use the same variant and, for blocks, the same number of blocks.
    pub open spec fn same_shape(&self, other: &BitSet) -> bool {
        match (self, other) {
            (BitSet::Small(_), BitSet::Small(_)) => true,
            (BitSet::Medium(_), BitSet::Medium(_)) => true,
            (BitSet::Large(a), BitSet::Large(b)) => a.len() == b.len(),
            _ => false,
        }
    }

    /// Whether two sets use the same variant (blocks may differ in number).
    pub open spec fn same_variant(&self, other: &BitSet) -> bool {
        match (self, other) {
            (BitSet::Small(_), BitSet::Small(_)) => true,
            (BitSet::Medium(_), BitSet::Medium(_)) => true,
            (BitSet::Large(_), BitSet::Large(_)) => true,
            _ => false,
        }
    }
}

impl View for BitSet {
    type V = Set<int>;

    open spec fn view(&self) -> Set<int> {
        Set::new(|i: int| self.has(i))
    }
}

/// The capacity `BitSet::new(n)` gives.
pub open spec fn capacity_for(n: int) -> int {
    if n <= 64 {
        64
    } else if n <= 128 {
        128
    } else {
        64 * ((n + 63) / 64)
    }
}

impl BitSet {
    pub proof fn lemma_view_finite(&self)
        ensures
            self@.finite(),
            forall|i: int| self@.contains(i) ==> 0 <= i < self.capacity(),
    {
        let r = vstd::set_lib::set_int_range(0, self.capacity());
        vstd::set_lib::lemma_int_range(0, self.capacity());
        assert(self@.subset_of(r));
        vstd::set_lib::lemma_len_subset(self@, r);
    }

    /// Creates an empty set that can hold the positions below `n`.
    pub fn new(n: usize) -> (r: BitSet)
        requires
            n <= usize::MAX - 63,
        ensures
            r@ == Set::<int>::empty(),
            r.capacity() == capacity_for(n as int),
            r.wf(),
            n <= 64 ==> r is Small,
            64 < n <= 128 ==> r is Medium,
            n > 128 ==> r is Large,
    {
        if n <= 64 {
            assert(BitSet::Small(0)@ =~= Set::empty()) by {
                assert forall|i: u64| !bit64(0, i) by {
                    lemma_bit64_zero_max(i);
                }
            }
            BitSet::Small(0)
        } else if n <= 128 {
            assert(BitSet::Medium(0)@ =~= Set::empty()) by {
                assert forall|i: u128| !bit128(0, i) by {
                    lemma_bit128_low_mask(0, i);
                }
            }
            BitSet::Medium(0)
        } else {
            let blocks = vec![0u64; (n + 63) / 64];
            let r = BitSet::Large(blocks);
            assert(r@ =~= Set::empty()) by {
                assert forall|i: u64| !bit64(0, i) by {
                    lemma_bit64_zero_max(i);
                }
            }
            r
        }
    }
}

impl BitSet {
    /// Creates the set of all positions below `n`.
    pub fn full(n: usize) -> (r: BitSet)
        requires
            n <= usize::MAX - 63,
        ensures
            r@ == Set::new(|i: int| 0 <= i < n),
            r.capacity() == capacity_for(n as int),
            r.wf(),
            n <= 64 ==> r is Small,
            64 < n <= 128 ==> r is Medium,
            n > 128 ==> r is Large,
    {
        if n == 0 {
            let r = BitSet::Small(0);
            assert(r@ =~= Set::new(|i: int| 0 <= i < n)) by {
                assert forall|i: u64| !bit64(0, i) by {
                    lemma_bit64_zero_max(i);
                }
            }
            r
        } else if n <= 63 {
            proof {
                lemma_bit64_low_mask(n as u64, 0);
            }
            let r = BitSet::Small((1u64 << n) - 1);
            assert(r@ =~= Set::new(|i: int| 0 <= i < n)) by {
                assert forall|i: u64| i < 64 implies #[trigger] bit64(((1u64 << n as u64) - 1u64) as u64, i) == (i
                    < n) by {
                    lemma_bit64_low_mask(n as u64, i);
                }
            }
            r
        } else if n == 64 {
            let r = BitSet::Small(u64::MAX);
            assert(r@ =~= Set::new(|i: int| 0 <= i < n)) by {
                assert forall|i: u64| i < 64 implies #[trigger] bit64(u64::MAX, i) by {
                    lemma_bit64_zero_max(i);
                }
            }
            r
        } else if n <= 127 {
            proof {
                lemma_bit128_low_mask(n as u128, 0);
            }
            let r = BitSet::Medium((1u128 << n) - 1);
            assert(r@ =~= Set::new(|i: int| 0 <= i < n)) by {
                assert forall|i: u128| i < 128 implies #[trigger] bit128(((1u128 << n as u128) - 1u128) as u128, i)
                    == (i < n) by {
                    lemma_bit128_low_mask(n as u128, i);
                }
            }
            r
        } else if n == 128 {
            let r = BitSet::Medium(u128::MAX);
            assert(r@ =~= Set::new(|i: int| 0 <= i < n)) by {
                assert forall|i: u128| i < 128 implies #[trigger] bit128(u128::MAX, i) by {
                    lemma_bit128_low_mask(0, i);
                }
            }
            r
        } else {
            let num_blocks = (n + 63) / 64;
            let mut blocks = vec![u64::MAX; num_blocks];
            let rem = n % 64;
            if rem != 0 {
                proof {
                    lemma_bit64_low_mask(rem as u64, 0);
                }
                blocks.set(num_blocks - 1, (1u64 << rem) - 1);
            }
            let r = BitSet::Large(blocks);
            assert(r@ =~= Set::new(|i: int| 0 <= i < n)) by {
                assert forall|i: int| 0 <= i < 64 * num_blocks implies #[trigger] bit64(
                    blocks@[i / 64],
                    (i % 64) as u64,
                ) == (i < n) by {
                    lemma_bit64_zero_max((i % 64) as u64);
                    if rem != 0 && i / 64 == num_blocks - 1 {
                        lemma_bit64_low_mask(rem as u64, (i % 64) as u64);
                    }
                }
            }
            r
        }
    }

    /// The set whose bits are those of `bits`.
    pub fn from_u64(bits: u64) -> (r: BitSet)
        ensures
            r == BitSet::Small(bits),
            r.wf(),
    {
        BitSet::Small(bits)
    }

    /// The set whose bits are those of `bits`.
    pub fn from_u128(bits: u128) -> (r: BitSet)
        ensures
            r == BitSet::Medium(bits),
            r.wf(),
    {
        BitSet::Medium(bits)
    }

    /// The set whose bits are those of `blocks`, block `b` holding positions `64 * b` to
    /// `64 * b + 63`.
    pub fn from_blocks(blocks: Vec<u64>) -> (r: BitSet)
        ensures
            r == BitSet::Large(blocks),
    {
        BitSet::Large(blocks)
    }

    /// Whether `pos` can be inserted or removed without leaving the capacity.
    pub open spec fn in_capacity(&self, pos: int) -> bool {
        0 <= pos < self.capacity()
    }

    /// Adds `pos` to the set.
    pub fn insert(&mut self, pos: usize)
        requires
            old(self).in_capacity(pos as int),
        ensures
            final(self)@ == old(self)@.insert(pos as int),
            final(self).same_shape(old(self)),
            final(self).capacity() == old(self).capacity(),
    {
        match self {
            BitSet::Small(bits) => {
                let x = *bits;
                *bits = x | (1u64 << (pos as u64));
                proof {
                    assert forall|i: u64| i < 64 implies #[trigger] bit64(x | (1u64 << pos as u64), i) == (
                    bit64(x, i) || i == pos) by {
                        lemma_bit64_or_single(x, pos as u64, i);
                    }
                }
            },
            BitSet::Medium(bits) => {
                let x = *bits;
                *bits = x | (1u128 << (pos as u128));
                proof {
                    assert forall|i: u128| i < 128 implies #[trigger] bit128(x | (1u128 << pos as u128), i)
                        == (bit128(x, i) || i == pos) by {
                        lemma_bit128_or_single(x, pos as u128, i);
                    }
                }
            },
            BitSet::Large(blocks) => {
                let ghost old_blocks = blocks@;
                let b = pos / 64;
                let x = blocks[b];
                blocks.set(b, x | (1u64 << ((pos % 64) as u64)));
                proof {
                    assert forall|i: int| 0 <= i < 64 * old_blocks.len() implies #[trigger] bit64(
                        blocks@[i / 64],
                        (i % 64) as u64,
                    ) == (bit64(old_blocks[i / 64], (i % 64) as u64) || i == pos) by {
                        if i / 64 == b {
                            lemma_bit64_or_single(x, (pos % 64) as u64, (i % 64) as u64);
                        }
                    }
                }
            },
        }
        assert(self@ =~= old(self)@.insert(pos as int));
    }

    /// Removes `pos` from the set.
    pub fn remove(&mut self, pos: usize)
        requires
            old(self).in_capacity(pos as int),
        ensures
            final(self)@ == old(self)@.remove(pos as int),
            final(self).same_shape(old(self)),
            final(self).capacity() == old(self).capacity(),
    {
        match self {
            BitSet::Small(bits) => {
                let x = *bits;
                *bits = x & !(1u64 << (pos as u64));
                proof {
                    assert forall|i: u64| i < 64 implies #[trigger] bit64(x & !(1u64 << pos as u64), i) == (
                    bit64(x, i) && i != pos) by {
                        lemma_bit64_clear_single(x, pos as u64, i);
                    }
                }
            },
            BitSet::Medium(bits) => {
                let x = *bits;
                *bits = x & !(1u128 << (pos as u128));
                proof {
                    assert forall|i: u128| i < 128 implies #[trigger] bit128(x & !(1u128 << pos as u128), i)
                        == (bit128(x, i) && i != pos) by {
                        lemma_bit128_clear_single(x, pos as u128, i);
                    }
                }
            },
            BitSet::Large(blocks) => {
                let ghost old_blocks = blocks@;
                let b = pos / 64;
                let x = blocks[b];
                blocks.set(b, x & !(1u64 << ((pos % 64) as u64)));
                proof {
                    assert forall|i: int| 0 <= i < 64 * old_blocks.len() implies #[trigger] bit64(
                        blocks@[i / 64],
                        (i % 64) as u64,
                    ) == (bit64(old_blocks[i / 64], (i % 64) as u64) && i != pos) by {
                        if i / 64 == b {
                            lemma_bit64_clear_single(x, (pos % 64) as u64, (i % 64) as u64);
                        }
                    }
                }
            },
        }
        assert(self@ =~= old(self)@.remove(pos as int));
    }

    /// Whether the bitset stores small positions in a single word, so that a position past the
    /// word cannot be tested.
    pub open spec fn testable(&self, pos: int) -> bool {
        match self {
            BitSet::Small(_) => pos < 64,
            BitSet::Medium(_) => pos < 128,
            BitSet::Large(_) => true,
        }
    }

    /// Whether `pos` is in the set.
    pub fn contains(&self, pos: usize) -> (r: bool)
        requires
            self.testable(pos as int),
        ensures
            r == self@.contains(pos as int),
    {
        match self {
            BitSet::Small(bits) => {
                proof {
                    lemma_bit64_test(*bits, pos as u64);
                }
                (*bits & (1u64 << (pos as u64))) != 0
            },
            BitSet::Medium(bits) => {
                proof {
                    lemma_bit128_test(*bits, pos as u128);
                }
                (*bits & (1u128 << (pos as u128))) != 0
            },
            BitSet::Large(blocks) => {
                let idx = pos / 64;
                if idx < blocks.len() {
                    proof {
                        lemma_bit64_test(blocks@[idx as int], (pos % 64) as u64);
                    }
                    (blocks[idx] & (1u64 << ((pos % 64) as u64))) != 0
                } else {
                    false
                }
            },
        }
    }
}

impl BitSet {
    /// Counts the positions below `64 * nblocks` at which both block vectors hold a bit.
    fn count_blocks(a: &Vec<u64>, b: &Vec<u64>, nblocks: usize, both: bool) -> (r: usize)
        requires
            nblocks <= a.len(),
            both ==> nblocks <= b.len(),
            64 * nblocks <= usize::MAX,
        ensures
            r == blocks_set(a@, b@, nblocks as int, both).len(),
    {
        let ghost p = |k: int|
            bit64(a@[k / 64], (k % 64) as u64) && (!both || bit64(b@[k / 64], (k % 64) as u64));
        let mut c: usize = 0;
        let mut blk: usize = 0;
        while blk < nblocks
            invariant
                blk <= nblocks <= a.len(),
                both ==> nblocks <= b.len(),
                64 * nblocks <= usize::MAX,
                p == (|k: int|
                    bit64(a@[k / 64], (k % 64) as u64) && (!both || bit64(
                        b@[k / 64],
                        (k % 64) as u64,
                    ))),
                c == count_below(p, 64 * blk),
                c <= 64 * blk,
            decreases nblocks - blk,
        {
            let x = a[blk];
            let y = if both {
                b[blk]
            } else {
                u64::MAX
            };
            let w = x & y;
            let mut j: u64 = 0;
            while j < 64
                invariant
                    blk < nblocks <= a.len(),
                    both ==> nblocks <= b.len(),
                    64 * nblocks <= usize::MAX,
                    j <= 64,
                    x == a@[blk as int],
                    both ==> y == b@[blk as int],
                    !both ==> y == u64::MAX,
                    w == x & y,
                    p == (|k: int|
                        bit64(a@[k / 64], (k % 64) as u64) && (!both || bit64(
                            b@[k / 64],
                            (k % 64) as u64,
                        ))),
                    c == count_below(p, 64 * blk + j),
                    c <= 64 * blk + j,
                decreases 64 - j,
            {
                proof {
                    lemma_bit64_test(w, j);
                    lemma_bit64_and(x, y, j);
                    lemma_bit64_zero_max(j);
                    let k = 64 * blk + j;
                    assert(k / 64 == blk && k % 64 == j);
                }
                if w & (1u64 << j) != 0 {
                    c = c + 1;
                }
                j = j + 1;
            }
            blk = blk + 1;
        }
        proof {
            lemma_count_below(p, 64 * nblocks);
            assert(Set::new(|k: int| 0 <= k < 64 * nblocks && p(k)) =~= blocks_set(
                a@,
                b@,
                nblocks as int,
                both,
            ));
        }
        c
    }

    /// Counts the bits of `x`.
    fn count_word64(x: u64) -> (r: usize)
        ensures
            r == word64_set(x).len(),
    {
        let ghost p = |k: int| 0 <= k < 64 && bit64(x, k as u64);
        let mut c: usize = 0;
        let mut j: u64 = 0;
        while j < 64
            invariant
                j <= 64,
                p == (|k: int| 0 <= k < 64 && bit64(x, k as u64)),
                c == count_below(p, j as int),
                c <= j,
            decreases 64 - j,
        {
            proof {
                lemma_bit64_test(x, j);
                assert(p(j as int) == ((x & (1u64 << j)) != 0));
                assert(count_below(p, j + 1) == count_below(p, j as int) + if p(j as int) {
                    1nat
                } else {
                    0nat
                });
            }
            if x & (1u64 << j) != 0 {
                c = c + 1;
            }
            j = j + 1;
        }
        proof {
            lemma_count_below(p, 64);
            assert(Set::new(|k: int| 0 <= k < 64 && p(k)) =~= word64_set(x));
        }
        c
    }

    /// Counts the bits of `x`.
    fn count_word128(x: u128) -> (r: usize)
        ensures
            r == word128_set(x).len(),
    {
        let ghost p = |k: int| 0 <= k < 128 && bit128(x, k as u128);
        let mut c: usize = 0;
        let mut j: u128 = 0;
        while j < 128
            invariant
                j <= 128,
                p == (|k: int| 0 <= k < 128 && bit128(x, k as u128)),
                c == count_below(p, j as int),
                c <= j,
            decreases 128 - j,
        {
            proof {
                lemma_bit128_test(x, j);
            }
            if x & (1u128 << j) != 0 {
                c = c + 1;
            }
            j = j + 1;
        }
        proof {
            lemma_count_below(p, 128);
            assert(Set::new(|k: int| 0 <= k < 128 && p(k)) =~= word128_set(x));
        }
        c
    }

    /// The number of elements.
    pub fn len(&self) -> (r: usize)
        requires
            self.wf(),
        ensures
            r == self@.len(),
    {
        match self {
            BitSet::Small(bits) => {
                let r = Self::count_word64(*bits);
                assert(self@ =~= word64_set(*bits));
                r
            },
            BitSet::Medium(bits) => {
                let r = Self::count_word128(*bits);
                assert(self@ =~= word128_set(*bits));
                r
            },
            BitSet::Large(blocks) => {
                let r = Self::count_blocks(blocks, blocks, blocks.len(), false);
                assert(self@ =~= blocks_set(blocks@, blocks@, blocks.len() as int, false));
                r
            },
        }
    }

    /// The number of elements the two sets share.
    pub fn intersection_len(&self, rhs: &BitSet) -> (r: usize)
        requires
            self.wf(),
            rhs.wf(),
            self.same_variant(rhs),
        ensures
            r == self@.intersect(rhs@).len(),
    {
        match (self, rhs) {
            (BitSet::Small(a), BitSet::Small(b)) => {
                let w = *a & *b;
                let r = Self::count_word64(w);
                proof {
                    assert forall|k: u64| #[trigger] bit64(w, k) == (bit64(*a, k) && bit64(*b, k)) by {
                        lemma_bit64_and(*a, *b, k);
                    }
                    assert(self@.intersect(rhs@) =~= word64_set(w));
                }
                r
            },
            (BitSet::Medium(a), BitSet::Medium(b)) => {
                let w = *a & *b;
                let r = Self::count_word128(w);
                proof {
                    assert forall|k: u128| #[trigger] bit128(w, k) == (bit128(*a, k) && bit128(*b, k)) by {
                        lemma_bit128_and(*a, *b, k);
                    }
                    assert(self@.intersect(rhs@) =~= word128_set(w));
                }
                r
            },
            (BitSet::Large(a), BitSet::Large(b)) => {
                let nb = if a.len() < b.len() {
                    a.len()
                } else {
                    b.len()
                };
                let r = Self::count_blocks(a, b, nb, true);
                assert(self@.intersect(rhs@) =~= blocks_set(a@, b@, nb as int, true));
                r
            },
            _ => {
                proof {
                    assert(false);
                }
                0
            },
        }
    }

    /// Whether the set has no element.
    pub fn is_empty(&self) -> (r: bool)
        requires
            self.wf(),
        ensures
            r == (self@ == Set::<int>::empty()),
    {
        let r = self.len() == 0;
        proof {
            self.lemma_view_finite();
            vstd::set_lib::lemma_set_empty_equivalency_len(self@);
        }
        r
    }

    /// Whether the set has exactly one element.
    pub fn has_one_bit(&self) -> (r: bool)
        requires
            self.wf(),
        ensures
            r == (self@.len() == 1),
    {
        self.len() == 1
    }
}

/// Whether the set `s` holds every position whose successor `old` holds from `pos` on, and every
/// position of `old` below `pos`.
pub open spec fn closes_gap(old: Set<int>, pos: int, s: Set<int>) -> bool {
    forall|i: int|
        #![trigger s.contains(i)]
        s.contains(i) == (0 <= i && if i < pos {
            old.contains(i)
        } else {
            old.contains(i + 1)
        })
}

/// Whether `v` lists the elements of `s` in increasing order.
pub open spec fn lists_in_order(v: Seq<usize>, s: Set<int>) -> bool {
    &&& forall|a: int, b: int| 0 <= a < b < v.len() ==> v[a] < v[b]
    &&& forall|a: int| 0 <= a < v.len() ==> s.contains(#[trigger] v[a] as int)
    &&& forall|x: int| s.contains(x) ==> exists|a: int| 0 <= a < v.len() && v[a] == x
}

impl BitSet {
    /// The capacity of the result of combining two sets word by word.
    pub open spec fn common_capacity(&self, other: &BitSet) -> int {
        if self.capacity() <= other.capacity() {
            self.capacity()
        } else {
            other.capacity()
        }
    }

    /// The elements of this set that are not in `rhs` (positions of blocks that only this set
    /// has are dropped).
    pub fn difference(&self, rhs: &BitSet) -> (r: BitSet)
        requires
            self.same_variant(rhs),
        ensures
            r.same_variant(self),
            r.capacity() == self.common_capacity(rhs),
            forall|i: int|
                #![trigger r@.contains(i)]
                r@.contains(i) == (i < r.capacity() && self@.contains(i) && !rhs@.contains(i)),
            self.wf() ==> r.wf(),
    {
        match (self, rhs) {
            (BitSet::Small(a), BitSet::Small(b)) => {
                let w = *a & !*b;
                proof {
                    assert forall|k: u64| #[trigger] bit64(w, k) == (bit64(*a, k) && !bit64(*b, k)) by {
                        lemma_bit64_and(*a, *b, k);
                    }
                }
                BitSet::Small(w)
            },
            (BitSet::Medium(a), BitSet::Medium(b)) => {
                let w = *a & !*b;
                proof {
                    assert forall|k: u128| #[trigger] bit128(w, k) == (bit128(*a, k) && !bit128(*b, k)) by {
                        lemma_bit128_and(*a, *b, k);
                    }
                }
                BitSet::Medium(w)
            },
            (BitSet::Large(a), BitSet::Large(b)) => {
                let nb = if a.len() < b.len() {
                    a.len()
                } else {
                    b.len()
                };
                let mut out: Vec<u64> = Vec::new();
                let mut k: usize = 0;
                while k < nb
                    invariant
                        k <= nb <= a.len(),
                        nb <= b.len(),
                        out.len() == k,
                        forall|j: int| 0 <= j < k ==> #[trigger] out@[j] == a@[j] & !b@[j],
                    decreases nb - k,
                {
                    out.push(a[k] & !b[k]);
                    k = k + 1;
                }
                proof {
                    assert forall|i: int| 0 <= i < 64 * nb implies #[trigger] bit64(
                        out@[i / 64],
                        (i % 64) as u64,
                    ) == (bit64(a@[i / 64], (i % 64) as u64) && !bit64(b@[i / 64], (i % 64) as u64))
                        by {
                        lemma_bit64_and(a@[i / 64], b@[i / 64], (i % 64) as u64);
                    }
                }
                BitSet::Large(out)
            },
            _ => {
                proof {
                    assert(false);
                }
                BitSet::Small(0)
            },
        }
    }

    /// The elements of either set (positions of blocks that only one set has are dropped).
    pub fn union(&self, rhs: &BitSet) -> (r: BitSet)
        requires
            self.same_variant(rhs),
        ensures
            r.same_variant(self),
            r.capacity() == self.common_capacity(rhs),
            forall|i: int|
                #![trigger r@.contains(i)]
                r@.contains(i) == (i < r.capacity() && (self@.contains(i) || rhs@.contains(i))),
            self.wf() ==> r.wf(),
    {
        match (self, rhs) {
            (BitSet::Small(a), BitSet::Small(b)) => {
                let w = *a | *b;
                proof {
                    assert forall|k: u64| #[trigger] bit64(w, k) == (bit64(*a, k) || bit64(*b, k)) by {
                        lemma_bit64_and(*a, *b, k);
                    }
                }
                BitSet::Small(w)
            },
            (BitSet::Medium(a), BitSet::Medium(b)) => {
                let w = *a | *b;
                proof {
                    assert forall|k: u128| #[trigger] bit128(w, k) == (bit128(*a, k) || bit128(*b, k)) by {
                        lemma_bit128_and(*a, *b, k);
                    }
                }
                BitSet::Medium(w)
            },
            (BitSet::Large(a), BitSet::Large(b)) => {
                let nb = if a.len() < b.len() {
                    a.len()
                } else {
                    b.len()
                };
                let mut out: Vec<u64> = Vec::new();
                let mut k: usize = 0;
                while k < nb
                    invariant
                        k <= nb <= a.len(),
                        nb <= b.len(),
                        out.len() == k,
                        forall|j: int| 0 <= j < k ==> #[trigger] out@[j] == a@[j] | b@[j],
                    decreases nb - k,
                {
                    out.push(a[k] | b[k]);
                    k = k + 1;
                }
                proof {
                    assert forall|i: int| 0 <= i < 64 * nb implies #[trigger] bit64(
                        out@[i / 64],
                        (i % 64) as u64,
                    ) == (bit64(a@[i / 64], (i % 64) as u64) || bit64(b@[i / 64], (i % 64) as u64))
                        by {
                        lemma_bit64_and(a@[i / 64], b@[i / 64], (i % 64) as u64);
                    }
                }
                BitSet::Large(out)
            },
            _ => {
                proof {
                    assert(false);
                }
                BitSet::Small(0)
            },
        }
    }

    /// A copy of the set.
    pub fn duplicate(&self) -> (r: BitSet)
        ensures
            r@ == self@,
            r.same_shape(self),
            r.capacity() == self.capacity(),
            forall|i: int| #[trigger] r.has(i) == self.has(i),
    {
        match self {
            BitSet::Small(x) => BitSet::Small(*x),
            BitSet::Medium(x) => BitSet::Medium(*x),
            BitSet::Large(blocks) => {
                let c = blocks.clone();
                assert(c@ =~= blocks@);
                let r = BitSet::Large(c);
                assert(r@ =~= self@);
                r
            },
        }
    }

    /// The smallest element, if any.
    pub fn first_bit(&self) -> (r: Option<usize>)
        requires
            self.wf(),
        ensures
            r is None <==> self@ == Set::<int>::empty(),
            r matches Some(t) ==> self@.contains(t as int) && forall|j: int|
                #![trigger self@.contains(j)]
                self@.contains(j) ==> t <= j,
    {
        broadcast use vstd::std_specs::bits::axiom_u64_trailing_zeros;

        match self {
            BitSet::Small(bits) => {
                if *bits == 0 {
                    assert(self@ =~= Set::empty()) by {
                        assert forall|i: u64| !bit64(0, i) by {
                            lemma_bit64_zero_max(i);
                        }
                    }
                    None
                } else {
                    let t = bits.trailing_zeros();
                    assert(self@.contains(t as int));
                    Some(t as usize)
                }
            },
            BitSet::Medium(bits) => {
                let lo = *bits as u64;
                let hi = (*bits >> 64u128) as u64;
                proof {
                    assert forall|i: u64| i < 64 implies #[trigger] bit128(*bits, i as u128) == bit64(
                        lo,
                        i,
                    ) by {
                        lemma_bit128_halves(*bits, i);
                    }
                    assert forall|i: u64| i < 64 implies #[trigger] bit128(*bits, (i + 64) as u128)
                        == bit64(hi, i) by {
                        lemma_bit128_halves(*bits, i);
                    }
                    lemma_bit128_halves(*bits, 0);
                }
                if lo != 0 {
                    let t = lo.trailing_zeros();
                    assert(self@.contains(t as int));
                    assert forall|j: int| self@.contains(j) implies t <= j by {
                        if j < 64 {
                            assert(bit64(lo, j as u64));
                        }
                    }
                    Some(t as usize)
                } else if hi != 0 {
                    let t = hi.trailing_zeros();
                    assert(self@.contains(t + 64));
                    assert forall|j: int| self@.contains(j) implies t + 64 <= j by {
                        if j < 64 {
                            assert(bit64(lo, j as u64));
                            lemma_bit64_zero_max(j as u64);
                        } else {
                            assert(bit128(*bits, ((j - 64) + 64) as u128));
                            assert(bit64(hi, (j - 64) as u64));
                        }
                    }
                    Some(t as usize + 64)
                } else {
                    assert(self@ =~= Set::empty()) by {
                        assert forall|i: u128| !bit128(0, i) by {
                            lemma_bit128_low_mask(0, i);
                        }
                    }
                    None
                }
            },
            BitSet::Large(blocks) => {
                let mut i: usize = 0;
                while i < blocks.len()
                    invariant
                        i <= blocks.len(),
                        64 * blocks.len() <= usize::MAX,
                        forall|j: int| 0 <= j < 64 * i ==> !#[trigger] self.has(j),
                        *self == BitSet::Large(*blocks),
                    decreases blocks.len() - i,
                {
                    let block = blocks[i];
                    if block != 0 {
                        let t = block.trailing_zeros();
                        let pos = i * 64 + t as usize;
                        assert(pos / 64 == i && pos % 64 == t);
                        assert(self.has(pos as int));
                        assert(self@.contains(pos as int));
                        assert forall|j: int| self@.contains(j) implies pos <= j by {
                            if j < pos {
                                assert(j / 64 == i && j % 64 < t);
                            }
                        }
                        return Some(pos);
                    }
                    assert forall|j: int| 64 * i <= j < 64 * (i + 1) implies !#[trigger] self.has(j) by {
                        assert(j / 64 == i);
                        lemma_bit64_zero_max((j % 64) as u64);
                    }
                    i = i + 1;
                }
                assert(self@ =~= Set::empty());
                None
            },
        }
    }

    /// The elements in increasing order.
    pub fn to_vec(&self) -> (r: Vec<usize>)
        requires
            self.wf(),
        ensures
            lists_in_order(r@, self@),
    {
        let cap: usize = match self {
            BitSet::Small(_) => 64,
            BitSet::Medium(_) => 128,
            BitSet::Large(blocks) => 64 * blocks.len(),
        };
        let mut r: Vec<usize> = Vec::new();
        let mut i: usize = 0;
        while i < cap
            invariant
                i <= cap == self.capacity(),
                forall|a: int, b: int| 0 <= a < b < r.len() ==> r@[a] < r@[b],
                forall|a: int| 0 <= a < r.len() ==> r@[a] < i && self@.contains(#[trigger] r@[a] as int),
                forall|x: int|
                    0 <= x < i && self@.contains(x) ==> exists|a: int|
                        0 <= a < r.len() && r@[a] == x,
            decreases cap - i,
        {
            if self.contains(i) {
                let ghost old_r = r@;
                r.push(i);
                assert forall|x: int| 0 <= x < i + 1 && self@.contains(x) implies exists|a: int|
                    0 <= a < r.len() && r@[a] == x by {
                    if x == i {
                        assert(r@[old_r.len() as int] == x);
                    } else {
                        let a = choose|a: int| 0 <= a < old_r.len() && old_r[a] == x;
                        assert(r@[a] == x);
                    }
                }
            }
            i = i + 1;
        }
        proof {
            self.lemma_view_finite();
        }
        r
    }

    /// Removes position `pos` and moves every larger position down by one.
    pub fn right_shift_from(&mut self, pos: usize)
        requires
            old(self).testable(pos as int),
            old(self).wf(),
        ensures
            closes_gap(old(self)@, pos as int, final(self)@),
            final(self).same_shape(old(self)),
            final(self).capacity() == old(self).capacity(),
    {
        proof {
            old(self).lemma_view_finite();
        }
        match self {
            BitSet::Small(bits) => {
                let x = *bits;
                proof {
                    lemma_bit64_low_mask(pos as u64, 0);
                }
                let mask = (1u64 << (pos as u64)) - 1;
                *bits = (x & mask) | ((x >> 1u64) & !mask);
                proof {
                    assert forall|i: u64| i < 64 implies #[trigger] bit64(
                        (x & mask) | ((x >> 1u64) & !mask),
                        i,
                    ) == if i < pos {
                        bit64(x, i)
                    } else {
                        i < 63 && bit64(x, (i + 1) as u64)
                    } by {
                        lemma_bit64_close_gap(x, pos as u64, i);
                    }
                }
            },
            BitSet::Medium(bits) => {
                let x = *bits;
                proof {
                    lemma_bit128_low_mask(pos as u128, 0);
                }
                let mask = (1u128 << (pos as u128)) - 1;
                *bits = (x & mask) | ((x >> 1u128) & !mask);
                proof {
                    assert forall|i: u128| i < 128 implies #[trigger] bit128(
                        (x & mask) | ((x >> 1u128) & !mask),
                        i,
                    ) == if i < pos {
                        bit128(x, i)
                    } else {
                        i < 127 && bit128(x, (i + 1) as u128)
                    } by {
                        lemma_bit128_close_gap(x, pos as u128, i);
                    }
                }
            },
            BitSet::Large(blocks) => {
                Self::close_gap_blocks(blocks, pos);
            },
        }
    }

    /// Removes position `pos` from a vector of blocks, moving every larger position down one.
    fn close_gap_blocks(blocks: &mut Vec<u64>, pos: usize)
        requires
            64 * old(blocks).len() <= usize::MAX,
        ensures
            final(blocks).len() == old(blocks).len(),
            closes_gap(
                BitSet::Large(*old(blocks))@,
                pos as int,
                BitSet::Large(*final(blocks))@,
            ),
    {
        let ghost ob_vec = *blocks;
        let ghost ob = blocks@;
        let ghost old_set = BitSet::Large(*blocks)@;
        let block_idx = pos / 64;
        let bit_idx = pos % 64;
        if block_idx >= blocks.len() {
            assert forall|i: int| BitSet::Large(*blocks)@.contains(i) == (0 <= i && if i < pos {
                old_set.contains(i)
            } else {
                old_set.contains(i + 1)
            }) by {}
            return ;
        }
        let x = blocks[block_idx];
        proof {
            lemma_bit64_low_mask(bit_idx as u64, 0);
        }
        let mask = (1u64 << (bit_idx as u64)) - 1;
        let nx = (x & mask) | ((x >> 1u64) & !mask);
        blocks.set(block_idx, nx);
        proof {
            assert forall|k: int| 0 <= k < 64 * (block_idx + 1) - 1 implies #[trigger] BitSet::Large(
                *blocks,
            ).has(k) == if k < pos {
                old_set.contains(k)
            } else {
                old_set.contains(k + 1)
            } by {
                if k >= 64 * block_idx {
                    let j = k - 64 * block_idx;
                    assert(k / 64 == block_idx && k % 64 == j);
                    lemma_bit64_close_gap(x, bit_idx as u64, j as u64);
                    if j < 63 {
                        assert((k + 1) / 64 == block_idx && (k + 1) % 64 == j + 1);
                    }
                } else {
                    assert(k / 64 < block_idx);
                }
            }
            lemma_bit64_close_gap(x, bit_idx as u64, 63);
        }
        let mut i = block_idx + 1;
        while i < blocks.len()
            invariant
                block_idx < i <= blocks.len() == ob.len(),
                64 * ob.len() <= usize::MAX,
                block_idx == pos / 64,
                old_set == BitSet::Large(ob_vec)@,
                ob == ob_vec@,
                forall|j: int| i <= j < ob.len() ==> blocks@[j] == ob[j],
                !bit64(blocks@[i - 1], 63),
                forall|k: int|
                    0 <= k < 64 * i - 1 ==> #[trigger] BitSet::Large(*blocks).has(k) == if k
                        < pos {
                        old_set.contains(k)
                    } else {
                        old_set.contains(k + 1)
                    },
            decreases blocks.len() - i,
        {
            let ghost before_vec = *blocks;
            let ghost before = blocks@;
            let y = blocks[i];
            let carry = y & 1;
            blocks.set(i, y >> 1u64);
            if carry != 0 {
                let z = blocks[i - 1];
                blocks.set(i - 1, z | (1u64 << 63u64));
            }
            proof {
                lemma_bit64_shr1(y, 0);
                assert(old_set.contains(64 * i) == bit64(y, 0)) by {
                    assert((64 * i) / 64 == i && (64 * i) % 64 == 0);
                }
                assert forall|k: int| 0 <= k < 64 * (i + 1) - 1 implies #[trigger] BitSet::Large(
                    *blocks,
                ).has(k) == if k < pos {
                    old_set.contains(k)
                } else {
                    old_set.contains(k + 1)
                } by {
                    if k >= 64 * i {
                        let j = k - 64 * i;
                        assert(k / 64 == i && k % 64 == j);
                        lemma_bit64_shr1(y, j as u64);
                        assert((k + 1) / 64 == i && (k + 1) % 64 == j + 1);
                    } else if k == 64 * i - 1 {
                        assert(k / 64 == i - 1 && k % 64 == 63);
                        if carry != 0 {
                            lemma_bit64_or_single(before[i - 1], 63, 63);
                        }
                    } else {
                        assert(k / 64 < i);
                        if carry != 0 && k / 64 == i - 1 {
                            lemma_bit64_or_single(before[i - 1], 63, (k % 64) as u64);
                        }
                        assert(BitSet::Large(*blocks).has(k) == BitSet::Large(before_vec).has(k));
                    }
                }
                lemma_bit64_shr1(y, 63);
            }
            i = i + 1;
        }
        proof {
            assert forall|k: int| #[trigger] BitSet::Large(*blocks)@.contains(k) == (0 <= k && if k
                < pos {
                old_set.contains(k)
            } else {
                old_set.contains(k + 1)
            }) by {
                if k == 64 * ob.len() - 1 {
                    assert(k / 64 == ob.len() - 1 && k % 64 == 63);
                }
            }
        }
    }
}

impl BitSet {
    /// The elements as a hash set.
    pub fn to_hashset(&self) -> (r: HashSet<usize>)
        requires
            self.wf(),
        ensures
            forall|x: usize| #[trigger] r@.contains(x) == self@.contains(x as int),
    {
        broadcast use vstd::std_specs::hash::group_hash_axioms;

        let v = self.to_vec();
        let mut r: HashSet<usize> = HashSet::new();
        let mut k: usize = 0;
        while k < v.len()
            invariant
                k <= v.len(),
                lists_in_order(v@, self@),
                forall|x: usize|
                    #[trigger] r@.contains(x) == exists|a: int| 0 <= a < k && v@[a] == x,
            decreases v.len() - k,
        {
            let ghost old_r = r@;
            r.insert(v[k]);
            assert forall|x: usize| #[trigger] r@.contains(x) == exists|a: int|
                0 <= a < k + 1 && v@[a] == x by {
                if x == v@[k as int] {
                    assert(v@[k as int] == x);
                } else if old_r.contains(x) {
                    let a = choose|a: int| 0 <= a < k && v@[a] == x;
                    assert(v@[a] == x);
                }
            }
            k = k + 1;
        }
        assert forall|x: usize| #[trigger] r@.contains(x) == self@.contains(x as int) by {
            if self@.contains(x as int) {
                let a = choose|a: int| 0 <= a < v.len() && v@[a] == x as int;
                assert(v@[a] == x);
            }
        }
        r
    }
}

} // verus!
