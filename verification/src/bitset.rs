//! A fixed-width set of 64 boolean flags.

use std::ops::{BitAnd, BitAndAssign, BitOr, BitOrAssign, BitXor, BitXorAssign, Not};
use vstd::prelude::*;

verus! {

/// Whether flag `idx` is set in the word `x`.
pub open spec fn bit_of(x: u64, idx: int) -> bool {
    0 <= idx < 64 && (x >> (idx as u64)) & 1 == 1
}

/// The number of set flags among the lowest `n` flags of `x`.
pub open spec fn ones_below(x: u64, n: nat) -> nat
    decreases n,
{
    if n == 0 {
        0
    } else {
        ones_below(x, (n - 1) as nat) + if bit_of(x, n - 1) {
            1nat
        } else {
            0nat
        }
    }
}

/// The number of set flags of `x`.
pub open spec fn popcount(x: u64) -> nat {
    ones_below(x, 64)
}

/// `u64::count_ones` returns the number of one bits in the binary
/// representation of its argument.
pub assume_specification[ u64::count_ones ](x: u64) -> (r: u32)
    ensures
        r == popcount(x),
;

/// Sixty-four flags, each addressed by an index below 64.
#[derive(PartialEq, Eq, Clone, Copy, Structural)]
pub struct BitSetU64 {
    pub bits: u64,
}

impl View for BitSetU64 {
    type V = u64;

    open spec fn view(&self) -> u64 {
        self.bits
    }
}

impl BitSetU64 {
    /// Whether flag `idx` is set.
    pub open spec fn contains(self, idx: int) -> bool {
        bit_of(self@, idx)
    }

    /// The set with no flag set.
    pub fn empty() -> (r: Self)
        ensures
            r@ == 0,
            forall|i: int| !r.contains(i),
    {
        proof {
            lemma_bits_of_constants();
        }
        BitSetU64 { bits: u64::MIN }
    }

    /// The set with every flag set.
    pub fn full() -> (r: Self)
        ensures
            r@ == u64::MAX,
            forall|i: int| 0 <= i < 64 ==> r.contains(i),
    {
        proof {
            lemma_bits_of_constants();
        }
        BitSetU64 { bits: u64::MAX }
    }

    /// The set whose flags are the bits of `bits`.
    pub fn new_with(bits: u64) -> (r: Self)
        ensures
            r@ == bits,
    {
        BitSetU64 { bits: bits }
    }

    /// The number of flags.
    #[inline]
    pub fn max_values() -> (r: usize)
        ensures
            r == 64,
    {
        64
    }

    /// Sets flag `idx` to `value`.
    #[inline]
    pub fn set(&mut self, idx: usize, value: bool)
        requires
            idx < 64,
        ensures
            final(self)@ == if value {
                old(self)@ | (1u64 << (idx as u64))
            } else {
                old(self)@ & !(1u64 << (idx as u64))
            },
            forall|i: int|
                #[trigger] final(self).contains(i) == if i == idx {
                    value
                } else {
                    old(self).contains(i)
                },
    {
        let mask = 1_u64 << (idx as u64);
        proof {
            lemma_bits_after_write(self.bits, idx as u64);
        }
        self.bits = match value {
            true => self.bits | mask,
            false => self.bits & !mask,
        }
    }

    /// Sets flag `idx`.
    #[inline]
    pub fn enable(&mut self, idx: usize)
        requires
            idx < 64,
        ensures
            final(self)@ == old(self)@ | (1u64 << (idx as u64)),
            forall|i: int| #[trigger] final(self).contains(i) == (i == idx || old(self).contains(i)),
    {
        let mask = 1_u64 << (idx as u64);
        proof {
            lemma_bits_after_write(self.bits, idx as u64);
        }
        self.bits = self.bits | mask;
    }

    /// Clears flag `idx`.
    #[inline]
    pub fn disable(&mut self, idx: usize)
        requires
            idx < 64,
        ensures
            final(self)@ == old(self)@ & !(1u64 << (idx as u64)),
            forall|i: int| #[trigger] final(self).contains(i) == (i != idx && old(self).contains(i)),
    {
        let mask = 1_u64 << (idx as u64);
        proof {
            lemma_bits_after_write(self.bits, idx as u64);
        }
        self.bits = self.bits & !mask;
    }

    /// Whether flag `idx` is set.
    #[inline]
    pub fn get(&self, idx: usize) -> (r: bool)
        requires
            idx < 64,
        ensures
            r == self.contains(idx as int),
    {
        let mask = 1_u64 << (idx as u64);
        proof {
            let x = self.bits;
            let k = idx as u64;
            assert(((x & (1u64 << k)) != 0) == ((x >> k) & 1 == 1)) by (bit_vector)
                requires
                    k < 64,
            ;
        }
        (self.bits & mask) != 0
    }

    /// The number of set flags.
    #[inline]
    pub fn count_ones(&self) -> (r: u32)
        ensures
            r == popcount(self@),
            r <= 64,
    {
        proof {
            lemma_ones_below_bound(self.bits, 64);
        }
        self.bits.count_ones()
    }
}

/// The flags of the all-clear and the all-set word.
pub proof fn lemma_bits_of_constants()
    ensures
        forall|i: int| !bit_of(0, i),
        forall|i: int| 0 <= i < 64 ==> bit_of(u64::MAX, i),
{
    assert forall|i: int| !bit_of(0, i) by {
        if 0 <= i < 64 {
            let k = i as u64;
            assert((0u64 >> k) & 1 == 0) by (bit_vector);
        }
    }
    assert forall|i: int| 0 <= i < 64 implies bit_of(u64::MAX, i) by {
        let k = i as u64;
        assert((0xffff_ffff_ffff_ffffu64 >> k) & 1 == 1) by (bit_vector)
            requires
                k < 64,
        ;
    }
}

/// Setting or clearing flag `k` of `x` changes that flag and no other.
pub proof fn lemma_bits_after_write(x: u64, k: u64)
    requires
        k < 64,
    ensures
        forall|i: int| #[trigger] bit_of(x | (1u64 << k), i) == (i == k || bit_of(x, i)),
        forall|i: int| #[trigger] bit_of(x & !(1u64 << k), i) == (i != k && bit_of(x, i)),
{
    assert forall|i: int| #[trigger] bit_of(x | (1u64 << k), i) == (i == k || bit_of(x, i)) by {
        if 0 <= i < 64 {
            let j = i as u64;
            assert((((x | (1u64 << k)) >> j) & 1 == 1) == (j == k || (x >> j) & 1 == 1))
                by (bit_vector)
                requires
                    k < 64,
                    j < 64,
            ;
        }
    }
    assert forall|i: int| #[trigger] bit_of(x & !(1u64 << k), i) == (i != k && bit_of(x, i)) by {
        if 0 <= i < 64 {
            let j = i as u64;
            assert((((x & !(1u64 << k)) >> j) & 1 == 1) == (j != k && (x >> j) & 1 == 1))
                by (bit_vector)
                requires
                    k < 64,
                    j < 64,
            ;
        }
    }
}

/// Among the lowest `n` flags at most `n` are set.
pub proof fn lemma_ones_below_bound(x: u64, n: nat)
    ensures
        ones_below(x, n) <= n,
    decreases n,
{
    if n > 0 {
        lemma_ones_below_bound(x, (n - 1) as nat);
    }
}

/// Where every set flag of `x` is a set flag of `y` or of `z`, among the
/// lowest `n` flags `x` has no more set than `y` and `z` together.
pub proof fn lemma_ones_below_cover(x: u64, y: u64, z: u64, n: nat)
    requires
        x & !(y | z) == 0,
        n <= 64,
    ensures
        ones_below(x, n) <= ones_below(y, n) + ones_below(z, n),
    decreases n,
{
    if n > 0 {
        lemma_ones_below_cover(x, y, z, (n - 1) as nat);
        let k = (n - 1) as u64;
        assert(((x >> k) & 1 == 1) ==> ((y >> k) & 1 == 1 || (z >> k) & 1 == 1)) by (bit_vector)
            requires
                x & !(y | z) == 0,
                k < 64,
        ;
    }
}

/// Where every set flag of `x` is a set flag of `y` or of `z`, `x` has no
/// more set flags than `y` and `z` together.
pub proof fn lemma_popcount_cover(x: u64, y: u64, z: u64)
    requires
        x & !(y | z) == 0,
    ensures
        popcount(x) <= popcount(y) + popcount(z),
{
    lemma_ones_below_cover(x, y, z, 64);
}

/// The all-clear word has no set flag.
pub proof fn lemma_popcount_zero()
    ensures
        popcount(0) == 0,
{
    lemma_bits_of_constants();
    lemma_ones_below_zero(64);
}

/// The all-clear word has no set flag among its lowest `n`.
proof fn lemma_ones_below_zero(n: nat)
    requires
        forall|i: int| !bit_of(0, i),
    ensures
        ones_below(0, n) == 0,
    decreases n,
{
    if n > 0 {
        lemma_ones_below_zero((n - 1) as nat);
    }
}

/// Two words with the same flags from flag `n` up are the same from
/// there up.
proof fn lemma_same_flags_above(x: u64, y: u64, n: nat)
    requires
        n < 64,
        forall|i: int| n <= i < 64 ==> bit_of(x, i) == bit_of(y, i),
    ensures
        x >> (n as u64) == y >> (n as u64),
    decreases 64 - n,
{
    let k = n as u64;
    assert(bit_of(x, n as int) == bit_of(y, n as int));
    if n == 63 {
        assert(x >> 63 == y >> 63) by (bit_vector)
            requires
                ((x >> 63) & 1 == 1) == ((y >> 63) & 1 == 1),
        ;
    } else {
        lemma_same_flags_above(x, y, n + 1);
        let k1 = (n + 1) as u64;
        assert(x >> k == y >> k) by (bit_vector)
            requires
                k < 63,
                k1 == k + 1,
                x >> k1 == y >> k1,
                ((x >> k) & 1 == 1) == ((y >> k) & 1 == 1),
        ;
    }
}

/// Two words with the same flags are the same word.
pub proof fn lemma_same_flags(x: u64, y: u64)
    requires
        forall|i: int| 0 <= i < 64 ==> bit_of(x, i) == bit_of(y, i),
    ensures
        x == y,
{
    lemma_same_flags_above(x, y, 0);
    assert(x == y) by (bit_vector)
        requires
            x >> 0 == y >> 0,
    ;
}

impl Default for BitSetU64 {
    fn default() -> (r: Self)
        ensures
            r@ == 0,
    {
        BitSetU64::empty()
    }
}

impl BitAnd for BitSetU64 {
    type Output = Self;

    fn bitand(self, rhs: Self) -> (r: Self)
        ensures
            r@ == self@ & rhs@,
    {
        BitSetU64::new_with(self.bits & rhs.bits)
    }
}

impl vstd::std_specs::ops::BitAndSpecImpl for BitSetU64 {
    open spec fn obeys_bitand_spec() -> bool {
        true
    }

    open spec fn bitand_req(self, rhs: Self) -> bool {
        true
    }

    open spec fn bitand_spec(self, rhs: Self) -> Self {
        BitSetU64 { bits: self.bits & rhs.bits }
    }
}

impl BitAndAssign for BitSetU64 {
    fn bitand_assign(&mut self, rhs: Self)
        ensures
            final(self)@ == old(self)@ & rhs@,
    {
        self.bits = self.bits & rhs.bits;
    }
}

impl BitOr for BitSetU64 {
    type Output = Self;

    fn bitor(self, rhs: Self) -> (r: Self)
        ensures
            r@ == self@ | rhs@,
    {
        BitSetU64::new_with(self.bits | rhs.bits)
    }
}

impl vstd::std_specs::ops::BitOrSpecImpl for BitSetU64 {
    open spec fn obeys_bitor_spec() -> bool {
        true
    }

    open spec fn bitor_req(self, rhs: Self) -> bool {
        true
    }

    open spec fn bitor_spec(self, rhs: Self) -> Self {
        BitSetU64 { bits: self.bits | rhs.bits }
    }
}

impl BitOrAssign for BitSetU64 {
    fn bitor_assign(&mut self, rhs: Self)
        ensures
            final(self)@ == old(self)@ | rhs@,
    {
        self.bits = self.bits | rhs.bits;
    }
}

impl BitXor for BitSetU64 {
    type Output = Self;

    fn bitxor(self, rhs: Self) -> (r: Self)
        ensures
            r@ == self@ ^ rhs@,
    {
        BitSetU64::new_with(self.bits ^ rhs.bits)
    }
}

impl vstd::std_specs::ops::BitXorSpecImpl for BitSetU64 {
    open spec fn obeys_bitxor_spec() -> bool {
        true
    }

    open spec fn bitxor_req(self, rhs: Self) -> bool {
        true
    }

    open spec fn bitxor_spec(self, rhs: Self) -> Self {
        BitSetU64 { bits: self.bits ^ rhs.bits }
    }
}

impl BitXorAssign for BitSetU64 {
    fn bitxor_assign(&mut self, rhs: Self)
        ensures
            final(self)@ == old(self)@ ^ rhs@,
    {
        self.bits = self.bits ^ rhs.bits;
    }
}

impl Not for BitSetU64 {
    type Output = Self;

    fn not(self) -> (r: Self)
        ensures
            r@ == !self@,
    {
        BitSetU64::new_with(!(self.bits))
    }
}

impl vstd::std_specs::ops::NotSpecImpl for BitSetU64 {
    open spec fn obeys_not_spec() -> bool {
        true
    }

    open spec fn not_req(self) -> bool {
        true
    }

    open spec fn not_spec(self) -> Self {
        BitSetU64 { bits: !self.bits }
    }
}

} // verus!
