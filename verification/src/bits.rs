//! Bit-level model of the 64-bit cell sets used throughout the solver:
//! single-bit tests, population count, and the lemmas relating them to
//! bitwise union.

use vstd::prelude::*;

verus! {

/// True when bit `i` of `v` is set; meaningful for `0 <= i < 64`.
pub open spec fn bit64(v: u64, i: int) -> bool {
    (v >> (i as u64)) & 1 == 1
}

/// Number of set bits among the low `n` bits of `v`.
pub open spec fn popn(v: u64, n: nat) -> nat
    decreases n,
{
    if n == 0 {
        0
    } else {
        (v % 2) as nat + popn(v / 2, (n - 1) as nat)
    }
}

/// Number of set bits of `v`.
pub open spec fn pop64(v: u64) -> nat {
    popn(v, 64)
}

/// All set bits of `v` lie below position `m`.
pub open spec fn bits_below(v: u64, m: int) -> bool {
    forall|i: int| m <= i < 64 ==> !bit64(v, i)
}

pub proof fn lemma_popn_le(v: u64, n: nat)
    ensures
        popn(v, n) <= n,
    decreases n,
{
    if n > 0 {
        lemma_popn_le(v / 2, (n - 1) as nat);
    }
}

pub proof fn lemma_popn_or_le(a: u64, b: u64, n: nat)
    ensures
        popn(a | b, n) <= popn(a, n) + popn(b, n),
    decreases n,
{
    if n > 0 {
        assert((a | b) % 2 <= a % 2 + b % 2) by (bit_vector);
        assert((a | b) / 2 == (a / 2) | (b / 2)) by (bit_vector);
        lemma_popn_or_le(a / 2, b / 2, (n - 1) as nat);
    }
}

pub proof fn lemma_popn_or_ge(a: u64, b: u64, n: nat)
    ensures
        popn(a | b, n) >= popn(a, n),
        popn(a | b, n) >= popn(b, n),
    decreases n,
{
    if n > 0 {
        assert((a | b) % 2 >= a % 2 && (a | b) % 2 >= b % 2) by (bit_vector);
        assert((a | b) / 2 == (a / 2) | (b / 2)) by (bit_vector);
        lemma_popn_or_ge(a / 2, b / 2, (n - 1) as nat);
    }
}

pub proof fn lemma_pop64_zero(v: u64)
    requires
        pop64(v) == 0,
    ensures
        v == 0,
{
    vstd::arithmetic::power2::lemma2_to64();
    lemma_popn_zero_rec(v, 64);
}

proof fn lemma_popn_zero_rec(v: u64, n: nat)
    requires
        popn(v, n) == 0,
        v < vstd::arithmetic::power2::pow2(n),
    ensures
        v == 0,
    decreases n,
{
    vstd::arithmetic::power2::lemma2_to64();
    if n > 0 {
        vstd::arithmetic::power2::lemma_pow2_unfold(n);
        lemma_popn_zero_rec(v / 2, (n - 1) as nat);
    }
}

pub proof fn lemma_popn_zero_val(n: nat)
    ensures
        popn(0u64, n) == 0,
    decreases n,
{
    if n > 0 {
        lemma_popn_zero_val((n - 1) as nat);
    }
}

/// Setting a bit that was clear raises the count by exactly one.
pub proof fn lemma_popn_set_bit(v: u64, i: int, n: nat)
    requires
        0 <= i < n <= 64,
        !bit64(v, i),
    ensures
        popn(v | (1u64 << (i as u64)), n) == popn(v, n) + 1,
    decreases n,
{
    let iu = i as u64;
    if i == 0 {
        assert(!((v >> 0u64) & 1 == 1) ==> (v | (1u64 << 0u64)) % 2 == v % 2 + 1) by (bit_vector);
        assert((v | (1u64 << 0u64)) / 2 == v / 2) by (bit_vector);
    } else {
        assert(iu >= 1 && iu < 64 ==> (v | (1u64 << iu)) % 2 == v % 2) by (bit_vector);
        assert(iu >= 1 && iu < 64 ==> (v | (1u64 << iu)) / 2 == (v / 2) | (1u64 << (iu - 1) as u64))
            by (bit_vector);
        assert(iu >= 1 && iu < 64 ==> ((v >> iu) & 1 == ((v / 2) >> (iu - 1) as u64) & 1))
            by (bit_vector);
        lemma_popn_set_bit(v / 2, i - 1, (n - 1) as nat);
    }
}

/// A set bit below `n` forces a positive count.
pub proof fn lemma_popn_bit_set(v: u64, i: int, n: nat)
    requires
        0 <= i < n <= 64,
        bit64(v, i),
    ensures
        popn(v, n) >= 1,
    decreases n,
{
    let iu = i as u64;
    if i == 0 {
        assert((v >> 0u64) & 1 == 1 ==> v % 2 == 1) by (bit_vector);
    } else {
        assert(iu >= 1 && iu < 64 ==> ((v >> iu) & 1 == ((v / 2) >> (iu - 1) as u64) & 1))
            by (bit_vector);
        lemma_popn_bit_set(v / 2, i - 1, (n - 1) as nat);
    }
}

/// A clear top bit does not contribute to the count.
pub proof fn lemma_popn_high(v: u64, n: nat)
    requires
        1 <= n <= 64,
        !bit64(v, n - 1),
    ensures
        popn(v, n) == popn(v, (n - 1) as nat),
    decreases n,
{
    if n == 1 {
        assert((v >> 0u64) & 1 != 1 ==> v % 2 == 0) by (bit_vector);
        assert(v % 2 == 0);
        assert(popn(v, 0) == 0);
        assert(popn(v / 2, 0) == 0);
        assert(popn(v, 1) == (v % 2) as nat + popn(v / 2, 0));
    } else {
        let nu = (n - 1) as u64;
        assert(nu >= 1 && nu < 64 ==> ((v >> nu) & 1 == ((v / 2) >> (nu - 1) as u64) & 1))
            by (bit_vector);
        assert((n - 2) as u64 == nu - 1);
        assert(!bit64(v / 2, n - 2));
        lemma_popn_high(v / 2, (n - 1) as nat);
        assert(popn(v / 2, (n - 1) as nat) == popn(v / 2, (n - 2) as nat));
        assert(popn(v, n) == (v % 2) as nat + popn(v / 2, (n - 1) as nat));
        assert(popn(v, (n - 1) as nat) == (v % 2) as nat + popn(v / 2, (n - 2) as nat));
    }
}

/// With no bits at or above `m`, the whole count is the count below `m`.
pub proof fn lemma_pop_eq_below(v: u64, m: nat, n: nat)
    requires
        bits_below(v, m as int),
        m <= n <= 64,
    ensures
        popn(v, n) == popn(v, m),
    decreases n - m,
{
    if n > m {
        lemma_popn_high(v, n);
        lemma_pop_eq_below(v, m, (n - 1) as nat);
    }
}

/// A count short of `n` leaves some low bit clear.
pub proof fn lemma_popn_unset_exists(v: u64, n: nat)
    requires
        0 < n <= 64,
        popn(v, n) < n,
    ensures
        exists|i: int| 0 <= i < n && !(#[trigger] bit64(v, i)),
    decreases n,
{
    if v % 2 == 0 {
        assert(v % 2 == 0 ==> !((v >> 0u64) & 1 == 1)) by (bit_vector);
        assert(!bit64(v, 0));
    } else {
        lemma_popn_unset_exists(v / 2, (n - 1) as nat);
        let j = choose|j: int| 0 <= j < n - 1 && !(#[trigger] bit64(v / 2, j));
        let ju = j as u64;
        assert(ju < 63 ==> (((v / 2) >> ju) & 1 == (v >> (ju + 1) as u64) & 1)) by (bit_vector);
        assert(!bit64(v, j + 1));
    }
}

/// How a union reads bit by bit.
pub proof fn lemma_bit_or(a: u64, b: u64, i: int)
    requires
        0 <= i < 64,
    ensures
        bit64(a | b, i) == (bit64(a, i) || bit64(b, i)),
{
    let iu = i as u64;
    assert(iu < 64 ==> (((a | b) >> iu) & 1 == 1) == (((a >> iu) & 1 == 1) || ((b >> iu) & 1 == 1)))
        by (bit_vector);
}

/// How a single-bit mask reads bit by bit.
pub proof fn lemma_bit_single(i: int, j: int)
    requires
        0 <= i < 64,
        0 <= j < 64,
    ensures
        bit64(1u64 << (i as u64), j) == (i == j),
{
    let iu = i as u64;
    let ju = j as u64;
    assert(iu < 64 && ju < 64 ==> ((((1u64 << iu) >> ju) & 1 == 1) == (iu == ju))) by (bit_vector);
}

/// The exec-side mask test agrees with the bit model.
pub proof fn lemma_bit_test(v: u64, i: int)
    requires
        0 <= i < 64,
    ensures
        (v & (1u64 << (i as u64)) != 0) == bit64(v, i),
{
    let iu = i as u64;
    assert(iu < 64 ==> ((v & (1u64 << iu) != 0) == ((v >> iu) & 1 == 1))) by (bit_vector);
}

pub proof fn lemma_or_assoc(a: u64, b: u64, c: u64)
    by (bit_vector)
    ensures
        (a | b) | c == a | (b | c),
{
}

pub proof fn lemma_or_comm(a: u64, b: u64)
    by (bit_vector)
    ensures
        a | b == b | a,
{
}

pub proof fn lemma_or_zero(a: u64)
    by (bit_vector)
    ensures
        a | 0 == a,
        0 | a == a,
{
}

/// Adding a bit that is already present changes nothing.
pub proof fn lemma_or_absorb_bit(v: u64, i: int)
    requires
        0 <= i < 64,
        bit64(v, i),
    ensures
        v | (1u64 << (i as u64)) == v,
{
    let iu = i as u64;
    assert(iu < 64 && (v >> iu) & 1 == 1 ==> v | (1u64 << iu) == v) by (bit_vector);
}

pub proof fn lemma_bits_below_zero(m: int)
    requires
        0 <= m,
    ensures
        bits_below(0u64, m),
{
    assert forall|i: int| m <= i < 64 implies !(#[trigger] bit64(0u64, i)) by {
        let iu = i as u64;
        assert((0u64 >> iu) & 1 == 0) by (bit_vector);
    }
}

pub proof fn lemma_bits_below_or(a: u64, b: u64, m: int)
    requires
        0 <= m,
        bits_below(a, m),
        bits_below(b, m),
    ensures
        bits_below(a | b, m),
{
    assert forall|i: int| m <= i < 64 implies !bit64(a | b, i) by {
        lemma_bit_or(a, b, i);
    }
}

pub proof fn lemma_bits_below_single(i: int, m: int)
    requires
        0 <= i < m,
        m <= 64,
    ensures
        bits_below(1u64 << (i as u64), m),
{
    assert forall|j: int| m <= j < 64 implies !(#[trigger] bit64(1u64 << (i as u64), j)) by {
        lemma_bit_single(i, j);
    }
}

/// Exact count of the set bits of `v`; replaces the standard population count.
pub fn popcount64(v: u64) -> (r: u32)
    ensures
        r == pop64(v),
        r <= 64,
{
    let mut x: u64 = v;
    let mut c: u32 = 0;
    let mut i: u32 = 0;
    while i < 64
        invariant
            i <= 64,
            c <= i,
            c + popn(x, (64 - i) as nat) == pop64(v),
        decreases 64 - i,
    {
        proof {
            lemma_popn_le(x / 2, (64 - i - 1) as nat);
        }
        c = c + (x % 2) as u32;
        x = x / 2;
        i = i + 1;
    }
    c
}

} // verus!
