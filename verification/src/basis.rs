//! Basis-state indices and their bits.
//!
//! A register of `n` qubits has `2^n` basis states. Basis state `i` assigns to
//! qubit `k` the value of bit `k` of `i`. Everything a gate does to the
//! amplitude vector is phrased through two notions defined here: whether a bit
//! of an index is set, and the index that differs from a given one in exactly
//! one bit.

use vstd::prelude::*;
use vstd::arithmetic::div_mod::{
    lemma_div_denominator, lemma_div_minus_one, lemma_div_plus_one, lemma_fundamental_div_mod,
    lemma_fundamental_div_mod_converse, lemma_hoist_over_denominator, lemma_multiply_divide_lt,
};
use vstd::arithmetic::mul::{lemma_mul_inequality, lemma_mul_is_commutative};
use vstd::arithmetic::power2::{
    lemma2_to64, lemma_pow2_adds, lemma_pow2_pos, lemma_pow2_strictly_increases, lemma_pow2_unfold,
    pow2,
};
use vstd::bits::{lemma_usize_pow2_no_overflow, lemma_usize_shl_is_mul, lemma_usize_shr_is_div};

verus! {

/// Bit `k` of index `i` is 1: qubit `k` is set in basis state `i`.
pub open spec fn bit_set(i: int, k: nat) -> bool {
    (i / (pow2(k) as int)) % 2 == 1
}

/// The index that differs from `i` in bit `k` and in no other bit.
pub open spec fn flip_bit(i: int, k: nat) -> int {
    if bit_set(i, k) {
        i - pow2(k)
    } else {
        i + pow2(k)
    }
}

/// For `k < n`, `2^n` is `2^k` times an even number.
proof fn lemma_pow2_split(k: nat, n: nat)
    requires
        k < n,
    ensures
        pow2(n) == pow2(k) * pow2((n - k) as nat),
        pow2((n - k) as nat) == 2 * pow2((n - k - 1) as nat),
        pow2(k) > 0,
        pow2((n - k - 1) as nat) > 0,
{
    lemma_pow2_adds(k, (n - k) as nat);
    lemma_pow2_unfold((n - k) as nat);
    lemma_pow2_pos(k);
    lemma_pow2_pos((n - k - 1) as nat);
}

/// Stepping from an even number to the next, or from an odd number to the one
/// before, does not change the quotient by an even divisor.
proof fn lemma_quotient_of_neighbour(q: int, half: int)
    requires
        half > 0,
    ensures
        q % 2 == 0 ==> (q + 1) / (2 * half) == q / (2 * half),
        q % 2 == 1 ==> (q - 1) / (2 * half) == q / (2 * half),
{
    let m = 2 * half;
    let a = q / m;
    let s = q % m;
    lemma_fundamental_div_mod(q, m);
    assert(m * a == 2 * (half * a)) by (nonlinear_arith)
        requires
            m == 2 * half,
    ;
    assert(a * m == m * a) by {
        lemma_mul_is_commutative(a, m);
    }
    if q % 2 == 0 {
        assert(s % 2 == 0);
        lemma_fundamental_div_mod_converse(q + 1, m, a, s + 1);
    }
    if q % 2 == 1 {
        assert(s % 2 == 1);
        lemma_fundamental_div_mod_converse(q - 1, m, a, s - 1);
    }
}

/// Flipping bit `k` changes bit `k`.
pub proof fn lemma_flip_toggles(i: int, k: nat)
    ensures
        bit_set(flip_bit(i, k), k) == !bit_set(i, k),
{
    let p = pow2(k) as int;
    lemma_pow2_pos(k);
    lemma_div_plus_one(i, p);
    lemma_div_minus_one(i, p);
    assert(p + i == i + p);
    assert(-p + i == i - p);
}

/// Flipping the same bit twice gives the index back.
pub proof fn lemma_flip_involution(i: int, k: nat)
    ensures
        flip_bit(flip_bit(i, k), k) == i,
{
    lemma_flip_toggles(i, k);
}

/// Flipping a bit below position `n` keeps an index below `2^n`.
pub proof fn lemma_flip_in_range(i: int, k: nat, n: nat)
    requires
        0 <= i < pow2(n),
        k < n,
    ensures
        0 <= flip_bit(i, k) < pow2(n),
{
    let p = pow2(k) as int;
    let half = pow2((n - k - 1) as nat) as int;
    let m = 2 * half;
    lemma_pow2_split(k, n);
    let q = i / p;
    let r = i % p;
    lemma_fundamental_div_mod(i, p);
    assert(0 <= r < p);
    assert(q < m) by {
        lemma_multiply_divide_lt(i, p, m);
    }
    assert(q >= 0) by (nonlinear_arith)
        requires
            i == p * q + r,
            0 <= i,
            0 <= r < p,
            p > 0,
    ;
    if bit_set(i, k) {
        assert(q >= 1);
        assert(p * q >= p) by (nonlinear_arith)
            requires
                q >= 1,
                p > 0,
        ;
    } else {
        assert(q + 2 <= m);
        assert(p * (q + 2) <= p * m) by {
            lemma_mul_inequality(q + 2, m, p);
            lemma_mul_is_commutative(q + 2, p);
            lemma_mul_is_commutative(m, p);
        }
        assert(p * (q + 2) == p * q + 2 * p) by (nonlinear_arith);
    }
}

/// Flipping bit `k` leaves every other bit as it was.
pub proof fn lemma_flip_keeps_other_bits(i: int, k: nat, c: nat)
    requires
        0 <= i,
        c != k,
    ensures
        bit_set(flip_bit(i, k), c) == bit_set(i, c),
{
    let pk = pow2(k) as int;
    let pc = pow2(c) as int;
    lemma_pow2_pos(k);
    lemma_pow2_pos(c);
    if c < k {
        let half = pow2((k - c - 1) as nat) as int;
        lemma_pow2_split(c, k);
        assert(pk == pc * (2 * half));
        lemma_hoist_over_denominator(i, 2 * half, pc as nat);
        lemma_hoist_over_denominator(i, -(2 * half), pc as nat);
        assert((2 * half) * pc == pk) by {
            lemma_mul_is_commutative(2 * half, pc);
        }
        assert((-(2 * half)) * pc == -pk) by (nonlinear_arith)
            requires
                (2 * half) * pc == pk,
        ;
    } else {
        let half = pow2((c - k - 1) as nat) as int;
        let m = 2 * half;
        lemma_pow2_split(k, c);
        assert(pc == pk * m);
        let q = i / pk;
        let r = i % pk;
        lemma_fundamental_div_mod(i, pk);
        assert(q >= 0) by (nonlinear_arith)
            requires
                i == pk * q + r,
                0 <= i,
                0 <= r < pk,
                pk > 0,
        ;
        let j = flip_bit(i, k);
        if bit_set(i, k) {
            assert(pk * q >= pk) by (nonlinear_arith)
                requires
                    q >= 1,
                    pk > 0,
            ;
            lemma_div_minus_one(i, pk);
            assert(-pk + i == j);
            assert(j / pk == q - 1);
        } else {
            lemma_div_plus_one(i, pk);
            assert(pk + i == j);
            assert(j / pk == q + 1);
        }
        assert(0 <= j);
        lemma_quotient_of_neighbour(q, half);
        lemma_div_denominator(i, pk, m);
        lemma_div_denominator(j, pk, m);
    }
}

/// `2^n` does not fit in a machine word once `n` reaches the word's width.
pub proof fn lemma_pow2_exceeds_word(n: nat)
    requires
        n >= usize::BITS,
    ensures
        pow2(n) > usize::MAX,
{
    lemma2_to64();
    if n > usize::BITS {
        lemma_pow2_strictly_increases(usize::BITS as nat, n);
    }
}

/// The machine test `(i >> k) & 1 == 1` decides `bit_set`.
pub proof fn lemma_shift_test_is_bit_set(i: usize, k: usize)
    requires
        k < usize::BITS,
    ensures
        ((i >> k) & 1 == 1) == bit_set(i as int, k as nat),
        (i >> k) & 1 == 0 || (i >> k) & 1 == 1,
{
    let x: usize = i >> k;
    lemma_usize_shr_is_div(i, k);
    assert(x & 1 == x % 2) by (bit_vector);
}

/// `1 << k` is `2^k` as long as the shift stays inside the word.
pub proof fn lemma_one_shifted_is_pow2(k: usize)
    requires
        k < usize::BITS,
    ensures
        (1usize << k) == pow2(k as nat),
{
    lemma_usize_pow2_no_overflow(k as nat);
    lemma_usize_shl_is_mul(1usize, k);
}

/// The machine expression `i ^ (1 << k)` computes `flip_bit`.
pub proof fn lemma_xor_is_flip(i: usize, k: usize)
    requires
        k < usize::BITS,
    ensures
        (i ^ (1usize << k)) == flip_bit(i as int, k as nat),
{
    let mask: usize = 1usize << k;
    lemma_one_shifted_is_pow2(k);
    lemma_shift_test_is_bit_set(i, k);
    assert((i >> k) & 1 == 1 ==> (i ^ mask) == i - mask) by (bit_vector)
        requires
            mask == 1usize << k,
            k < usize::BITS,
    ;
    assert((i >> k) & 1 == 0 ==> (i ^ mask) == i + mask) by (bit_vector)
        requires
            mask == 1usize << k,
            k < usize::BITS,
    ;
}

/// Whether qubit `k` is set in basis state `i`.
pub(crate) fn bit_is_set(i: usize, k: usize) -> (set: bool)
    requires
        k < usize::BITS,
    ensures
        set == bit_set(i as int, k as nat),
{
    proof {
        lemma_shift_test_is_bit_set(i, k);
    }
    (i >> k) & 1 == 1
}

/// Basis state `i` with qubit `k` flipped.
pub(crate) fn with_bit_flipped(i: usize, k: usize) -> (j: usize)
    requires
        k < usize::BITS,
    ensures
        j == flip_bit(i as int, k as nat),
{
    proof {
        lemma_xor_is_flip(i, k);
    }
    i ^ (1usize << k)
}

} // verus!
