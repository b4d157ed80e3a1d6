//! What holds of every single-qubit gate, whatever it computes.
//!
//! A gate on qubit `t` splits the basis indices into pairs and treats each
//! pair on its own. Two consequences are proved here for any amplitude type:
//! a quantity that no pair gains or loses is kept by the whole vector, and a
//! gate that undoes itself on every pair undoes itself on the whole vector.

use vstd::prelude::*;
use vstd::arithmetic::div_mod::lemma_basic_div;
use vstd::arithmetic::power2::{lemma_pow2_pos, lemma_pow2_unfold, pow2};
use crate::basis::{
    bit_set, flip_bit, lemma_flip_in_range, lemma_flip_keeps_other_bits, lemma_flip_toggles,
};
use crate::gates::{pair_at, single_qubit_gate_applied};

verus! {

/// The sum of `weight` over all amplitudes.
pub open spec fn total_weight<T>(amplitudes: Seq<T>, weight: spec_fn(T) -> int) -> int
    decreases amplitudes.len(),
{
    if amplitudes.len() == 0 {
        0
    } else {
        total_weight(amplitudes.drop_last(), weight) + weight(amplitudes.last())
    }
}

/// Every pair of qubit `target` weighs in `after` what it weighs in `before`.
pub open spec fn pairs_keep_weight<T>(
    before: Seq<T>,
    after: Seq<T>,
    target: nat,
    weight: spec_fn(T) -> int,
) -> bool {
    &&& after.len() == before.len()
    &&& forall|i: int|
        0 <= i < before.len() && !#[trigger] bit_set(i, target) ==> weight(after[i]) + weight(
            after[i + pow2(target)],
        ) == weight(before[i]) + weight(before[i + pow2(target)])
}

/// The total weight of a vector is that of its first `h` amplitudes plus
/// that of the rest.
proof fn lemma_total_weight_split<T>(s: Seq<T>, h: int, weight: spec_fn(T) -> int)
    requires
        0 <= h <= s.len(),
    ensures
        total_weight(s, weight) == total_weight(s.take(h), weight) + total_weight(
            s.skip(h),
            weight,
        ),
    decreases s.len(),
{
    if h == s.len() {
        assert(s.take(h) =~= s);
        assert(s.skip(h).len() == 0);
    } else {
        lemma_total_weight_split(s.drop_last(), h, weight);
        assert(s.drop_last().take(h) =~= s.take(h));
        assert(s.drop_last().skip(h) =~= s.skip(h).drop_last());
        assert(s.skip(h).last() == s.last());
    }
}

/// Two halves that weigh the same index by index, taken together, weigh the
/// same in total.
proof fn lemma_halves_keep_weight<T>(
    lo0: Seq<T>,
    hi0: Seq<T>,
    lo1: Seq<T>,
    hi1: Seq<T>,
    weight: spec_fn(T) -> int,
)
    requires
        lo0.len() == hi0.len() == lo1.len() == hi1.len(),
        forall|i: int|
            0 <= i < lo0.len() ==> weight(#[trigger] lo1[i]) + weight(hi1[i]) == weight(lo0[i])
                + weight(hi0[i]),
    ensures
        total_weight(lo1, weight) + total_weight(hi1, weight) == total_weight(lo0, weight)
            + total_weight(hi0, weight),
    decreases lo0.len(),
{
    if lo0.len() > 0 {
        let last = lo0.len() - 1;
        assert(weight(lo1[last]) + weight(hi1[last]) == weight(lo0[last]) + weight(hi0[last]));
        assert forall|i: int| 0 <= i < last implies weight(#[trigger] lo1.drop_last()[i]) + weight(
            hi1.drop_last()[i],
        ) == weight(lo0.drop_last()[i]) + weight(hi0.drop_last()[i]) by {
            assert(weight(lo1[i]) + weight(hi1[i]) == weight(lo0[i]) + weight(hi0[i]));
        }
        lemma_halves_keep_weight(
            lo0.drop_last(),
            hi0.drop_last(),
            lo1.drop_last(),
            hi1.drop_last(),
            weight,
        );
    }
}

/// An index below `2^m` has bit `m` clear.
proof fn lemma_small_index_has_bit_clear(i: int, m: nat)
    requires
        0 <= i < pow2(m),
    ensures
        !bit_set(i, m),
{
    lemma_basic_div(i, pow2(m) as int);
}

/// On a vector of `2^n` amplitudes, pairs of a qubit below `n` that keep
/// their weight keep the total weight.
proof fn lemma_pairs_keep_total_weight<T>(
    before: Seq<T>,
    after: Seq<T>,
    n: nat,
    target: nat,
    weight: spec_fn(T) -> int,
)
    requires
        before.len() == pow2(n),
        target < n,
        pairs_keep_weight(before, after, target, weight),
    ensures
        total_weight(after, weight) == total_weight(before, weight),
    decreases n,
{
    let m = (n - 1) as nat;
    let h = pow2(m) as int;
    lemma_pow2_unfold(n);
    lemma_pow2_pos(m);
    let lo0 = before.take(h);
    let hi0 = before.skip(h);
    let lo1 = after.take(h);
    let hi1 = after.skip(h);
    lemma_total_weight_split(before, h, weight);
    lemma_total_weight_split(after, h, weight);
    if target == m {
        assert forall|i: int| 0 <= i < h implies weight(#[trigger] lo1[i]) + weight(hi1[i])
            == weight(lo0[i]) + weight(hi0[i]) by {
            lemma_small_index_has_bit_clear(i, m);
        }
        lemma_halves_keep_weight(lo0, hi0, lo1, hi1, weight);
    } else {
        let p = pow2(target) as int;
        assert forall|i: int| 0 <= i < h && !#[trigger] bit_set(i, target) implies weight(lo1[i])
            + weight(lo1[i + p]) == weight(lo0[i]) + weight(lo0[i + p]) by {
            lemma_flip_in_range(i, target, m);
        }
        assert forall|i: int| 0 <= i < h && !#[trigger] bit_set(i, target) implies weight(hi1[i])
            + weight(hi1[i + p]) == weight(hi0[i]) + weight(hi0[i + p]) by {
            lemma_flip_in_range(i, target, m);
            lemma_small_index_has_bit_clear(i, m);
            lemma_flip_keeps_other_bits(i, m, target);
            assert(flip_bit(i, m) == i + h);
            assert(!bit_set(i + h, target));
        }
        lemma_pairs_keep_total_weight(lo0, lo1, m, target, weight);
        lemma_pairs_keep_total_weight(hi0, hi1, m, target, weight);
    }
}

/// A single-qubit gate that keeps the weight of every pair it is given keeps
/// the total weight of the vector.
///
/// With the squared magnitude for `weight`, this is the statement that a
/// norm-preserving gate leaves a normalized vector normalized, for amplitudes
/// whose arithmetic is exact.
pub proof fn single_qubit_gate_keeps_total_weight<T, F: Fn(T, T) -> (T, T)>(
    before: Seq<T>,
    after: Seq<T>,
    n: nat,
    target: nat,
    gate: F,
    weight: spec_fn(T) -> int,
)
    requires
        before.len() == pow2(n),
        target < n,
        single_qubit_gate_applied(before, after, target, gate),
        forall|given: (T, T), returned: (T, T)| #[trigger]
            call_ensures(gate, given, returned) ==> weight(returned.0) + weight(returned.1)
                == weight(given.0) + weight(given.1),
    ensures
        total_weight(after, weight) == total_weight(before, weight),
{
    assert forall|i: int| 0 <= i < before.len() && !#[trigger] bit_set(i, target) implies weight(
        after[i],
    ) + weight(after[i + pow2(target)]) == weight(before[i]) + weight(
        before[i + pow2(target)],
    ) by {
        assert(call_ensures(gate, pair_at(before, i, target), pair_at(after, i, target)));
    }
    lemma_pairs_keep_total_weight(before, after, n, target, weight);
}

/// A single-qubit gate that undoes itself on every pair undoes itself on the
/// vector: applied twice to the same qubit it gives every amplitude back.
pub proof fn self_inverse_gate_twice_is_identity<T, F: Fn(T, T) -> (T, T)>(
    start: Seq<T>,
    once: Seq<T>,
    twice: Seq<T>,
    n: nat,
    target: nat,
    gate: F,
)
    requires
        start.len() == pow2(n),
        target < n,
        single_qubit_gate_applied(start, once, target, gate),
        single_qubit_gate_applied(once, twice, target, gate),
        forall|given: (T, T), returned: (T, T), back: (T, T)|
            #![trigger call_ensures(gate, given, returned), call_ensures(gate, returned, back)]
            call_ensures(gate, given, returned) && call_ensures(gate, returned, back) ==> back
                == given,
    ensures
        twice == start,
{
    assert forall|k: int| 0 <= k < start.len() implies twice[k] == start[k] by {
        let i = if bit_set(k, target) {
            flip_bit(k, target)
        } else {
            k
        };
        lemma_flip_in_range(k, target, n);
        lemma_flip_toggles(k, target);
        assert(call_ensures(gate, pair_at(start, i, target), pair_at(once, i, target)));
        assert(call_ensures(gate, pair_at(once, i, target), pair_at(twice, i, target)));
        assert(pair_at(twice, i, target) == pair_at(start, i, target));
    }
    assert(twice =~= start);
}

} // verus!
