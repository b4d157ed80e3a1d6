//! Gates on the amplitude vector.
//!
//! A gate on qubit `t` pairs each basis index whose bit `t` is 0 with the
//! index that has bit `t` set and all other bits equal, and replaces the two
//! amplitudes of each pair by new ones computed from both. A controlled bit
//! flip moves amplitudes between the two indices of such a pair wherever the
//! control bit is 1. Every gate reads the amplitudes as they were when it
//! began and installs the new ones in one step.

use vstd::prelude::*;
use vstd::arithmetic::power2::{lemma_pow2_pos, pow2};
use crate::basis::{
    bit_is_set, bit_set, flip_bit, lemma_flip_in_range, lemma_flip_involution,
    lemma_flip_keeps_other_bits, lemma_flip_toggles, lemma_pow2_exceeds_word, with_bit_flipped,
};
use crate::error::SimError;
use crate::state::StateVector;

verus! {

/// The two amplitudes that a gate on qubit `target` treats together: the one
/// at `i`, whose bit `target` is 0, and the one at `i` with that bit set.
pub open spec fn pair_at<T>(amplitudes: Seq<T>, i: int, target: nat) -> (T, T) {
    (amplitudes[i], amplitudes[i + pow2(target)])
}

/// `gate` may be called on every pair that a gate on qubit `target` treats.
pub open spec fn gate_accepts<T, F: Fn(T, T) -> (T, T)>(
    amplitudes: Seq<T>,
    target: nat,
    gate: F,
) -> bool {
    forall|i: int|
        0 <= i < amplitudes.len() && !bit_set(i, target) ==> call_requires(
            gate,
            #[trigger] pair_at(amplitudes, i, target),
        )
}

/// `after` is `before` with every pair of qubit `target` replaced by what
/// `gate` returns for that pair as it was in `before`.
pub open spec fn single_qubit_gate_applied<T, F: Fn(T, T) -> (T, T)>(
    before: Seq<T>,
    after: Seq<T>,
    target: nat,
    gate: F,
) -> bool {
    &&& after.len() == before.len()
    &&& forall|i: int|
        0 <= i < before.len() && !bit_set(i, target) ==> call_ensures(
            gate,
            pair_at(before, i, target),
            #[trigger] pair_at(after, i, target),
        )
}

/// The amplitudes after a bit flip of qubit `target` controlled by qubit
/// `control`: where the control bit is 1 the amplitude comes from the index
/// with the target bit flipped, elsewhere it stays.
pub open spec fn cnot_applied<T>(before: Seq<T>, control: nat, target: nat) -> Seq<T> {
    Seq::new(
        before.len(),
        |k: int|
            if bit_set(k, control) {
                before[flip_bit(k, target)]
            } else {
                before[k]
            },
    )
}

/// Applies a single-qubit gate to qubit `target`.
///
/// `gate` takes the amplitudes of a pair, the one with the target bit 0
/// first, and returns the new amplitudes in the same order. It is called
/// once for each of the `2^(n-1)` pairs, always on amplitudes as they were at
/// the start. A target that is not a qubit of the register is refused.
pub fn apply_single_qubit_gate<T: Copy, F: Fn(T, T) -> (T, T)>(
    state: &mut StateVector<T>,
    target: usize,
    gate: F,
) -> (res: Result<(), SimError>)
    requires
        target < old(state).qubits() ==> gate_accepts(old(state)@, target as nat, gate),
    ensures
        final(state).wf(),
        final(state).qubits() == old(state).qubits(),
        target < old(state).qubits() ==> res is Ok && single_qubit_gate_applied(
            old(state)@,
            final(state)@,
            target as nat,
            gate,
        ),
        target >= old(state).qubits() ==> res == Err::<(), SimError>(SimError::InvalidQubitIndex)
            && final(state)@ == old(state)@,
{
    let n_qubits = state.n_qubits();
    if target >= n_qubits {
        return Err(SimError::InvalidQubitIndex);
    }
    let current = state.amplitudes();
    let size = current.len();
    let mut next = state.snapshot();
    let ghost t = target as nat;
    proof {
        if n_qubits >= usize::BITS {
            lemma_pow2_exceeds_word(n_qubits as nat);
        }
    }
    let mut i: usize = 0;
    while i < size
        invariant
            i <= size,
            size == pow2(n_qubits as nat),
            target < n_qubits < usize::BITS,
            t == target,
            current@.len() == size,
            next@.len() == size,
            gate_accepts(current@, t, gate),
            forall|k: int|
                0 <= k < i && !bit_set(k, t) ==> call_ensures(
                    gate,
                    pair_at(current@, k, t),
                    #[trigger] pair_at(next@, k, t),
                ),
        decreases size - i,
    {
        if !bit_is_set(i, target) {
            let j = with_bit_flipped(i, target);
            proof {
                lemma_pow2_pos(t);
                lemma_flip_in_range(i as int, t, n_qubits as nat);
                assert(pair_at(current@, i as int, t) == (current@[i as int], current@[j as int]));
            }
            let ghost before_step = next@;
            let (low, high) = gate(current[i], current[j]);
            next.set(i, low);
            next.set(j, high);
            proof {
                assert(pair_at(next@, i as int, t) == (low, high));
                assert forall|k: int| 0 <= k < i && !bit_set(k, t) implies pair_at(next@, k, t)
                    == pair_at(before_step, k, t) by {
                    lemma_flip_toggles(k, t);
                }
            }
        }
        i += 1;
    }
    state.replace_amplitudes(next);
    Ok(())
}

/// Applies a bit flip of qubit `target` controlled by qubit `control`.
///
/// For every basis index whose control bit is 1, the amplitude moves to the
/// index with the target bit flipped; the other amplitudes stay. Control and
/// target must be two different qubits of the register, else the call is
/// refused.
pub fn apply_cnot<T: Copy>(state: &mut StateVector<T>, control: usize, target: usize) -> (res:
    Result<(), SimError>)
    ensures
        final(state).wf(),
        final(state).qubits() == old(state).qubits(),
        valid_pair(control, target, old(state).qubits()) ==> res is Ok && final(state)@
            == cnot_applied(old(state)@, control as nat, target as nat),
        !valid_pair(control, target, old(state).qubits()) ==> res == Err::<(), SimError>(
            SimError::InvalidQubitIndex,
        ) && final(state)@ == old(state)@,
{
    let n_qubits = state.n_qubits();
    if control >= n_qubits || target >= n_qubits || control == target {
        return Err(SimError::InvalidQubitIndex);
    }
    let current = state.amplitudes();
    let size = current.len();
    let mut next = state.snapshot();
    let ghost c = control as nat;
    let ghost t = target as nat;
    proof {
        if n_qubits >= usize::BITS {
            lemma_pow2_exceeds_word(n_qubits as nat);
        }
        assert forall|k: int| 0 <= k < size implies 0 <= flip_bit(k, t) by {
            lemma_flip_in_range(k, t, n_qubits as nat);
        }
    }
    let mut i: usize = 0;
    while i < size
        invariant
            i <= size,
            size == pow2(n_qubits as nat),
            control < n_qubits < usize::BITS,
            target < n_qubits,
            control != target,
            c == control,
            t == target,
            current@.len() == size,
            next@.len() == size,
            forall|k: int|
                0 <= k < size ==> #[trigger] next@[k] == if bit_set(k, c) && flip_bit(k, t) < i {
                    current@[flip_bit(k, t)]
                } else {
                    current@[k]
                },
        decreases size - i,
    {
        let ghost before_step = next@;
        if bit_is_set(i, control) {
            let j = with_bit_flipped(i, target);
            proof {
                lemma_flip_in_range(i as int, t, n_qubits as nat);
                lemma_flip_involution(i as int, t);
                lemma_flip_keeps_other_bits(i as int, t, c);
            }
            next.set(j, current[i]);
            proof {
                assert forall|k: int| 0 <= k < size implies #[trigger] next@[k] == if bit_set(k, c)
                    && flip_bit(k, t) < i + 1 {
                    current@[flip_bit(k, t)]
                } else {
                    current@[k]
                } by {
                    lemma_flip_involution(k, t);
                    assert(before_step[k] == if bit_set(k, c) && flip_bit(k, t) < i {
                        current@[flip_bit(k, t)]
                    } else {
                        current@[k]
                    });
                }
            }
        } else {
            next.set(i, current[i]);
            proof {
                assert forall|k: int| 0 <= k < size implies #[trigger] next@[k] == if bit_set(k, c)
                    && flip_bit(k, t) < i + 1 {
                    current@[flip_bit(k, t)]
                } else {
                    current@[k]
                } by {
                    lemma_flip_keeps_other_bits(k, t, c);
                    assert(before_step[k] == if bit_set(k, c) && flip_bit(k, t) < i {
                        current@[flip_bit(k, t)]
                    } else {
                        current@[k]
                    });
                }
            }
        }
        i += 1;
    }
    proof {
        assert forall|k: int| 0 <= k < size implies next@[k] == cnot_applied(current@, c, t)[k] by {
            lemma_flip_in_range(k, t, n_qubits as nat);
        }
        assert(next@ =~= cnot_applied(current@, c, t));
    }
    state.replace_amplitudes(next);
    Ok(())
}

/// `control` and `target` are two different qubits of a register of
/// `n_qubits` qubits.
pub open spec fn valid_pair(control: usize, target: usize, n_qubits: nat) -> bool {
    control < n_qubits && target < n_qubits && control != target
}

/// `after` is what becomes of `before` when the amplitude of basis state 0 is
/// set to `one`, then `hadamard` is applied to qubit `q1`, then qubit `q2` is
/// flipped under the control of `q1`.
pub open spec fn bell_pair_created<T, F: Fn(T, T) -> (T, T)>(
    before: Seq<T>,
    after: Seq<T>,
    q1: nat,
    q2: nat,
    one: T,
    hadamard: F,
) -> bool {
    exists|mid: Seq<T>|
        #[trigger] single_qubit_gate_applied(before.update(0, one), mid, q1, hadamard) && after
            == cnot_applied(mid, q1, q2)
}

/// Entangles qubits `q1` and `q2`.
///
/// Sets the amplitude of basis state 0 to `one`, applies `hadamard` to `q1`
/// as a single-qubit gate, and flips `q2` under the control of `q1`. On a
/// register whose other amplitudes are zero, and with the Hadamard gate for
/// `hadamard`, the result is the equal superposition of the basis state with
/// both qubits 0 and the one with both qubits 1. The indices are checked
/// before anything is written.
pub fn create_bell_pair<T: Copy, F: Fn(T, T) -> (T, T)>(
    state: &mut StateVector<T>,
    q1: usize,
    q2: usize,
    one: T,
    hadamard: F,
) -> (res: Result<(), SimError>)
    requires
        valid_pair(q1, q2, old(state).qubits()) ==> gate_accepts(
            old(state)@.update(0, one),
            q1 as nat,
            hadamard,
        ),
    ensures
        final(state).wf(),
        final(state).qubits() == old(state).qubits(),
        valid_pair(q1, q2, old(state).qubits()) ==> res is Ok && bell_pair_created(
            old(state)@,
            final(state)@,
            q1 as nat,
            q2 as nat,
            one,
            hadamard,
        ),
        !valid_pair(q1, q2, old(state).qubits()) ==> res == Err::<(), SimError>(
            SimError::InvalidQubitIndex,
        ) && final(state)@ == old(state)@,
{
    let n_qubits = state.n_qubits();
    if q1 >= n_qubits || q2 >= n_qubits || q1 == q2 {
        return Err(SimError::InvalidQubitIndex);
    }
    proof {
        lemma_pow2_pos(n_qubits as nat);
    }
    state.set_amplitude(0, one);
    let _ = apply_single_qubit_gate(state, q1, hadamard);
    let ghost mid = state@;
    let _ = apply_cnot(state, q1, q2);
    proof {
        assert(single_qubit_gate_applied(old(state)@.update(0, one), mid, q1 as nat, hadamard));
    }
    Ok(())
}

} // verus!
