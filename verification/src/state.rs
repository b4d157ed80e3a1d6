//! The amplitude vector of a register of qubits.

use vstd::prelude::*;
use vstd::arithmetic::power2::{lemma2_to64, lemma_pow2_strictly_increases, lemma_pow2_unfold, pow2};
use vstd::bits::lemma_usize_pow2_no_overflow;
use crate::basis::{lemma_one_shifted_is_pow2, lemma_pow2_exceeds_word};
use crate::error::SimError;

verus! {

/// The joint state of `n` qubits: one amplitude for each of the `2^n` basis
/// states, stored at the index whose bit `k` is the value of qubit `k`.
///
/// The number of qubits is fixed when the vector is made, and the vector
/// always holds exactly `2^n` amplitudes. The amplitude type `T` is left to
/// the caller; the simulator only moves amplitudes and hands them to the
/// caller's gate.
pub struct StateVector<T> {
    amplitudes: Vec<T>,
    n_qubits: usize,
}

impl<T> View for StateVector<T> {
    type V = Seq<T>;

    /// The amplitudes, by basis index.
    closed spec fn view(&self) -> Seq<T> {
        self.amplitudes@
    }
}

impl<T> StateVector<T> {
    /// The number of qubits of the register.
    pub closed spec fn qubits(&self) -> nat {
        self.n_qubits as nat
    }

    /// There is one amplitude for each basis state.
    pub open spec fn wf(&self) -> bool {
        self@.len() == pow2(self.qubits())
    }

    #[verifier::type_invariant]
    closed spec fn inv(&self) -> bool {
        self.amplitudes@.len() == pow2(self.n_qubits as nat)
    }

    /// A register of `n_qubits` qubits with every amplitude equal to `zero`.
    ///
    /// Fails, before anything is allocated, when `n_qubits` is above
    /// `max_qubits` or `2^n_qubits` amplitudes cannot be indexed.
    pub fn new(n_qubits: usize, max_qubits: usize, zero: T) -> (res: Result<Self, SimError>)
        where T: Copy
        ensures
            res is Ok <==> n_qubits <= max_qubits && pow2(n_qubits as nat) <= usize::MAX,
            res matches Ok(s) ==> s.wf() && s.qubits() == n_qubits
                && s@ == Seq::new(pow2(n_qubits as nat), |i: int| zero),
            res matches Err(e) ==> e == SimError::AllocationLimitExceeded,
    {
        if n_qubits > max_qubits || n_qubits >= usize::BITS as usize {
            proof {
                if n_qubits >= usize::BITS {
                    lemma_pow2_exceeds_word(n_qubits as nat);
                }
            }
            return Err(SimError::AllocationLimitExceeded);
        }
        proof {
            lemma_usize_pow2_no_overflow(n_qubits as nat);
            lemma_one_shifted_is_pow2(n_qubits);
        }
        let size: usize = 1usize << n_qubits;
        let mut amplitudes: Vec<T> = Vec::new();
        let mut i: usize = 0;
        while i < size
            invariant
                i <= size,
                amplitudes@ == Seq::new(i as nat, |j: int| zero),
            decreases size - i,
        {
            amplitudes.push(zero);
            i += 1;
        }
        Ok(StateVector { amplitudes, n_qubits })
    }

    /// The register whose amplitudes are `amplitudes`, if their number is a
    /// power of two.
    pub fn from_amplitudes(amplitudes: Vec<T>) -> (res: Option<Self>)
        ensures
            res is Some <==> exists|n: nat| amplitudes@.len() == #[trigger] pow2(n),
            res matches Some(s) ==> s.wf() && s@ == amplitudes@,
    {
        let len = amplitudes.len();
        let mut size: usize = 1;
        let mut n_qubits: usize = 0;
        proof {
            lemma2_to64();
        }
        while size < len
            invariant
                len == amplitudes@.len(),
                size == pow2(n_qubits as nat),
                size >= 1,
                n_qubits < usize::BITS,
                forall|m: nat| m < n_qubits ==> #[trigger] pow2(m) < len,
            decreases usize::BITS - n_qubits,
        {
            if size > usize::MAX / 2 {
                proof {
                    assert forall|m: nat| len != #[trigger] pow2(m) by {
                        if m > n_qubits {
                            lemma_pow2_unfold((n_qubits + 1) as nat);
                            if m > n_qubits + 1 {
                                lemma_pow2_strictly_increases((n_qubits + 1) as nat, m);
                            }
                        }
                    }
                }
                return None;
            }
            proof {
                lemma_pow2_unfold((n_qubits + 1) as nat);
                if n_qubits + 1 >= usize::BITS {
                    lemma_pow2_exceeds_word((n_qubits + 1) as nat);
                }
            }
            size = size * 2;
            n_qubits = n_qubits + 1;
        }
        if size != len {
            proof {
                assert forall|m: nat| len != #[trigger] pow2(m) by {
                    if m > n_qubits {
                        lemma_pow2_strictly_increases(n_qubits as nat, m);
                    }
                }
            }
            return None;
        }
        Some(StateVector { amplitudes, n_qubits })
    }

    /// The number of qubits.
    pub fn n_qubits(&self) -> (n: usize)
        ensures
            n == self.qubits(),
            self.wf(),
    {
        proof {
            use_type_invariant(self);
        }
        self.n_qubits
    }

    /// The number of amplitudes, `2^n` for `n` qubits.
    pub fn len(&self) -> (len: usize)
        ensures
            len == self@.len(),
            self.wf(),
    {
        proof {
            use_type_invariant(self);
        }
        self.amplitudes.len()
    }

    /// The amplitudes, by basis index.
    pub fn amplitudes(&self) -> (amplitudes: &Vec<T>)
        ensures
            amplitudes@ == self@,
            self.wf(),
    {
        proof {
            use_type_invariant(self);
        }
        &self.amplitudes
    }

    /// Gives up the register for its amplitudes.
    pub fn into_amplitudes(self) -> (amplitudes: Vec<T>)
        ensures
            amplitudes@ == self@,
            self.wf(),
    {
        proof {
            use_type_invariant(&self);
        }
        self.amplitudes
    }

    /// A copy of the amplitudes, to write the next state into.
    pub(crate) fn snapshot(&self) -> (copy: Vec<T>)
        where T: Copy
        ensures
            copy@ == self@,
            self.wf(),
    {
        proof {
            use_type_invariant(self);
        }
        let mut copy: Vec<T> = Vec::new();
        let mut i: usize = 0;
        while i < self.amplitudes.len()
            invariant
                i <= self.amplitudes@.len(),
                copy@ == self.amplitudes@.take(i as int),
            decreases self.amplitudes@.len() - i,
        {
            copy.push(self.amplitudes[i]);
            i += 1;
        }
        copy
    }

    /// Writes `value` at basis index `index`.
    pub(crate) fn set_amplitude(&mut self, index: usize, value: T)
        where T: Copy
        requires
            index < old(self)@.len(),
        ensures
            final(self)@ == old(self)@.update(index as int, value),
            final(self).qubits() == old(self).qubits(),
            final(self).wf(),
    {
        let mut next = self.snapshot();
        next.set(index, value);
        self.replace_amplitudes(next);
    }

    /// Puts `next` in place of the amplitudes, all at once.
    pub(crate) fn replace_amplitudes(&mut self, next: Vec<T>)
        requires
            next@.len() == old(self)@.len(),
        ensures
            final(self)@ == next@,
            final(self).qubits() == old(self).qubits(),
            final(self).wf(),
    {
        proof {
            use_type_invariant(&*self);
        }
        self.amplitudes = next;
    }
}

} // verus!
