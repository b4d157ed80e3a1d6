//! A single qubit on its own: the amplitudes of its two outcomes.

use vstd::prelude::*;

verus! {

/// The state of one qubit: `alpha` is the amplitude of outcome 0, `beta` the
/// amplitude of outcome 1. A gate returns a new value and leaves its
/// argument as it was.
#[derive(Debug)]
pub struct Qubit<T> {
    pub alpha: T,
    pub beta: T,
}

impl<T: Copy> Clone for Qubit<T> {
    fn clone(&self) -> (copy: Self)
        ensures
            copy == *self,
    {
        *self
    }
}

impl<T: Copy> Copy for Qubit<T> {

}

/// The qubit with the amplitudes of its two outcomes exchanged.
pub open spec fn flipped<T>(q: Qubit<T>) -> Qubit<T> {
    Qubit { alpha: q.beta, beta: q.alpha }
}

/// The bit-flip gate X: `(alpha, beta)` becomes `(beta, alpha)`.
pub fn x_gate<T: Copy>(q: &Qubit<T>) -> (r: Qubit<T>)
    ensures
        r == flipped(*q),
{
    Qubit { alpha: q.beta, beta: q.alpha }
}

/// X is its own inverse: applied twice it gives the qubit back exactly.
pub proof fn x_gate_twice_is_identity<T>(q: Qubit<T>)
    ensures
        flipped(flipped(q)) == q,
{
}

} // verus!
