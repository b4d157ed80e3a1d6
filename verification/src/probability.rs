//! Probabilities of the basis states.

use vstd::prelude::*;

verus! {

/// The probability of each basis state, in the order of the amplitudes.
///
/// `norm_sqr` gives the squared magnitude of one amplitude; entry `i` of the
/// result is what it returns for amplitude `i`. The amplitudes are only read.
pub fn compute_probabilities<T: Copy, P, F: Fn(T) -> P>(wave: &Vec<T>, norm_sqr: F) -> (prob: Vec<P>)
    requires
        forall|i: int| 0 <= i < wave@.len() ==> call_requires(norm_sqr, (#[trigger] wave@[i],)),
    ensures
        prob@.len() == wave@.len(),
        forall|i: int|
            0 <= i < wave@.len() ==> call_ensures(norm_sqr, (wave@[i],), #[trigger] prob@[i]),
{
    let mut prob: Vec<P> = Vec::new();
    for i in 0..wave.len()
        invariant
            prob@.len() == i,
            forall|k: int| 0 <= k < wave@.len() ==> call_requires(norm_sqr, (#[trigger] wave@[k],)),
            forall|k: int| 0 <= k < i ==> call_ensures(norm_sqr, (wave@[k],), #[trigger] prob@[k]),
    {
        let p = norm_sqr(wave[i]);
        prob.push(p);
    }
    prob
}

} // verus!
