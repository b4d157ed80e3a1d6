//! Errors reported by the simulator.

use vstd::prelude::*;

verus! {

/// Why an operation was refused. A refused operation leaves its state untouched.
#[derive(Clone, Copy, Debug, PartialEq, Eq, Structural)]
pub enum SimError {
    /// A qubit index is not below the number of qubits of the register, or
    /// the control and the target of a two-qubit gate are the same qubit.
    InvalidQubitIndex,
    /// The register asked for has more qubits than the configured limit, or
    /// more than the machine can index.
    AllocationLimitExceeded,
}

} // verus!
