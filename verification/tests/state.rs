use qsim::error::SimError;
use qsim::state::StateVector;

#[test]
fn new_register_has_one_amplitude_for_each_basis_state() {
    for n in 0..6usize {
        let state = StateVector::new(n, 8, 0u8).unwrap();
        assert_eq!(state.n_qubits(), n);
        assert_eq!(state.len(), 1usize << n);
        assert_eq!(state.amplitudes(), &vec![0u8; 1usize << n]);
    }
}

#[test]
fn new_register_is_filled_with_the_given_value() {
    let state = StateVector::new(2, 2, 'z').unwrap();
    assert_eq!(state.into_amplitudes(), vec!['z', 'z', 'z', 'z']);
}

#[test]
fn register_at_the_limit_is_allowed() {
    assert!(StateVector::new(4, 4, 0u8).is_ok());
    assert!(StateVector::new(0, 0, 0u8).is_ok());
}

#[test]
fn register_above_the_limit_is_refused() {
    assert_eq!(
        StateVector::new(5, 4, 0u8).err(),
        Some(SimError::AllocationLimitExceeded)
    );
    assert_eq!(
        StateVector::new(1, 0, 0u8).err(),
        Some(SimError::AllocationLimitExceeded)
    );
}

#[test]
fn register_too_large_to_index_is_refused_whatever_the_limit() {
    let bits = usize::BITS as usize;
    assert_eq!(
        StateVector::new(bits, usize::MAX, 0u8).err(),
        Some(SimError::AllocationLimitExceeded)
    );
    assert_eq!(
        StateVector::new(usize::MAX, usize::MAX, 0u8).err(),
        Some(SimError::AllocationLimitExceeded)
    );
}

#[test]
fn from_amplitudes_takes_powers_of_two() {
    let state = StateVector::from_amplitudes(vec![7u8]).unwrap();
    assert_eq!(state.n_qubits(), 0);
    assert_eq!(state.len(), 1);

    let state = StateVector::from_amplitudes(vec![7u8, 8]).unwrap();
    assert_eq!(state.n_qubits(), 1);

    let state = StateVector::from_amplitudes(vec![1u8, 2, 3, 4]).unwrap();
    assert_eq!(state.n_qubits(), 2);
    assert_eq!(state.amplitudes(), &vec![1u8, 2, 3, 4]);

    let state = StateVector::from_amplitudes(vec![0u8; 1024]).unwrap();
    assert_eq!(state.n_qubits(), 10);
    assert_eq!(state.len(), 1024);
}

#[test]
fn from_amplitudes_refuses_other_lengths() {
    assert!(StateVector::from_amplitudes(Vec::<u8>::new()).is_none());
    assert!(StateVector::from_amplitudes(vec![1u8, 2, 3]).is_none());
    assert!(StateVector::from_amplitudes(vec![0u8; 6]).is_none());
    assert!(StateVector::from_amplitudes(vec![0u8; 1023]).is_none());
    assert!(StateVector::from_amplitudes(vec![0u8; 1025]).is_none());
}

#[test]
fn into_amplitudes_gives_the_vector_back() {
    let amplitudes = vec![3i32, 1, 4, 1, 5, 9, 2, 6];
    let state = StateVector::from_amplitudes(amplitudes.clone()).unwrap();
    assert_eq!(state.into_amplitudes(), amplitudes);
}
