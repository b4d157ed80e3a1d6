use num_complex::Complex;
use qsim::qubit::{x_gate, Qubit};

#[test]
fn x_exchanges_the_two_amplitudes() {
    let q = Qubit { alpha: Complex::new(0.6, 0.0), beta: Complex::new(0.0, 0.8) };
    let r = x_gate(&q);
    assert_eq!(r.alpha, Complex::new(0.0, 0.8));
    assert_eq!(r.beta, Complex::new(0.6, 0.0));
    assert_eq!(q.alpha, Complex::new(0.6, 0.0));
    assert_eq!(q.beta, Complex::new(0.0, 0.8));
}

#[test]
fn x_twice_gives_the_qubit_back_exactly() {
    let q = Qubit { alpha: Complex::new(0.1, -0.7), beta: Complex::new(0.5, 0.5) };
    let r = x_gate(&x_gate(&q));
    assert_eq!(r.alpha, q.alpha);
    assert_eq!(r.beta, q.beta);
}

#[test]
fn qubit_can_be_copied() {
    let q = Qubit { alpha: 1u8, beta: 2u8 };
    let copy = q;
    let clone = q.clone();
    assert_eq!((copy.alpha, copy.beta), (1, 2));
    assert_eq!((clone.alpha, clone.beta), (1, 2));
    assert_eq!((q.alpha, q.beta), (1, 2));
}
