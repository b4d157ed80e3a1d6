use num_complex::Complex;
use qsim::probability::compute_probabilities;

fn norm_sqr(amplitude: Complex<f64>) -> f64 {
    amplitude.norm_sqr()
}

#[test]
fn probabilities_of_a_basis_state() {
    let wave = vec![
        Complex::new(1.0, 0.0),
        Complex::new(0.0, 0.0),
        Complex::new(0.0, 0.0),
        Complex::new(0.0, 0.0),
    ];
    assert_eq!(compute_probabilities(&wave, norm_sqr), vec![1.0, 0.0, 0.0, 0.0]);
}

#[test]
fn probabilities_are_squared_magnitudes() {
    let wave = vec![Complex::new(0.6, 0.0), Complex::new(0.0, 0.8)];
    let prob = compute_probabilities(&wave, norm_sqr);
    assert_eq!(prob.len(), 2);
    assert!((prob[0] - 0.36).abs() < 1e-12);
    assert!((prob[1] - 0.64).abs() < 1e-12);
    assert!((prob.iter().sum::<f64>() - 1.0).abs() < 1e-9);
}

#[test]
fn probabilities_use_both_parts_of_an_amplitude() {
    let wave = vec![Complex::new(3.0, 4.0)];
    assert_eq!(compute_probabilities(&wave, norm_sqr), vec![25.0]);
}

#[test]
fn probabilities_of_nothing() {
    let wave: Vec<Complex<f64>> = Vec::new();
    assert!(compute_probabilities(&wave, norm_sqr).is_empty());
}

#[test]
fn probabilities_keep_the_order_of_the_amplitudes() {
    let wave = vec![1i32, -2, 3, -4];
    assert_eq!(compute_probabilities(&wave, |a: i32| a * a), vec![1, 4, 9, 16]);
}
