use neural_net::fixed::{MAXV, SCALE};
use neural_net::loss_functions::MeanSquaredError;
use neural_net::optimizers::SGD;
use neural_net::NetworkError;

#[test]
fn loss_of_a_vector_against_itself_is_zero() {
    let mse = MeanSquaredError;
    let v: Vec<i64> = vec![123_456, -789, 0, 5 * SCALE, -3 * SCALE];
    assert_eq!(mse.calculate_loss(&v, &v), Ok(0));
    let w: Vec<i64> = vec![42];
    assert_eq!(mse.calculate_loss(&w, &w), Ok(0));
}

#[test]
fn loss_matches_the_averaged_formula() {
    let mse = MeanSquaredError;
    // ((1.0 - 0.0)^2 + (0.0 - 1.0)^2) / 2 = 1.0
    let o: Vec<i64> = vec![SCALE, 0];
    let t: Vec<i64> = vec![0, SCALE];
    assert_eq!(mse.calculate_loss(&o, &t), Ok(SCALE));
    // (2.5 - 3.0)^2 / 1 = 0.25
    let o2: Vec<i64> = vec![2_500_000];
    let t2: Vec<i64> = vec![3_000_000];
    assert_eq!(mse.calculate_loss(&o2, &t2), Ok(250_000));
}

#[test]
fn loss_rejects_mismatched_and_empty_vectors() {
    let mse = MeanSquaredError;
    let a: Vec<i64> = vec![1, 2];
    let b: Vec<i64> = vec![1];
    let e: Vec<i64> = Vec::new();
    assert_eq!(mse.calculate_loss(&a, &b), Err(NetworkError::DimensionMismatch));
    assert_eq!(mse.calculate_loss(&e, &e), Err(NetworkError::DimensionMismatch));
    assert_eq!(
        mse.calculate_loss_derivative(&a, &b),
        Err(NetworkError::DimensionMismatch)
    );
    assert_eq!(
        mse.calculate_loss_derivative(&e, &e),
        Err(NetworkError::DimensionMismatch)
    );
}

#[test]
fn loss_rejects_out_of_range_values() {
    let mse = MeanSquaredError;
    let o: Vec<i64> = vec![MAXV + 1];
    let t: Vec<i64> = vec![0];
    assert_eq!(mse.calculate_loss(&o, &t), Err(NetworkError::NumericalError));
    assert_eq!(
        mse.calculate_loss_derivative(&o, &t),
        Err(NetworkError::NumericalError)
    );
}

#[test]
fn loss_derivative_matches_the_scaled_formula() {
    let mse = MeanSquaredError;
    // n = 2, derivative_i = 2 * (o_i - t_i) / 2 = o_i - t_i
    let o: Vec<i64> = vec![SCALE, 0];
    let t: Vec<i64> = vec![0, SCALE];
    assert_eq!(mse.calculate_loss_derivative(&o, &t), Ok(vec![SCALE, -SCALE]));
    // n = 1, derivative = 2 * (2.5 - 3.0) = -1.0
    let o2: Vec<i64> = vec![2_500_000];
    let t2: Vec<i64> = vec![3_000_000];
    assert_eq!(mse.calculate_loss_derivative(&o2, &t2), Ok(vec![-SCALE]));
}

#[test]
fn sgd_rejects_non_positive_learning_rate() {
    assert_eq!(SGD::new(0), Err(NetworkError::ConfigurationError));
    assert_eq!(SGD::new(-100_000), Err(NetworkError::ConfigurationError));
    let s = SGD::new(100_000).unwrap();
    assert_eq!(s.learning_rate, 100_000);
}

#[test]
fn sgd_update_applies_the_rule_in_place() {
    // learning rate 0.5: p_i -= 0.5 * g_i
    let s = SGD::new(500_000).unwrap();
    let mut p: Vec<i64> = vec![SCALE, -SCALE, 0];
    let g: Vec<i64> = vec![2 * SCALE, 2 * SCALE, -4 * SCALE];
    assert_eq!(s.update(&mut p, &g), Ok(()));
    assert_eq!(p, vec![0, -2 * SCALE, 2 * SCALE]);
}

#[test]
fn sgd_update_tolerates_empty_vectors() {
    let s = SGD::new(1).unwrap();
    let mut p: Vec<i64> = Vec::new();
    let g: Vec<i64> = Vec::new();
    assert_eq!(s.update(&mut p, &g), Ok(()));
    assert!(p.is_empty());
}

#[test]
fn sgd_update_rejects_mismatched_lengths_and_leaves_parameters_alone() {
    let s = SGD::new(1).unwrap();
    let mut p: Vec<i64> = vec![7, 8];
    let g: Vec<i64> = vec![1];
    assert_eq!(s.update(&mut p, &g), Err(NetworkError::DimensionMismatch));
    assert_eq!(p, vec![7, 8]);
}
