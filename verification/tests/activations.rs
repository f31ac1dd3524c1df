use neural_net::activation_functions::{LeakyReLU, Linear, ReLU, Sigmoid, Softmax, Tanh};
use neural_net::fixed::SCALE;

#[test]
fn linear_forward_is_identity() {
    let l = Linear;
    let xs: Vec<i64> = vec![-3 * SCALE, 0, 1, 2_500_000, SCALE, -987_654];
    assert_eq!(l.forward(&xs), xs);
}

#[test]
fn linear_backward_is_all_ones() {
    let l = Linear;
    let ys: Vec<i64> = vec![-3 * SCALE, 0, 42, 2_500_000];
    assert_eq!(l.backward(&ys), vec![SCALE; 4]);
}

#[test]
fn sigmoid_output_strictly_between_zero_and_one() {
    let s = Sigmoid;
    let xs: Vec<i64> = vec![
        -2_000_000_000_000_000,
        -25 * SCALE,
        -5 * SCALE,
        -1,
        0,
        1,
        5 * SCALE,
        25 * SCALE,
        2_000_000_000_000_000,
    ];
    let ys = s.forward(&xs);
    assert_eq!(ys.len(), xs.len());
    for &y in ys.iter() {
        assert!(0 < y && y < SCALE);
    }
    // sigmoid(0) is exactly one half
    assert_eq!(ys[4], SCALE / 2);
    // monotone over the sampled points
    for w in ys.windows(2) {
        assert!(w[0] <= w[1]);
    }
    // close to the true values at a few points (tolerance one part in a thousand)
    let close = |a: i64, b: f64| (a as f64 / SCALE as f64 - b).abs() < 1e-3;
    assert!(close(ys[2], 0.006_692_85));
    assert!(close(ys[6], 0.993_307_15));
}

#[test]
fn sigmoid_backward_is_y_times_one_minus_y() {
    let s = Sigmoid;
    let ys: Vec<i64> = vec![0, 1, 250_000, 500_000, 750_000, 999_999, SCALE];
    let ds = s.backward(&ys);
    for (i, &y) in ys.iter().enumerate() {
        assert_eq!(ds[i], y * (SCALE - y) / SCALE);
    }
    // the derivative peaks at one quarter in the middle
    assert_eq!(ds[3], SCALE / 4);
}

#[test]
fn relu_forward_and_backward() {
    let r = ReLU;
    let xs: Vec<i64> = vec![-5 * SCALE, -1, 0, 1, 3 * SCALE];
    assert_eq!(r.forward(&xs), vec![0, 0, 0, 1, 3 * SCALE]);
    assert_eq!(r.backward(&xs), vec![0, 0, 0, SCALE, SCALE]);
}

#[test]
fn leaky_relu_forward_and_backward() {
    let l = LeakyReLU;
    let xs: Vec<i64> = vec![-5 * SCALE, -100, 0, 1, 3 * SCALE];
    assert_eq!(l.forward(&xs), vec![-5 * SCALE / 100, -1, 0, 1, 3 * SCALE]);
    assert_eq!(l.backward(&xs), vec![10_000, 10_000, 10_000, SCALE, SCALE]);
}

#[test]
fn tanh_range_and_zero() {
    let t = Tanh;
    let xs: Vec<i64> = vec![-30 * SCALE, -SCALE, 0, SCALE, 30 * SCALE];
    let ys = t.forward(&xs);
    for &y in ys.iter() {
        assert!(-SCALE < y && y < SCALE);
    }
    assert_eq!(ys[2], 0);
    // odd symmetry of the implementation
    assert_eq!(ys[1], -ys[3]);
    let close = |a: i64, b: f64| (a as f64 / SCALE as f64 - b).abs() < 2e-3;
    assert!(close(ys[1], -0.761_594));
    assert!(close(ys[4], 1.0));
}

#[test]
fn tanh_backward_is_one_minus_y_squared() {
    let t = Tanh;
    let ys: Vec<i64> = vec![-SCALE, -500_000, 0, 500_000, SCALE];
    let ds = t.backward(&ys);
    for (i, &y) in ys.iter().enumerate() {
        assert_eq!(ds[i], SCALE - y * y / SCALE);
    }
}

#[test]
fn softmax_outputs_sum_close_to_one() {
    let s = Softmax;
    let xs: Vec<i64> = vec![SCALE, 2 * SCALE, 3 * SCALE];
    let ys = s.forward(&xs);
    assert_eq!(ys.len(), 3);
    let total: i64 = ys.iter().sum();
    assert!((total - SCALE).abs() < 100);
    // larger inputs get larger shares, in order
    assert!(ys[0] < ys[1] && ys[1] < ys[2]);
    for &y in ys.iter() {
        assert!(0 <= y && y <= SCALE);
    }
}

#[test]
fn softmax_uniform_on_equal_inputs() {
    let s = Softmax;
    let xs: Vec<i64> = vec![700_000, 700_000, 700_000, 700_000];
    let ys = s.forward(&xs);
    for &y in ys.iter() {
        assert_eq!(y, SCALE / 4);
    }
}

#[test]
fn softmax_backward_is_y_times_one_minus_y() {
    let s = Softmax;
    let ys: Vec<i64> = vec![0, 330_000, 500_000, SCALE];
    let ds = s.backward(&ys);
    for (i, &y) in ys.iter().enumerate() {
        assert_eq!(ds[i], y * (SCALE - y) / SCALE);
    }
}

#[test]
fn empty_vectors_stay_empty() {
    let xs: Vec<i64> = Vec::new();
    assert!(Sigmoid.forward(&xs).is_empty());
    assert!(Softmax.forward(&xs).is_empty());
    assert!(Linear.backward(&xs).is_empty());
}
