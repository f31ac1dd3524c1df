use neural_net::activation_functions::ActivationFunction;
use neural_net::fixed::SCALE;
use neural_net::network::NeuralNetwork;
use neural_net::optimizers::SGD;
use neural_net::NetworkError;

fn example_network() -> NeuralNetwork {
    // Input(2) -> Output(1) with a linear activation on the output stage
    let mut nn = NeuralNetwork::new();
    nn.add_input_layer(2).unwrap();
    nn.add_output_layer(1).unwrap();
    nn.set_activation_function(1, Some(ActivationFunction::Linear)).unwrap();
    nn.finalize().unwrap();
    nn.set_weights(1, vec![vec![SCALE, -SCALE]]).unwrap();
    nn.set_biases(1, vec![500_000]).unwrap();
    nn
}

#[test]
fn forward_length_matches_output_layer_size() {
    let mut nn = NeuralNetwork::new();
    nn.add_input_layer(3).unwrap();
    nn.add_fully_connected_layer(5).unwrap();
    nn.add_output_layer(2).unwrap();
    nn.set_activation_function(1, Some(ActivationFunction::Sigmoid)).unwrap();
    nn.finalize().unwrap();
    let out = nn.forward(&vec![SCALE, -SCALE, 300_000]).unwrap();
    assert_eq!(out.len(), 2);
    let out2 = nn.forward(&vec![0, 0, 0]).unwrap();
    assert_eq!(out2.len(), 2);
}

#[test]
fn forward_before_finalize_is_not_initialized() {
    let mut nn = NeuralNetwork::new();
    nn.add_input_layer(2).unwrap();
    nn.add_output_layer(1).unwrap();
    assert_eq!(
        nn.forward(&vec![0, 0]),
        Err(NetworkError::NotInitialized)
    );
    assert_eq!(
        nn.train_step(&vec![0, 0], &vec![0]),
        Err(NetworkError::NotInitialized)
    );
    assert_eq!(
        nn.train(&vec![(vec![0, 0], vec![0])], 1, false),
        Err(NetworkError::NotInitialized)
    );
}

#[test]
fn finalize_without_input_layer_fails_and_stays_building() {
    let mut nn = NeuralNetwork::new();
    nn.add_output_layer(1).unwrap();
    assert_eq!(nn.finalize(), Err(NetworkError::ConfigurationError));
    // still in building state, with no parameters allocated
    assert_eq!(nn.forward(&vec![0]), Err(NetworkError::NotInitialized));
    assert_eq!(nn.get_weights(0).unwrap().len(), 0);
    assert_eq!(nn.get_biases(0).unwrap().len(), 0);
}

#[test]
fn finalize_without_output_layer_fails_and_stays_building() {
    let mut nn = NeuralNetwork::new();
    nn.add_input_layer(2).unwrap();
    nn.add_fully_connected_layer(3).unwrap();
    assert_eq!(nn.finalize(), Err(NetworkError::ConfigurationError));
    assert_eq!(nn.forward(&vec![0, 0]), Err(NetworkError::NotInitialized));
    assert_eq!(nn.get_weights(1).unwrap().len(), 0);
    assert_eq!(nn.get_biases(1).unwrap().len(), 0);
}

#[test]
fn builder_rejects_zero_sizes_and_duplicates() {
    let mut nn = NeuralNetwork::new();
    assert_eq!(nn.add_input_layer(0), Err(NetworkError::ConfigurationError));
    assert_eq!(
        nn.add_fully_connected_layer(3),
        Err(NetworkError::ConfigurationError)
    );
    nn.add_input_layer(2).unwrap();
    assert_eq!(nn.add_input_layer(2), Err(NetworkError::ConfigurationError));
    nn.add_output_layer(1).unwrap();
    assert_eq!(nn.add_output_layer(1), Err(NetworkError::ConfigurationError));
}

#[test]
fn forward_rejects_wrong_input_width() {
    let mut nn = example_network();
    assert_eq!(
        nn.forward(&vec![0]),
        Err(NetworkError::DimensionMismatch)
    );
    assert_eq!(
        nn.forward(&vec![0, 0, 0]),
        Err(NetworkError::DimensionMismatch)
    );
    assert_eq!(
        nn.train_step(&vec![0], &vec![0]),
        Err(NetworkError::DimensionMismatch)
    );
    assert_eq!(
        nn.train_step(&vec![0, 0], &vec![0, 0]),
        Err(NetworkError::DimensionMismatch)
    );
}

#[test]
fn example_forward_is_two_and_a_half() {
    // weights [[1.0, -1.0]], bias [0.5]; forward([3.0, 1.0]) = 1*3 - 1*1 + 0.5
    let nn = example_network();
    let out = nn.forward(&vec![3 * SCALE, SCALE]).unwrap();
    assert_eq!(out, vec![2_500_000]);
}

#[test]
fn example_train_step_matches_the_documented_formulas() {
    let mut nn = example_network();
    nn.set_optimizer(SGD::new(100_000).unwrap());  // learning rate 0.1
    // loss = (2.5 - 3.0)^2 = 0.25
    let loss = nn.train_step(&vec![3 * SCALE, SCALE], &vec![3 * SCALE]).unwrap();
    assert_eq!(loss, 250_000);
    // gradient wrt the output: 2 * (2.5 - 3.0) / 1 = -1.0
    // weight gradient: -1.0 * input; update: w -= 0.1 * gradient
    let w = nn.get_weights(1).unwrap();
    assert_eq!(w, vec![vec![1_300_000, -900_000]]);
    let b = nn.get_biases(1).unwrap();
    assert_eq!(b, vec![600_000]);
}

#[test]
fn analytic_gradient_matches_finite_differences() {
    // a small seeded network and fixed input/target; the gradient recovered
    // from one training step must match a two-sided numeric estimate
    let mut nn = NeuralNetwork::new();
    nn.set_seed(7);
    nn.add_input_layer(2).unwrap();
    nn.add_output_layer(1).unwrap();
    nn.set_activation_function(1, Some(ActivationFunction::Linear)).unwrap();
    nn.finalize().unwrap();
    let lr: i64 = 100_000;  // 0.1
    nn.set_optimizer(SGD::new(lr).unwrap());
    let input: Vec<i64> = vec![300_000, -200_000];
    let target: Vec<i64> = vec![500_000];

    let w0 = nn.get_weights(1).unwrap();
    let b0 = nn.get_biases(1).unwrap();
    let mse = neural_net::loss_functions::MeanSquaredError;
    let h: i64 = 10_000;  // 0.01
    let mut numeric: Vec<f64> = Vec::new();
    for j in 0..2 {
        let mut wp = w0.clone();
        wp[0][j] += h;
        nn.set_weights(1, wp).unwrap();
        let lp = mse
            .calculate_loss(&nn.forward(&input).unwrap(), &target)
            .unwrap();
        let mut wm = w0.clone();
        wm[0][j] -= h;
        nn.set_weights(1, wm).unwrap();
        let lm = mse
            .calculate_loss(&nn.forward(&input).unwrap(), &target)
            .unwrap();
        numeric.push((lp - lm) as f64 / (2.0 * h as f64));
        nn.set_weights(1, w0.clone()).unwrap();
        nn.set_biases(1, b0.clone()).unwrap();
    }
    nn.train_step(&input, &target).unwrap();
    let w1 = nn.get_weights(1).unwrap();
    for j in 0..2 {
        // update was w -= lr * g / SCALE, so g = (w0 - w1) * SCALE / lr
        let analytic = (w0[0][j] - w1[0][j]) as f64 * SCALE as f64 / lr as f64
            / SCALE as f64;
        let rel = (analytic - numeric[j]).abs()
            / analytic.abs().max(numeric[j].abs()).max(1e-3);
        assert!(rel < 1e-3, "component {}: {} vs {}", j, analytic, numeric[j]);
    }
}

#[test]
fn finalize_is_deterministic_from_the_seed() {
    let build = |seed: u64| {
        let mut nn = NeuralNetwork::new();
        nn.set_seed(seed);
        nn.add_input_layer(3).unwrap();
        nn.add_fully_connected_layer(4).unwrap();
        nn.add_output_layer(2).unwrap();
        nn.finalize().unwrap();
        (nn.get_weights(1).unwrap(), nn.get_biases(2).unwrap())
    };
    let (w_a, b_a) = build(99);
    let (w_b, b_b) = build(99);
    assert_eq!(w_a, w_b);
    assert_eq!(b_a, b_b);
    let (w_c, _) = build(100);
    assert_ne!(w_a, w_c);
    // the initial values are small: within [-1/prev, 1/prev]
    for row in w_a.iter() {
        assert_eq!(row.len(), 3);
        for &v in row.iter() {
            assert!(-SCALE / 3 <= v && v <= SCALE / 3);
        }
    }
}

#[test]
fn train_runs_the_requested_epochs_and_reduces_the_loss() {
    let mut nn = NeuralNetwork::new();
    nn.set_seed(5);
    nn.add_input_layer(1).unwrap();
    nn.add_output_layer(1).unwrap();
    nn.finalize().unwrap();
    nn.set_optimizer(SGD::new(100_000).unwrap());
    // learn y = 2x from three samples
    let data = vec![
        (vec![SCALE], vec![2 * SCALE]),
        (vec![2 * SCALE], vec![4 * SCALE]),
        (vec![-SCALE], vec![-2 * SCALE]),
    ];
    let before = {
        let mse = neural_net::loss_functions::MeanSquaredError;
        mse.calculate_loss(&nn.forward(&data[0].0).unwrap(), &data[0].1).unwrap()
    };
    let summary = nn.train(&data, 50, false).unwrap();
    assert_eq!(summary.epochs_run, 50);
    assert!(!summary.cancelled);
    let after = {
        let mse = neural_net::loss_functions::MeanSquaredError;
        mse.calculate_loss(&nn.forward(&data[0].0).unwrap(), &data[0].1).unwrap()
    };
    assert!(after < before);
    assert!(summary.final_average_loss < before);
}

#[test]
fn train_with_shuffle_still_trains() {
    let mut nn = NeuralNetwork::new();
    nn.set_seed(11);
    nn.add_input_layer(1).unwrap();
    nn.add_output_layer(1).unwrap();
    nn.finalize().unwrap();
    nn.set_optimizer(SGD::new(50_000).unwrap());
    let data = vec![
        (vec![SCALE], vec![SCALE / 2]),
        (vec![2 * SCALE], vec![SCALE]),
        (vec![4 * SCALE], vec![2 * SCALE]),
    ];
    let summary = nn.train(&data, 20, true).unwrap();
    assert_eq!(summary.epochs_run, 20);
    assert!(summary.final_average_loss >= 0);
}

#[test]
fn layer_accessors_report_the_structure() {
    let mut nn = NeuralNetwork::new();
    nn.add_input_layer(4).unwrap();
    nn.add_fully_connected_layer(3).unwrap();
    nn.add_output_layer(2).unwrap();
    assert_eq!(nn.layer_count(), 3);
    assert_eq!(nn.layer_size(0), Ok(4));
    assert_eq!(nn.layer_size(1), Ok(3));
    assert_eq!(nn.layer_size(2), Ok(2));
    assert_eq!(nn.layer_size(3), Err(NetworkError::ConfigurationError));
    nn.finalize().unwrap();
    let w = nn.get_weights(2).unwrap();
    assert_eq!(w.len(), 2);
    assert_eq!(w[0].len(), 3);
    assert_eq!(nn.get_biases(1).unwrap().len(), 3);
}

#[test]
fn set_weights_checks_shape_and_state() {
    let mut nn = NeuralNetwork::new();
    nn.add_input_layer(2).unwrap();
    nn.add_output_layer(1).unwrap();
    assert_eq!(
        nn.set_weights(1, vec![vec![0, 0]]),
        Err(NetworkError::NotInitialized)
    );
    nn.finalize().unwrap();
    assert_eq!(
        nn.set_weights(1, vec![vec![0, 0], vec![0, 0]]),
        Err(NetworkError::DimensionMismatch)
    );
    assert_eq!(
        nn.set_weights(1, vec![vec![0]]),
        Err(NetworkError::DimensionMismatch)
    );
    assert_eq!(
        nn.set_weights(0, vec![]),
        Err(NetworkError::ConfigurationError)
    );
    assert_eq!(nn.set_weights(1, vec![vec![7, -7]]), Ok(()));
    assert_eq!(nn.get_weights(1).unwrap(), vec![vec![7, -7]]);
    assert_eq!(
        nn.set_biases(1, vec![1, 2]),
        Err(NetworkError::DimensionMismatch)
    );
    assert_eq!(nn.set_biases(1, vec![9]), Ok(()));
    assert_eq!(nn.get_biases(1).unwrap(), vec![9]);
}

#[test]
fn deeper_network_forward_is_exact() {
    // Input(2) -> FullyConnected(2, linear) -> Output(1, linear), fixed weights
    let mut nn = NeuralNetwork::new();
    nn.add_input_layer(2).unwrap();
    nn.add_fully_connected_layer(2).unwrap();
    nn.add_output_layer(1).unwrap();
    nn.set_activation_function(1, Some(ActivationFunction::Linear)).unwrap();
    nn.set_activation_function(2, Some(ActivationFunction::Linear)).unwrap();
    nn.finalize().unwrap();
    // hidden: h0 = x0 + x1, h1 = x0 - x1 ; output: h0 + 2*h1 + 0.25
    nn.set_weights(1, vec![vec![SCALE, SCALE], vec![SCALE, -SCALE]]).unwrap();
    nn.set_biases(1, vec![0, 0]).unwrap();
    nn.set_weights(2, vec![vec![SCALE, 2 * SCALE]]).unwrap();
    nn.set_biases(2, vec![250_000]).unwrap();
    // x = (1.5, 0.5): h = (2.0, 1.0); out = 2 + 2 + 0.25 = 4.25
    let out = nn.forward(&vec![1_500_000, 500_000]).unwrap();
    assert_eq!(out, vec![4_250_000]);
}

#[test]
fn train_with_no_work_returns_a_clean_summary() {
    let mut nn = NeuralNetwork::new();
    nn.add_input_layer(1).unwrap();
    nn.add_output_layer(1).unwrap();
    nn.finalize().unwrap();
    let w = nn.get_weights(1).unwrap();
    let empty: Vec<(Vec<i64>, Vec<i64>)> = Vec::new();
    let s = nn.train(&empty, 5, true).unwrap();
    assert_eq!(s.epochs_run, 5);
    assert_eq!(s.final_average_loss, 0);
    assert!(!s.cancelled);
    let data = vec![(vec![SCALE], vec![SCALE])];
    let s2 = nn.train(&data, 0, false).unwrap();
    assert_eq!(s2.epochs_run, 0);
    assert_eq!(s2.final_average_loss, 0);
    // neither call touched the parameters
    assert_eq!(nn.get_weights(1).unwrap(), w);
}

#[test]
fn train_aborts_on_a_bad_sample_with_its_error() {
    let mut nn = NeuralNetwork::new();
    nn.add_input_layer(1).unwrap();
    nn.add_output_layer(1).unwrap();
    nn.finalize().unwrap();
    // second sample has the wrong input width
    let data = vec![
        (vec![SCALE], vec![SCALE]),
        (vec![SCALE, SCALE], vec![SCALE]),
    ];
    assert_eq!(
        nn.train(&data, 1, false),
        Err(NetworkError::DimensionMismatch)
    );
}
