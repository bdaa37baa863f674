use tensornet::activations::Activation;
use tensornet::cpu_tensor_network::{CPUTensorNetwork, Layer};
use tensornet::error::TensorError;
use tensornet::loss::{LossFunction, MSE};
use tensornet::tensor::Tensor;

fn sigmoid(x: f64) -> f64 {
    1.0 / (1.0 + (-x).exp())
}

fn sigmoid_slope(y: f64) -> f64 {
    y * (1.0 - y)
}

type Act = Activation<fn(f64) -> f64, fn(f64) -> f64>;

const SIGMOID: Act = Activation { function: sigmoid, derivative: sigmoid_slope, name: "Sigmoid" };

fn t(shape: Vec<usize>, data: Vec<f64>) -> Tensor<f64> {
    Tensor::from(shape, data).unwrap()
}

fn small_network() -> CPUTensorNetwork<f64, Act> {
    let mut net = CPUTensorNetwork::new(2);
    net.add_tensor_layer(2, SIGMOID);
    net.add_tensor_layer(2, SIGMOID);
    net.set_layer_parameters(
        1,
        t(vec![2, 2], vec![0.5, -0.3, 0.2, 0.8]),
        t(vec![2], vec![0.1, -0.1]),
    )
    .unwrap();
    net.set_layer_parameters(
        2,
        t(vec![2, 2], vec![0.4, -0.6, 0.7, 0.1]),
        t(vec![2], vec![0.0, 0.2]),
    )
    .unwrap();
    net
}

#[test]
fn mse_of_unit_residuals_is_one() {
    let predicted = t(vec![2], vec![1.0, 1.0]);
    let actual = t(vec![2], vec![0.0, 0.0]);
    assert_eq!(MSE.value(&predicted, &actual), Ok(1.0));
}

#[test]
fn mse_is_the_mean_of_squares() {
    let predicted = t(vec![2, 2], vec![1.0, 2.0, 3.0, 4.0]);
    let actual = t(vec![2, 2], vec![0.0, 0.0, 0.0, 8.0]);
    assert_eq!(LossFunction::MeanSquaredError.value(&predicted, &actual), Ok(7.5));
    assert_eq!(MSE.name(), "Mean Squared Error");
}

#[test]
fn mse_rejects_other_shapes() {
    let predicted = t(vec![2], vec![1.0, 1.0]);
    let actual = t(vec![2, 1], vec![0.0, 0.0]);
    assert_eq!(
        MSE.value(&predicted, &actual),
        Err(TensorError::ShapeMismatch { left: vec![2], right: vec![2, 1] })
    );
}

#[test]
fn mse_gradient_uses_slope_residual_and_two() {
    let predicted = t(vec![2, 1], vec![0.5, 0.25]);
    let actual = t(vec![2, 1], vec![1.0, 0.0]);
    let g = MSE.derivative(&predicted, &actual, &SIGMOID).unwrap();
    assert_eq!(g.shape(), &vec![2, 1]);
    // slope y(1-y): 0.25 and 0.1875; residuals -0.5 and 0.25
    assert_eq!(g.return_vector(), vec![0.25 * -0.5 * 2.0, 0.1875 * 0.25 * 2.0]);
    let slope = t(vec![2, 1], vec![3.0, 1.0]);
    let h = MSE.gradient_from_slopes(&predicted, &actual, &slope).unwrap();
    assert_eq!(h.return_vector(), vec![-3.0, 0.5]);
}

#[test]
fn zero_parameters_give_half_everywhere() {
    let mut net: CPUTensorNetwork<f64, Act> = CPUTensorNetwork::new(2);
    net.add_tensor_layer(2, SIGMOID);
    let out = net.feed_forward(t(vec![2, 1], vec![1.0, 0.0])).unwrap();
    assert_eq!(out.shape(), &vec![2, 1]);
    assert_eq!(out.return_vector(), vec![0.5, 0.5]);
}

#[test]
fn forward_multiplies_adds_and_activates() {
    let mut net: CPUTensorNetwork<f64, Act> = CPUTensorNetwork::new(3);
    net.add_tensor_layer(2, SIGMOID);
    net.set_layer_parameters(
        1,
        t(vec![2, 3], vec![1.0, 2.0, 3.0, -1.0, 0.0, 1.0]),
        t(vec![2], vec![0.5, -0.5]),
    )
    .unwrap();
    let out = net.feed_forward(t(vec![3, 1], vec![1.0, 1.0, 1.0])).unwrap();
    assert_eq!(out.return_vector(), vec![sigmoid(6.5), sigmoid(-0.5)]);
    match &net.layers()[1] {
        Layer::TensorLayer { result, .. } => {
            assert_eq!(result.return_vector(), out.return_vector())
        }
        Layer::InputLayer { .. } => panic!("expected a dense layer"),
    }
}

#[test]
fn forward_rejects_wrong_input_size() {
    let mut net = small_network();
    let r = net.feed_forward(t(vec![3, 1], vec![1.0, 0.0, 0.0]));
    assert_eq!(
        r.unwrap_err(),
        TensorError::ShapeMismatch { left: vec![3, 1], right: vec![2, 1] }
    );
}

#[test]
fn weights_follow_layer_sizes() {
    let mut net: CPUTensorNetwork<f64, Act> = CPUTensorNetwork::new(2);
    net.add_tensor_layer(3, SIGMOID);
    net.add_tensor_layer(1, SIGMOID);
    assert_eq!(net.input_size(), 2);
    assert_eq!(net.output_size(), 1);
    match &net.layers()[2] {
        Layer::TensorLayer { weights, biases, .. } => {
            assert_eq!(weights.shape(), &vec![1, 3]);
            assert_eq!(biases.shape(), &vec![1]);
        }
        Layer::InputLayer { .. } => panic!("expected a dense layer"),
    }
    let out = net.feed_forward(t(vec![2, 1], vec![0.3, 0.7])).unwrap();
    assert_eq!(out.shape(), &vec![1, 1]);
}

#[test]
fn set_parameters_checks_topology() {
    let mut net = small_network();
    assert_eq!(
        net.set_layer_parameters(0, t(vec![2, 2], vec![0.0; 4]), t(vec![2], vec![0.0; 2])),
        Err(TensorError::TopologyMismatch)
    );
    assert_eq!(
        net.set_layer_parameters(3, t(vec![2, 2], vec![0.0; 4]), t(vec![2], vec![0.0; 2])),
        Err(TensorError::TopologyMismatch)
    );
    assert_eq!(
        net.set_layer_parameters(1, t(vec![2, 3], vec![0.0; 6]), t(vec![2], vec![0.0; 2])),
        Err(TensorError::TopologyMismatch)
    );
    assert_eq!(
        net.set_layer_parameters(1, t(vec![2, 2], vec![0.0; 4]), t(vec![2, 1], vec![0.0; 2])),
        Err(TensorError::TopologyMismatch)
    );
}

#[test]
fn backprop_without_dense_layer_is_invalid() {
    let mut net: CPUTensorNetwork<f64, Act> = CPUTensorNetwork::new(2);
    let input = t(vec![2, 1], vec![1.0, 0.0]);
    let r = net.back_propogate(&input, t(vec![2, 1], vec![0.0, 1.0]), 0.1);
    assert_eq!(r, Err(TensorError::InvalidNetworkState));
}

#[test]
fn backprop_rejects_wrong_target_shape() {
    let mut net = small_network();
    let input = t(vec![2, 1], vec![1.0, 0.0]);
    let r = net.back_propogate(&input, t(vec![3, 1], vec![0.0, 1.0, 0.0]), 0.1);
    assert_eq!(
        r,
        Err(TensorError::ShapeMismatch { left: vec![2, 1], right: vec![3, 1] })
    );
}

#[test]
fn one_step_updates_the_output_layer() {
    let mut net: CPUTensorNetwork<f64, Act> = CPUTensorNetwork::new(2);
    net.add_tensor_layer(2, SIGMOID);
    let input = t(vec![2, 1], vec![1.0, 0.0]);
    let target = t(vec![2, 1], vec![1.0, 0.0]);
    net.back_propogate(&input, target, 1.0).unwrap();
    assert_eq!(net.parameters().1[0].len(), 2);
    // output 0.5 everywhere; gradient 0.25 * (0.5 - target) * 2
    match &net.layers()[1] {
        Layer::TensorLayer { weights, biases, .. } => {
            assert_eq!(biases.return_vector(), vec![0.25, -0.25]);
            assert_eq!(weights.return_vector(), vec![0.25, 0.0, -0.25, 0.0]);
        }
        Layer::InputLayer { .. } => panic!("expected a dense layer"),
    }
}

#[test]
fn training_lowers_the_loss() {
    let mut net = small_network();
    let input = t(vec![2, 1], vec![1.0, 0.0]);
    let target = t(vec![2, 1], vec![0.0, 1.0]);
    let mut losses = Vec::new();
    let start = net.feed_forward(input.clone()).unwrap();
    losses.push(MSE.value(&start, &target).unwrap());
    for epochs in [10usize, 90, 900] {
        net.train(input.clone(), target.clone(), epochs, 0.5).unwrap();
        let out = net.feed_forward(input.clone()).unwrap();
        losses.push(MSE.value(&out, &target).unwrap());
    }
    for w in losses.windows(2) {
        assert!(w[1] <= w[0] + 1e-12, "loss went up: {:?}", losses);
    }
    assert!(losses[3] < losses[0] / 10.0, "loss did not fall enough: {:?}", losses);
}

#[test]
fn zero_epochs_change_nothing() {
    let mut net = small_network();
    let input = t(vec![2, 1], vec![1.0, 0.0]);
    let before = net.feed_forward(input.clone()).unwrap();
    net.train(input.clone(), t(vec![2, 1], vec![0.0, 1.0]), 0, 0.5).unwrap();
    let after = net.feed_forward(input).unwrap();
    assert_eq!(before.return_vector(), after.return_vector());
}

#[test]
fn parameters_round_trip_through_load() {
    let net = small_network();
    let (w, b) = net.parameters();
    assert_eq!(w, vec![vec![0.5, -0.3, 0.2, 0.8], vec![0.4, -0.6, 0.7, 0.1]]);
    assert_eq!(b, vec![vec![0.1, -0.1], vec![0.0, 0.2]]);
    let mut fresh: CPUTensorNetwork<f64, Act> = CPUTensorNetwork::new(2);
    fresh.add_tensor_layer(2, SIGMOID);
    fresh.add_tensor_layer(2, SIGMOID);
    assert_eq!(fresh.load_parameters(w.clone(), b.clone()), Ok(()));
    assert_eq!(fresh.parameters(), (w, b));
    match &fresh.layers()[1] {
        Layer::TensorLayer { weights, biases, .. } => {
            assert_eq!(weights.shape(), &vec![2, 2]);
            assert_eq!(biases.shape(), &vec![2]);
        }
        Layer::InputLayer { .. } => panic!("expected a dense layer"),
    }
}

#[test]
fn load_rejects_other_topologies() {
    let mut net = small_network();
    let (w, b) = net.parameters();
    assert_eq!(
        net.load_parameters(vec![w[0].clone()], vec![b[0].clone()]),
        Err(TensorError::TopologyMismatch)
    );
    assert_eq!(
        net.load_parameters(vec![w[0].clone(), vec![1.0; 3]], b.clone()),
        Err(TensorError::TopologyMismatch)
    );
    assert_eq!(
        net.load_parameters(w.clone(), vec![b[0].clone(), vec![1.0]]),
        Err(TensorError::TopologyMismatch)
    );
    assert_eq!(net.parameters(), (w, b));
}

#[test]
fn one_step_carries_the_gradient_to_the_hidden_layer() {
    let mut net = small_network();
    let lr = 0.5;
    let x = [1.0, 0.0];
    let target = [0.0, 1.0];
    let (w, b) = net.parameters();
    let (w1, b1, w2, b2) = (w[0].clone(), b[0].clone(), w[1].clone(), b[1].clone());

    let h: Vec<f64> = (0..2)
        .map(|i| sigmoid((w1[i * 2] * x[0] + w1[i * 2 + 1] * x[1]) + b1[i]))
        .collect();
    let o: Vec<f64> = (0..2)
        .map(|i| sigmoid((w2[i * 2] * h[0] + w2[i * 2 + 1] * h[1]) + b2[i]))
        .collect();
    let d2: Vec<f64> = (0..2).map(|i| sigmoid_slope(o[i]) * (o[i] - target[i]) * 2.0).collect();
    let nb2: Vec<f64> = (0..2).map(|i| b2[i] - d2[i] * lr).collect();
    let nw2: Vec<f64> = (0..4).map(|q| w2[q] - h[q % 2] * d2[q / 2] * lr).collect();
    let back: Vec<f64> = (0..2).map(|j| nw2[j] * d2[0] + nw2[2 + j] * d2[1]).collect();
    let d1: Vec<f64> = (0..2).map(|j| back[j] * sigmoid_slope(h[j])).collect();
    let nb1: Vec<f64> = (0..2).map(|i| b1[i] - d1[i] * lr).collect();
    let nw1: Vec<f64> = (0..4).map(|q| w1[q] - x[q % 2] * d1[q / 2] * lr).collect();

    let input = t(vec![2, 1], x.to_vec());
    net.back_propogate(&input, t(vec![2, 1], target.to_vec()), lr).unwrap();
    let (w, b) = net.parameters();
    for (got, want) in [(&w[0], &nw1), (&b[0], &nb1), (&w[1], &nw2), (&b[1], &nb2)] {
        for (g, e) in got.iter().zip(want.iter()) {
            assert!((g - e).abs() < 1e-12, "{:?} vs {:?}", got, want);
        }
    }
}

#[test]
fn failed_step_keeps_the_parameters() {
    let mut net = small_network();
    let before = net.parameters();
    let input = t(vec![2, 1], vec![1.0, 0.0]);
    assert!(net.back_propogate(&input, t(vec![2], vec![0.0, 1.0]), 0.5).is_err());
    assert_eq!(net.parameters(), before);
}

#[test]
fn epochs_add_up() {
    let input = t(vec![2, 1], vec![1.0, 0.0]);
    let target = t(vec![2, 1], vec![0.0, 1.0]);
    let mut a = small_network();
    a.train(input.clone(), target.clone(), 7, 0.3).unwrap();
    a.train(input.clone(), target.clone(), 5, 0.3).unwrap();
    let mut b = small_network();
    b.train(input, target, 12, 0.3).unwrap();
    assert_eq!(a.parameters(), b.parameters());
}
