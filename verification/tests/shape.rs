use neuroflow::activators::{self, Type};
use neuroflow::estimators;
use neuroflow::network::Field;
use neuroflow::FeedForward;

fn rows(n: usize, m: usize, v: f64) -> Vec<Vec<u64>> {
    vec![vec![v.to_bits(); m]; n]
}

#[test]
fn architecture_shapes() {
    let arch = vec![2usize, 2, 1];
    let weights = vec![rows(2, 3, 0.5), rows(1, 3, -0.25)];
    let nn = FeedForward::new(&arch, weights);
    assert_eq!(nn.layers.len(), 2);
    assert_eq!(nn.input_len(), 2);
    assert_eq!(nn.output_len(), 1);
    assert_eq!(nn.layers[0].v.len(), 2);
    assert_eq!(nn.layers[0].y.len(), 2);
    assert_eq!(nn.layers[0].delta.len(), 2);
    assert_eq!(nn.layers[0].prev_delta.len(), 2);
    assert_eq!(nn.layers[0].w[0].len(), 3);
    assert_eq!(nn.layers[0].w[0][0], 0.5f64.to_bits());
    assert_eq!(nn.layers[1].w[0][2], (-0.25f64).to_bits());
    assert_eq!(nn.layers[0].v[0], 0);
    assert_eq!(nn.get_error(), 0);
    assert_eq!(nn.act_type, Type::Tanh);
}

#[test]
fn binding() {
    let arch = vec![6usize, 4, 4, 2, 1];
    let weights = vec![rows(4, 7, 0.1), rows(4, 5, 0.2), rows(2, 5, 0.3), rows(1, 3, 0.4)];
    let mut nn = FeedForward::new(&arch, weights);

    nn.unbind(1, 0);
    assert_eq!(nn.layers[0].v.len(), 3);
    assert_eq!(nn.layers[0].w.len(), 3);

    nn.bind(1, 0, vec![0.9f64.to_bits(); 7]);
    assert_eq!(nn.layers[0].v.len(), 4);
    assert_eq!(nn.layers[0].w.len(), 4);
    assert_eq!(nn.layers[0].w[0][0], 0.9f64.to_bits());
    assert_eq!(nn.layers[0].v[0], 0);
}

#[test]
fn bind_then_unbind_restores() {
    let arch = vec![2usize, 2, 1];
    let weights = vec![rows(2, 3, 0.5), rows(1, 3, -0.25)];
    let mut nn = FeedForward::new(&arch, weights);
    let w_before = nn.layers[0].w.clone();
    let v_before = nn.layers[0].v.clone();

    nn.bind(1, 1, vec![0.7f64.to_bits(); 3]);
    assert_eq!(nn.layers[0].v.len(), 3);
    assert_eq!(nn.layers[0].w[1][0], 0.7f64.to_bits());

    nn.unbind(1, 1);
    assert_eq!(nn.layers[0].v.len(), 2);
    assert_eq!(nn.layers[0].w, w_before);
    assert_eq!(nn.layers[0].v, v_before);
}

#[test]
fn activation_selection() {
    let arch = vec![1usize, 2, 1];
    let weights = vec![rows(2, 2, 0.5), rows(1, 3, 0.5)];
    let mut nn = FeedForward::new(&arch, weights);
    assert_eq!(nn.act_type, Type::Tanh);

    nn.activation(Type::Sigmoid);
    assert_eq!(nn.act_type, Type::Sigmoid);

    nn.activation(Type::Custom);
    assert_eq!(nn.act_type, Type::Tanh);

    nn.custom_activation();
    assert_eq!(nn.act_type, Type::Custom);

    nn.activation(Type::Relu);
    assert_eq!(nn.act_type, Type::Relu);
}

#[test]
fn activation_codes() {
    assert_eq!(activators::code_of(Type::Sigmoid), 0);
    assert_eq!(activators::code_of(Type::Tanh), 1);
    assert_eq!(activators::code_of(Type::Relu), 2);
    assert_eq!(activators::code_of(Type::Custom), 3);
    assert_eq!(activators::type_of_code(0), Some(Type::Sigmoid));
    assert_eq!(activators::type_of_code(2), Some(Type::Relu));
    assert_eq!(activators::type_of_code(4), None);
    assert_eq!(activators::selected(Type::Custom), Type::Tanh);
    assert_eq!(activators::selected(Type::Relu), Type::Relu);
}

#[test]
fn hyper_parameters() {
    let arch = vec![1usize, 1];
    let weights = vec![rows(1, 2, 0.5)];
    let mut nn = FeedForward::new(&arch, weights);
    assert_eq!(f64::from_bits(nn.learn_rate), 0.1);
    assert_eq!(f64::from_bits(nn.momentum), 0.1);
    assert_eq!(nn.learn_rate, neuroflow::DEFAULT_LEARNING_RATE_BITS);
    assert_eq!(nn.momentum, neuroflow::DEFAULT_MOMENTUM_BITS);

    nn.learning_rate(0.2f64.to_bits());
    nn.momentum(0.05f64.to_bits());
    assert_eq!(f64::from_bits(nn.learn_rate), 0.2);
    assert_eq!(f64::from_bits(nn.momentum), 0.05);
}

#[test]
fn widrows() {
    let count = estimators::widrows(&vec![2u64, 1]);
    assert_eq!(count, 9);
    assert_eq!(count as f64 / 0.1, 90f64);
}

#[test]
fn widrows_longer_architecture() {
    // [3, 4, 3]: 3*4 + (4*3 + 4) + (3*4 + 3) = 12 + 16 + 15 = 43
    assert_eq!(estimators::widrows(&vec![3u64, 4, 3]), 43);
}

#[test]
fn widrows_checked_reports_overflow() {
    assert_eq!(estimators::widrows_checked(&vec![2u64, 1]), Some(9));
    assert_eq!(estimators::widrows_checked(&vec![3u64, 4, 3]), Some(43));
    assert_eq!(estimators::widrows_checked(&vec![u64::MAX]), None);
    assert_eq!(estimators::widrows_checked(&vec![1u64 << 32, 1u64 << 32]), None);
}

#[test]
fn well_formed_checks_shape() {
    let arch = vec![2usize, 2, 1];
    let weights = vec![rows(2, 3, 0.5), rows(1, 3, -0.25)];
    let mut nn = FeedForward::new(&arch, weights);
    assert!(nn.well_formed());
    // a row of the wrong width breaks the shape
    nn.layers[0].w[1] = vec![0.5f64.to_bits(); 4];
    assert!(!nn.well_formed());
}

#[test]
fn binding_suspends_the_shape_invariant() {
    let arch = vec![2usize, 2, 1];
    let weights = vec![rows(2, 3, 0.5), rows(1, 3, -0.25)];
    let mut nn = FeedForward::new(&arch, weights);
    assert!(nn.well_formed());

    // the output layer is not rewired for the extra neuron
    nn.bind(1, 0, vec![0.25f64.to_bits(); 3]);
    assert!(!nn.well_formed());

    nn.unbind(1, 0);
    assert!(nn.well_formed());
}

#[test]
fn field_variants() {
    assert_eq!(Field::Weights, Field::Weights);
    assert!(Field::Induced != Field::Deltas);
    assert_eq!(format!("{:?}", Field::Y), "Y");
}
