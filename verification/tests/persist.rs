use neuroflow::activators::Type;
use neuroflow::io::{self, DecodeError};
use neuroflow::FeedForward;

fn sample_net() -> FeedForward {
    let arch = vec![2usize, 2, 1];
    let weights = vec![
        vec![
            vec![0.5f64.to_bits(), (-1.25f64).to_bits(), 3.0f64.to_bits()],
            vec![0.0f64.to_bits(), 2.5f64.to_bits(), (-0.75f64).to_bits()],
        ],
        vec![vec![1.0f64.to_bits(), (-2.0f64).to_bits(), 0.125f64.to_bits()]],
    ];
    let mut nn = FeedForward::new(&arch, weights);
    nn.learning_rate(0.1f64.to_bits());
    nn.momentum(0.05f64.to_bits());
    nn.activation(Type::Sigmoid);
    nn
}

fn words_to_bytes(ws: &[u64]) -> Vec<u8> {
    let mut out = Vec::new();
    for w in ws {
        out.extend_from_slice(&w.to_le_bytes());
    }
    out
}

#[test]
fn byte_round_trip() {
    let nn = sample_net();
    let bytes = io::encode(&nn);
    let back = io::decode(&bytes).unwrap();
    assert_eq!(back.layers.len(), nn.layers.len());
    for j in 0..nn.layers.len() {
        assert_eq!(back.layers[j].w, nn.layers[j].w);
        assert_eq!(back.layers[j].v, vec![0u64; nn.layers[j].v.len()]);
        assert_eq!(back.layers[j].y, vec![0u64; nn.layers[j].y.len()]);
        assert_eq!(back.layers[j].delta, vec![0u64; nn.layers[j].delta.len()]);
        assert_eq!(back.layers[j].prev_delta, vec![0u64; nn.layers[j].prev_delta.len()]);
    }
    assert_eq!(back.learn_rate, nn.learn_rate);
    assert_eq!(back.momentum, nn.momentum);
    assert_eq!(back.act_type, Type::Sigmoid);
    assert_eq!(back.error, 0);
}

#[test]
fn encode_layout() {
    let arch = vec![1usize, 1];
    let a = 1.5f64.to_bits();
    let b = 2.0f64.to_bits();
    let d = 0.1f64.to_bits();
    let weights = vec![vec![vec![a, b]]];
    let nn = FeedForward::new(&arch, weights);
    assert_eq!(nn.learn_rate, d);
    let expected = words_to_bytes(&[1, 1, 2, a, b, d, d, 1]);
    assert_eq!(io::encode(&nn), expected);
}

#[test]
fn decode_rejects_truncated() {
    let nn = sample_net();
    let mut bytes = io::encode(&nn);
    bytes.pop();
    assert!(io::decode(&bytes).is_err());

    let mut short = io::encode(&nn);
    short.truncate(short.len() - 8);
    match io::decode(&short) {
        Err(DecodeError::Truncated) => {}
        other => panic!("expected a truncation report, got {:?}", other.map(|_| ())),
    }

    assert!(io::decode(&Vec::new()).is_err());
}

#[test]
fn decode_rejects_trailing_bytes() {
    let nn = sample_net();
    let mut bytes = io::encode(&nn);
    bytes.extend_from_slice(&0u64.to_le_bytes());
    assert!(io::decode(&bytes).is_err());
}

#[test]
fn decode_rejects_malformed() {
    // no layers announced
    assert!(io::decode(&words_to_bytes(&[0, 0, 0, 1])).is_err());
    // a layer of zero neurons
    assert!(io::decode(&words_to_bytes(&[1, 0, 2, 0, 0, 1])).is_err());
    // rows too narrow for a bias and an input
    assert!(io::decode(&words_to_bytes(&[1, 1, 1, 5, 0, 0, 1])).is_err());
    // second layer not wired to the first: width 4 after 1 neuron
    assert!(
        io::decode(&words_to_bytes(&[2, 1, 2, 5, 6, 1, 4, 7, 8, 9, 10, 0, 0, 1])).is_err()
    );
    // activation code out of range
    match io::decode(&words_to_bytes(&[1, 1, 2, 5, 6, 0, 0, 9])) {
        Err(DecodeError::Malformed) => {}
        other => panic!("expected a malformation report, got {:?}", other.map(|_| ())),
    }
}

#[test]
fn decode_accepts_a_minimal_stream() {
    let net = io::decode(&words_to_bytes(&[1, 1, 2, 5, 6, 7, 8, 2])).unwrap();
    assert_eq!(net.layers.len(), 1);
    assert_eq!(net.layers[0].w, vec![vec![5u64, 6u64]]);
    assert_eq!(net.learn_rate, 7);
    assert_eq!(net.momentum, 8);
    assert_eq!(net.act_type, Type::Relu);
    assert_eq!(net.error, 0);
}

#[test]
fn saving_to_json() {
    let nn = sample_net();
    let s = io::to_json(&nn);
    assert!(s.starts_with('['));
    assert!(s.ends_with(']'));
    let back = io::from_json(&s).unwrap();
    for j in 0..nn.layers.len() {
        assert_eq!(back.layers[j].w, nn.layers[j].w);
    }
    assert_eq!(back.learn_rate, nn.learn_rate);
    assert_eq!(back.momentum, nn.momentum);
    assert_eq!(back.act_type, Type::Sigmoid);
}

#[test]
fn json_exact_text() {
    let arch = vec![1usize, 1];
    let a = 1.5f64.to_bits();
    let b = 2.0f64.to_bits();
    let d = 0.1f64.to_bits();
    let weights = vec![vec![vec![a, b]]];
    let mut nn = FeedForward::new(&arch, weights);
    assert_eq!(io::to_json(&nn), format!("[1,1,2,{},{},{},{},1]", a, b, d, d));

    nn.learning_rate(0);
    nn.momentum(0);
    assert_eq!(io::to_json(&nn), format!("[1,1,2,{},{},0,0,1]", a, b));
}

#[test]
fn from_json_rejects_bad_text() {
    assert!(io::from_json("").is_err());
    assert!(io::from_json("[").is_err());
    assert!(io::from_json("[]").is_err());
    assert!(io::from_json("{\"layers\":1}").is_err());
    assert!(io::from_json("[1,2,]").is_err());
    assert!(io::from_json("[,1]").is_err());
    assert!(io::from_json("[01,1,2,5,6,0,0,1]").is_err());
    assert!(io::from_json("[1, 1,2,5,6,0,0,1]").is_err());
    assert!(io::from_json("[18446744073709551616]").is_err());
    assert!(io::from_json("[1,1,2,5,6,0,0,1]x").is_err());
}

#[test]
fn from_json_reads_words() {
    let net = io::from_json("[1,1,2,5,6,0,0,1]").unwrap();
    assert_eq!(net.layers[0].w, vec![vec![5u64, 6u64]]);
    assert_eq!(net.act_type, Type::Tanh);
    // the largest word is still readable
    let top = u64::MAX;
    let s = format!("[1,1,2,{},6,0,0,1]", top);
    let net = io::from_json(&s).unwrap();
    assert_eq!(net.layers[0].w[0][0], top);
    // numbers parse but the shape is not a network
    assert!(io::from_json("[1,1,2,5,6,0,0,9]").is_err());
    assert!(io::from_json("[7]").is_err());
}
