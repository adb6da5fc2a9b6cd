use neuroflow::data::{DataSet, Extractable};

#[test]
fn data_test_data_set() {
    let mut ds: DataSet = DataSet::new();
    let x = [1.3f64.to_bits(), 4.7f64.to_bits(), 3.3f64.to_bits()];
    let y = [5.0f64.to_bits(), 4.5f64.to_bits(), 3.1f64.to_bits()];
    ds.push(&x, &y);
    assert_eq!(x[0], ds.rand().0[0]);
    assert_eq!(x[0], ds.get(0).0[0]);
}

#[test]
fn test_data_test_data_set() {
    let mut ds: DataSet = DataSet::new();
    let x = [1.3f64.to_bits(), 4.7f64.to_bits(), 3.3f64.to_bits()];
    let y = [5.0f64.to_bits(), 4.5f64.to_bits(), 3.1f64.to_bits()];
    ds.push(&x, &y);
    assert_eq!(x[0], ds.rand().0[0]);
    assert_eq!(x[0], ds.get(0).0[0]);
}

fn bits2(a: f64, b: f64) -> Vec<u64> {
    vec![a.to_bits(), b.to_bits()]
}

fn bits1(a: f64) -> Vec<u64> {
    vec![a.to_bits()]
}

#[test]
fn test_division() {
    let mut data = DataSet::new();
    data.push(&bits2(0.54878, 0.124578), &bits1(0.12357));
    data.push(&bits2(1.9879849, 0.45646546), &bits1(1.98798745));
    data.push(&bits2(0.78798789, 1.9798798), &bits1(1.3248778));
    data.push(&bits2(1.98798798, 1.98789456), &bits1(0.97878945));
    data.push(&bits2(1.98798798, 1.98789456), &bits1(0.97878945));
    data.push(&bits2(1.98798798, 1.98789456), &bits1(0.97878945));
    data.push(&bits2(1.98798798, 1.98789456), &bits1(0.97878945));
    data.push(&bits2(1.98798798, 1.98789456), &bits1(0.97878945));
    data.push(&bits2(1.98798798, 1.98789456), &bits1(0.97878945));
    data.push(&bits2(1.98798798, 1.98789456), &bits1(0.97878945));

    let amount = ((data.len() + data.tx.len()) as f64 * 0.1) as usize;
    data.divide(amount);
    assert_eq!(data.len(), 9);

    let amount = ((data.len() + data.tx.len()) as f64 * 0.1) as usize;
    data.divide(amount);
    assert_eq!(data.len(), 9);
}

#[test]
fn divide_keeps_every_pair() {
    let mut data = DataSet::new();
    for i in 0..5u64 {
        data.push(&[i], &[100 + i]);
    }
    data.divide(2);
    assert_eq!(data.len(), 3);
    assert_eq!(data.tx.len(), 2);
    let mut seen: Vec<u64> = Vec::new();
    for i in 0..data.len() {
        let (x, y) = data.get(i);
        assert_eq!(y[0], 100 + x[0]);
        seen.push(x[0]);
    }
    for i in 0..data.tx.len() {
        assert_eq!(data.ty[i][0], 100 + data.tx[i][0]);
        seen.push(data.tx[i][0]);
    }
    seen.sort();
    assert_eq!(seen, vec![0, 1, 2, 3, 4]);
}

#[test]
fn rand_draws_a_held_pair() {
    let mut data = DataSet::new();
    data.push(&[7], &[70]);
    data.push(&[9], &[90]);
    let (x, y) = data.rand();
    assert!((x[0] == 7 && y[0] == 70) || (x[0] == 9 && y[0] == 90));
}

#[test]
fn remove_shifts_the_rest() {
    let mut data = DataSet::new();
    data.push(&[1], &[10]);
    data.push(&[2], &[20]);
    data.push(&[3], &[30]);
    data.remove(1);
    assert_eq!(data.len(), 2);
    assert_eq!(data.get(0).0[0], 1);
    assert_eq!(data.get(1).0[0], 3);
    assert_eq!(data.get(1).1[0], 30);
}
