use snake_evolve::chance::Chance;
use snake_evolve::matrix::Matrix;
use snake_evolve::network::Network;
use std::cell::Cell;

fn sigmoid(v: f64) -> f64 {
    1.0 / (1.0 + (-v).exp())
}

fn counter_network(shape: Vec<usize>) -> Network<f64> {
    let next = Cell::new(-1.0f64);
    Network::new(shape, || {
        let v = next.get();
        next.set(if v + 0.25 > 1.0 { -1.0 } else { v + 0.25 });
        v
    })
}

fn all_cells(ms: &[Matrix<f64>]) -> Vec<f64> {
    let mut out = Vec::new();
    for m in ms {
        for r in 0..m.get_height() {
            out.extend_from_slice(m.row(r));
        }
    }
    out
}

fn scalars(n: &Network<f64>) -> Vec<f64> {
    let mut v = all_cells(n.get_weights());
    v.extend(all_cells(n.get_biases()));
    v
}

#[test]
fn new_builds_layers_of_the_shape() {
    let n = counter_network(vec![6, 8, 4]);
    assert_eq!(n.get_shape(), &[6, 8, 4]);
    let w = n.get_weights();
    let b = n.get_biases();
    assert_eq!((w[0].get_height(), w[0].get_width()), (6, 8));
    assert_eq!((w[1].get_height(), w[1].get_width()), (8, 4));
    assert_eq!((b[0].get_height(), b[0].get_width()), (1, 8));
    assert_eq!((b[1].get_height(), b[1].get_width()), (1, 4));
}

#[test]
fn evaluate_gives_one_value_per_output_in_unit_interval() {
    let n = counter_network(vec![6, 8, 8, 4]);
    let out = n
        .evaluate(&vec![1.0, -2.0, 0.5, 3.0, 0.0, -1.0], |a, b| a * b, |a, b| a + b, sigmoid);
    assert_eq!(out.len(), 4);
    assert!(out.iter().all(|&v| v > 0.0 && v < 1.0));
}

#[test]
fn evaluate_exact_value_of_one_neuron() {
    let n = Network::new(vec![2, 1], || 1.0f64);
    let out = n.evaluate(&vec![0.5, -2.5], |a, b| a * b, |a, b| a + b, sigmoid);
    // 0.5 + (-2.5) + 1.0 == -1.0
    assert_eq!(out, vec![sigmoid(-1.0)]);
}

#[test]
fn merge_with_itself_is_identity() {
    let n = counter_network(vec![3, 4, 2]);
    let m = n.merge(&n.clone());
    assert_eq!(m.get_shape(), n.get_shape());
    assert_eq!(scalars(&m), scalars(&n));
}

#[test]
fn merge_takes_each_scalar_from_a_parent() {
    let a = Network::new(vec![3, 4, 2], || 1.0f64);
    let b = Network::new(vec![3, 4, 2], || 2.0f64);
    let m = a.merge(&b);
    assert!(scalars(&m).iter().all(|&v| v == 1.0 || v == 2.0));
}

#[test]
fn mutate_with_zero_chance_is_identity() {
    let n = counter_network(vec![4, 3, 2]);
    let m = n.mutate(Chance::new(0, 10).unwrap(), |v| v + 100.0);
    assert_eq!(m.get_shape(), n.get_shape());
    assert_eq!(scalars(&m), scalars(&n));
}

#[test]
fn mutate_with_certain_chance_changes_every_scalar() {
    let n = counter_network(vec![4, 3, 2]);
    let m = n.mutate(Chance::new(7, 7).unwrap(), |v| v + 0.5);
    let before = scalars(&n);
    let after = scalars(&m);
    assert_eq!(before.len(), after.len());
    for (x, y) in before.iter().zip(after.iter()) {
        assert_eq!(*y, *x + 0.5);
    }
}

fn masks(n: &Network<f64>, weights: bool, pick: impl Fn(usize, usize, usize) -> bool) -> Vec<Matrix<bool>> {
    let layers = if weights { n.get_weights() } else { n.get_biases() };
    layers
        .iter()
        .enumerate()
        .map(|(l, m)| Matrix::new_map(m.get_height(), m.get_width(), |r, c| pick(l, r, c)))
        .collect()
}

#[test]
fn merge_by_follows_the_coins() {
    let a = Network::new(vec![2, 3, 1], || 1.0f64);
    let b = Network::new(vec![2, 3, 1], || 2.0f64);
    let wc = masks(&a, true, |l, r, c| (l + r + c) % 2 == 0);
    let bc = masks(&a, false, |_, _, c| c == 0);
    let m = a.merge_by(&b, &wc, &bc);
    let w = m.get_weights();
    assert_eq!(w[0].row(0), &[1.0, 2.0, 1.0]);
    assert_eq!(w[0].row(1), &[2.0, 1.0, 2.0]);
    assert_eq!(w[1].row(0), &[2.0]);
    assert_eq!(w[1].row(2), &[2.0]);
    assert_eq!(m.get_biases()[0].row(0), &[1.0, 2.0, 2.0]);
    assert_eq!(m.get_biases()[1].row(0), &[1.0]);
}

#[test]
fn mutate_by_perturbs_only_flipped_scalars() {
    let n = Network::new(vec![2, 2], || 1.0f64);
    let wf = masks(&n, true, |_, r, c| r == c);
    let bf = masks(&n, false, |_, _, _| false);
    let m = n.mutate_by(&wf, &bf, |v| v * 10.0);
    assert_eq!(m.get_weights()[0].row(0), &[10.0, 1.0]);
    assert_eq!(m.get_weights()[0].row(1), &[1.0, 10.0]);
    assert_eq!(m.get_biases()[0].row(0), &[1.0, 1.0]);
}

#[test]
fn new_allows_an_empty_layer() {
    let n = Network::new(vec![3, 0, 2], || 0.0f64);
    assert_eq!(n.get_shape(), &[3, 0, 2]);
    assert_eq!((n.get_weights()[0].get_height(), n.get_weights()[0].get_width()), (3, 0));
    assert_eq!((n.get_weights()[1].get_height(), n.get_weights()[1].get_width()), (0, 2));
}
