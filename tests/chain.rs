use markov_chain::chain::{MarkovChain, Weight};
use markov_chain::edges::{select, total_count, Edge};

const A: u64 = 1;
const B: u64 = 2;
const C: u64 = 3;
const X: u64 = 99;

fn sample_chain() -> MarkovChain {
    MarkovChain::from_sequence(&vec![A, B, A, B, A, C])
}

#[test]
fn add_node_keeps_labels_unique_and_empty() {
    let mut chain = MarkovChain::new();
    for label in [A, B, A, C, B, A] {
        chain.add_node(label);
    }
    assert_eq!(chain.len(), 3);
    let labels: Vec<u64> = chain.nodes().iter().map(|n| n.label).collect();
    assert_eq!(labels, vec![A, B, C]);
    for node in chain.nodes() {
        assert!(node.edges.is_empty());
        assert!(node.weights.is_empty());
    }
}

#[test]
fn connect_once_then_twice() {
    let mut chain = MarkovChain::new();
    chain.add_node(A);
    chain.add_node(B);
    assert_eq!(chain.edge_count(A, B), 0);
    chain.connect_node(A, B);
    assert_eq!(chain.edge_count(A, B), 1);
    chain.connect_node(A, B);
    assert_eq!(chain.edge_count(A, B), 2);
    assert_eq!(chain.edge_count(B, A), 0);
    assert!(chain.node(B).unwrap().edges.is_empty());
}

#[test]
fn connect_with_unknown_label_changes_nothing() {
    let mut chain = MarkovChain::new();
    chain.add_node(A);
    chain.add_node(B);
    chain.connect_node(A, B);
    chain.connect_node(A, X);
    chain.connect_node(X, A);
    chain.connect_node(X, X);
    assert_eq!(chain.len(), 2);
    assert_eq!(chain.node(A).unwrap().edges, vec![Edge { target: B, count: 1 }]);
    assert!(chain.node(B).unwrap().edges.is_empty());
    assert!(chain.node(X).is_none());
}

#[test]
fn sample_sequence_counts() {
    let chain = sample_chain();
    assert_eq!(chain.len(), 3);
    assert_eq!(
        chain.node(A).unwrap().edges,
        vec![Edge { target: B, count: 2 }, Edge { target: C, count: 1 }]
    );
    assert_eq!(chain.node(B).unwrap().edges, vec![Edge { target: A, count: 2 }]);
    assert!(chain.node(C).unwrap().edges.is_empty());
    assert_eq!(chain.outgoing_total(A), 3);
    assert_eq!(chain.outgoing_total(B), 2);
    assert_eq!(chain.outgoing_total(C), 0);
    assert_eq!(chain.outgoing_total(X), 0);
}

#[test]
fn sample_sequence_weights() {
    let mut chain = sample_chain();
    assert!(chain.node(A).unwrap().weights.is_empty());
    chain.normalize();
    assert_eq!(
        chain.node(A).unwrap().weights,
        vec![
            Weight { target: B, numerator: 2, denominator: 3 },
            Weight { target: C, numerator: 1, denominator: 3 }
        ]
    );
    assert_eq!(
        chain.node(B).unwrap().weights,
        vec![Weight { target: A, numerator: 2, denominator: 2 }]
    );
    assert!(chain.node(C).unwrap().weights.is_empty());
    let a: Vec<f64> = chain
        .node(A)
        .unwrap()
        .weights
        .iter()
        .map(|w| w.numerator as f64 / w.denominator as f64)
        .collect();
    assert!((a[0] - 2.0 / 3.0).abs() < 1e-9);
    assert!((a[1] - 1.0 / 3.0).abs() < 1e-9);
}

#[test]
fn normalized_probabilities_sum_to_one() {
    let mut chain = MarkovChain::from_sequence(&vec![A, B, C, A, C, C, B, A, A, B, X]);
    chain.normalize();
    for node in chain.nodes() {
        if node.edges.is_empty() {
            assert!(node.weights.is_empty());
        } else {
            let sum: f64 = node
                .weights
                .iter()
                .map(|w| w.numerator as f64 / w.denominator as f64)
                .sum();
            assert!((sum - 1.0).abs() < 1e-9);
        }
    }
}

#[test]
fn normalize_twice_is_stable() {
    let mut chain = sample_chain();
    chain.normalize();
    let first = chain.node(A).unwrap().weights.clone();
    chain.normalize();
    assert_eq!(chain.node(A).unwrap().weights, first);
}

#[test]
fn normalize_recomputes_after_new_transitions() {
    let mut chain = sample_chain();
    chain.normalize();
    chain.connect_node(C, A);
    chain.normalize();
    assert_eq!(
        chain.node(C).unwrap().weights,
        vec![Weight { target: A, numerator: 1, denominator: 1 }]
    );
}

#[test]
fn infer_one_step_from_dead_end() {
    let chain = sample_chain();
    assert_eq!(chain.infer(1, C), vec![C]);
    assert_eq!(chain.infer(10, C), vec![C]);
}

#[test]
fn infer_zero_steps_emits_nothing() {
    let chain = sample_chain();
    assert!(chain.infer(0, A).is_empty());
    assert!(chain.infer(0, X).is_empty());
    assert!(chain.infer_with_draws(0, A, &vec![]).is_empty());
}

#[test]
fn infer_unknown_start_emits_only_start() {
    let chain = sample_chain();
    assert_eq!(chain.infer(5, X), vec![X]);
    assert_eq!(chain.infer_with_draws(5, X, &vec![1, 1, 1, 1]), vec![X]);
}

#[test]
fn selection_by_cumulative_subtraction() {
    let chain = sample_chain();
    assert_eq!(chain.next_symbol(A, 1), Some(B));
    assert_eq!(chain.next_symbol(A, 2), Some(B));
    assert_eq!(chain.next_symbol(A, 3), Some(C));
    assert_eq!(chain.next_symbol(A, 4), None);
    assert_eq!(chain.next_symbol(B, 1), Some(A));
    assert_eq!(chain.next_symbol(C, 1), None);
    assert_eq!(chain.next_symbol(X, 1), None);
    let edges = vec![Edge { target: B, count: 2 }, Edge { target: C, count: 1 }];
    assert_eq!(select(&edges, 1), Some(B));
    assert_eq!(select(&edges, 3), Some(C));
    assert_eq!(select(&vec![], 1), None);
    assert_eq!(total_count(&edges), 3);
}

#[test]
fn walk_with_fixed_draws_is_reproducible() {
    let chain = sample_chain();
    let draws = vec![1, 2, 3, 1];
    let first = chain.infer_with_draws(5, A, &draws);
    assert_eq!(first, vec![A, B, A, C]);
    assert_eq!(chain.infer_with_draws(5, A, &draws), first);
    assert_eq!(chain.infer_with_draws(3, A, &draws), vec![A, B, A]);
    assert_eq!(chain.infer_with_draws(5, A, &vec![2, 1, 1, 1]), vec![A, B, A, B, A]);
}

#[test]
fn random_walks_follow_transitions() {
    let chain = sample_chain();
    let mut saw_b = false;
    let mut saw_c = false;
    for _ in 0..300 {
        let walk = chain.infer(6, A);
        assert!(!walk.is_empty() && walk.len() <= 6);
        assert_eq!(walk[0], A);
        for pair in walk.windows(2) {
            assert!(chain.edge_count(pair[0], pair[1]) > 0);
        }
        if walk.len() < 6 {
            assert_eq!(chain.outgoing_total(*walk.last().unwrap()), 0);
        }
        if walk.len() > 1 {
            if walk[1] == B {
                saw_b = true;
            }
            if walk[1] == C {
                saw_c = true;
            }
        }
    }
    assert!(saw_b && saw_c);
}
