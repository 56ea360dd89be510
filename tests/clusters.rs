use sic_core::coherence::SupportGraph;

fn graph(rows: Vec<Vec<bool>>) -> SupportGraph {
    SupportGraph::from_rows(rows).expect("square and symmetric")
}

/// Distance over the union of keys; a key on one side only counts its value.
fn distance(a: &[(&str, f64)], b: &[(&str, f64)]) -> f64 {
    let mut sum = 0.0;
    for (k, v) in a {
        let other = b.iter().find(|(kb, _)| kb == k).map(|(_, vb)| *vb).unwrap_or(0.0);
        sum += (v - other) * (v - other);
    }
    for (k, v) in b {
        if !a.iter().any(|(ka, _)| ka == k) {
            sum += v * v;
        }
    }
    f64::sqrt(sum)
}

#[test]
fn nine_reference_contexts_form_three_clusters() {
    let contexts: Vec<Vec<(&str, f64)>> = vec![
        vec![("temperature", 20.0)],
        vec![("temperature", 22.0)],
        vec![("temperature", 21.0)],
        vec![("temperature", 23.0)],
        vec![("energy", 100.0)],
        vec![("energy", 102.0)],
        vec![("energy", 101.0)],
        vec![("density", 50.0)],
        vec![("density", 52.0)],
    ];
    let epsilon = 0.1;
    let n = contexts.len();
    let mut rows = vec![vec![false; n]; n];
    for i in 0..n {
        for j in 0..n {
            let d = distance(&contexts[i], &contexts[j]);
            let mut coh = if i == j { 1.0 } else { f64::exp(-d * d / 25.0) };
            if i != j && coh < epsilon {
                coh = 0.0;
            }
            rows[i][j] = coh > 0.0;
        }
    }
    let g = graph(rows.clone());
    assert_eq!(g.num_clusters(), 3);
    assert_eq!(g.find_clusters(), vec![0, 0, 0, 0, 1, 1, 1, 2, 2]);
    for block in [0..4usize, 4..7, 7..9] {
        for i in block.clone() {
            for j in block.clone() {
                assert!(rows[i][j]);
            }
        }
    }
    assert!(!rows[0][4] && !rows[0][7] && !rows[4][7]);
}

#[test]
fn empty_pattern_has_no_clusters() {
    let g = graph(vec![]);
    assert_eq!(g.size(), 0);
    assert_eq!(g.find_clusters(), Vec::<usize>::new());
    assert_eq!(g.num_clusters(), 0);
}

#[test]
fn isolated_nodes_are_singleton_clusters() {
    let g = graph(vec![vec![true, false, false], vec![false, true, false], vec![false, false, true]]);
    assert_eq!(g.find_clusters(), vec![0, 1, 2]);
    assert_eq!(g.num_clusters(), 3);
}

#[test]
fn alternate_path_joins_a_zero_cell() {
    // 0 - 1 - 2, with no direct cell between 0 and 2.
    let g = graph(vec![vec![true, true, false], vec![true, true, true], vec![false, true, true]]);
    assert_eq!(g.find_clusters(), vec![0, 0, 0]);
    assert_eq!(g.num_clusters(), 1);
}

#[test]
fn labels_follow_the_lowest_index() {
    // Clusters {0, 3} and {1, 2}, and node 4 alone.
    let t = true;
    let f = false;
    let g = graph(vec![
        vec![t, f, f, t, f],
        vec![f, t, t, f, f],
        vec![f, t, t, f, f],
        vec![t, f, f, t, f],
        vec![f, f, f, f, t],
    ]);
    assert_eq!(g.find_clusters(), vec![0, 1, 1, 0, 2]);
    assert_eq!(g.num_clusters(), 3);
}

#[test]
fn zero_diagonal_does_not_matter() {
    let g = graph(vec![vec![false, true], vec![true, false]]);
    assert_eq!(g.find_clusters(), vec![0, 0]);
}

#[test]
fn asymmetric_pattern_is_rejected() {
    assert!(SupportGraph::from_rows(vec![vec![true, true], vec![false, true]]).is_none());
}

#[test]
fn ragged_pattern_is_rejected() {
    assert!(SupportGraph::from_rows(vec![vec![true, false], vec![false]]).is_none());
    assert!(SupportGraph::from_rows(vec![vec![true, false, false]]).is_none());
}
