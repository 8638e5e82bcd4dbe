//! Behavioral tests of the PageRank engine.
//!
//! The engine hands scores out as IEEE-754 binary64 bit patterns; tests turn
//! them into `f64` with `f64::from_bits` and, where an exact value is
//! expected, recompute it with the same sequence of floating-point
//! operations.

use rusty_index::Pagerank;

fn ranked_ids(pr: &Pagerank) -> Vec<String> {
    pr.nodes().iter().map(|(node, _)| node.clone()).collect::<Vec<String>>()
}

#[test]
fn test_set_damping() {
    let mut pagerank = Pagerank::new();
    pagerank.set_damping_factor(22).unwrap();

    assert_eq!(0.22, f64::from_bits(pagerank.damping_bits()))
}

#[test]
fn test_three_nodes_are_created() {
    let mut pagerank = Pagerank::new();
    pagerank.add_edge("foo".to_string(), "bar".to_string());
    pagerank.add_edge("foo".to_string(), "bat".to_string());
    assert_eq!(3, pagerank.len())
}

#[test]
fn test_only_one_node_created() {
    let mut pagerank = Pagerank::new();
    pagerank.add_edge("foo".to_string(), "foo".to_string());
    assert_eq!(1, pagerank.len())
}

#[test]
fn test_edges() {
    let mut pagerank = Pagerank::new();
    pagerank.add_edge("aaa".to_string(), "bbb".to_string());

    assert_eq!(Some(1), pagerank.get_incoming_edges("bbb".to_string()));
    assert_eq!(Some(0), pagerank.get_incoming_edges("aaa".to_string()));

    pagerank.add_edge("ccc".to_string(), "bbb".to_string());
    assert_eq!(Some(2), pagerank.get_incoming_edges("bbb".to_string()));
    assert_eq!(Some(0), pagerank.get_outgoing_edges("bbb".to_string()))
}

#[test]
fn test_score() {
    let mut pagerank = Pagerank::new();
    pagerank.add_edge("aaa".to_string(), "bbb".to_string());
    pagerank.add_edge("bbb".to_string(), "ccc".to_string());
    pagerank.add_edge("ddd".to_string(), "aaa".to_string());
    pagerank.add_edge("eee".to_string(), "ddd".to_string());

    // default score
    let score = f64::from_bits(pagerank.get_score("aaa".to_string()).expect("float"));
    assert_eq!(15_i64, (score * 100_f64) as i64);

    // the default score is shared across nodes
    assert_eq!(
        pagerank.get_score("aaa".to_string()),
        pagerank.get_score("ddd".to_string())
    );
}

#[test]
fn test_iteration() {
    let mut pagerank = Pagerank::new();
    pagerank.add_edge("aaa".to_string(), "bbb".to_string());
    pagerank.add_edge("bbb".to_string(), "ccc".to_string());
    pagerank.add_edge("ddd".to_string(), "aaa".to_string());
    pagerank.add_edge("eee".to_string(), "ddd".to_string());

    pagerank.calculate_step();
    assert_eq!(
        vec!["aaa", "bbb", "ccc", "ddd", "eee"],
        ranked_ids(&pagerank)
    );
}

#[test]
fn test_full_run() {
    let mut pagerank = Pagerank::new();
    pagerank.add_edge("aaa".to_string(), "bbb".to_string());
    pagerank.add_edge("bbb".to_string(), "aaa".to_string());
    pagerank.add_edge("ddd".to_string(), "aaa".to_string());
    pagerank.add_edge("eee".to_string(), "ddd".to_string());

    assert_eq!(16, pagerank.calculate());

    assert_eq!(vec!["aaa", "bbb", "ddd", "eee"], ranked_ids(&pagerank));
}

/// https://en.wikipedia.org/wiki/PageRank#/media/File:PageRanks-Example.svg
#[test]
fn test_pagerank_example() {
    let mut pr = Pagerank::new();
    let edges = vec![
        ("D", "A"),
        ("D", "B"),
        ("B", "C"),
        ("C", "B"),
        ("E", "B"),
        ("E", "F"),
        ("F", "B"),
        ("F", "E"),
        ("G", "B"),
        ("G", "E"),
        ("H", "B"),
        ("H", "E"),
        ("I", "B"),
        ("I", "E"),
        ("J", "E"),
        ("K", "E"),
    ];

    for (l1, l2) in edges.iter() {
        pr.add_edge(l1.to_string(), l2.to_string());
    }

    pr.calculate();

    assert_eq!(
        vec!["B", "C", "E", "F", "A", "D", "G", "H", "I", "J", "K"],
        ranked_ids(&pr)
    );
}

#[test]
fn test_default_damping_is_085() {
    let pr = Pagerank::new();
    assert_eq!(0.85, f64::from_bits(pr.damping_bits()));
}

#[test]
fn test_damping_rejected_at_100_and_above() {
    let mut pr = Pagerank::new();
    let before = pr.damping_bits();
    assert!(pr.set_damping_factor(100).is_err());
    assert!(pr.set_damping_factor(255).is_err());
    assert_eq!(before, pr.damping_bits());
    assert!(pr.set_damping_factor(0).is_ok());
    assert_eq!(0.0, f64::from_bits(pr.damping_bits()));
}

#[test]
fn test_self_loop_counts() {
    let mut pr = Pagerank::new();
    pr.add_edge("x".to_string(), "x".to_string());
    assert_eq!(1, pr.len());
    assert_eq!(Some(1), pr.get_incoming_edges("x".to_string()));
    assert_eq!(Some(1), pr.get_outgoing_edges("x".to_string()));
    assert_eq!(1, pr.len_node());
}

#[test]
fn test_node_count_distinct_endpoints() {
    let mut pr = Pagerank::new();
    assert!(pr.is_empty());
    pr.add_edge("a".to_string(), "b".to_string());
    pr.add_edge("a".to_string(), "b".to_string());
    pr.add_edge("b".to_string(), "a".to_string());
    pr.add_edge("b".to_string(), "c".to_string());
    assert!(!pr.is_empty());
    assert_eq!(3, pr.len());
    assert_eq!(4, pr.len_node());
    assert_eq!(Some(2), pr.get_incoming_edges("b".to_string()));
    assert_eq!(None, pr.get_incoming_edges("zzz".to_string()));
    assert_eq!(None, pr.get_outgoing_edges("zzz".to_string()));
    assert_eq!(None, pr.get_score("zzz".to_string()));
}

#[test]
fn test_fresh_node_score_is_one_minus_damping() {
    let mut pr = Pagerank::new();
    pr.add_edge("a".to_string(), "b".to_string());
    let expected = 1.0_f64 - 0.85_f64;
    assert_eq!(
        expected,
        f64::from_bits(pr.get_score("a".to_string()).unwrap())
    );

    // a later damping change applies only to nodes created after it
    pr.set_damping_factor(40).unwrap();
    pr.add_edge("c".to_string(), "d".to_string());
    let later = 1.0_f64 - (40.0_f64 / 100.0_f64);
    assert_eq!(expected, f64::from_bits(pr.get_score("a".to_string()).unwrap()));
    assert_eq!(later, f64::from_bits(pr.get_score("c".to_string()).unwrap()));
}

#[test]
fn test_step_scores_and_metric_exactly() {
    let mut pr = Pagerank::new();
    pr.add_edge("aaa".to_string(), "bbb".to_string());

    let metric = pr.calculate_step();

    // mirror the sweep with hardware floating point, operation by operation
    let base = 1.0_f64 - 0.85_f64;
    let new_aaa = base + 0.85_f64 * 0.0_f64;
    let new_bbb = base + 0.85_f64 * (0.0_f64 + base / 1.0_f64);
    let d_aaa = base - new_aaa;
    let d_bbb = base - new_bbb;
    let sum = (0.0_f64 + d_aaa * d_aaa) + d_bbb * d_bbb;
    let expected_metric = sum.sqrt() / 1.0_f64;

    assert_eq!(
        new_aaa,
        f64::from_bits(pr.get_score("aaa".to_string()).unwrap())
    );
    assert_eq!(
        new_bbb,
        f64::from_bits(pr.get_score("bbb".to_string()).unwrap())
    );
    assert_eq!(expected_metric, f64::from_bits(metric));
}

#[test]
fn test_metric_not_negative() {
    let mut pr = Pagerank::new();
    pr.add_edge("a".to_string(), "b".to_string());
    pr.add_edge("b".to_string(), "c".to_string());
    pr.add_edge("c".to_string(), "a".to_string());
    for _ in 0..50 {
        let m = f64::from_bits(pr.calculate_step());
        assert!(m >= 0.0);
    }
}

#[test]
fn test_pagerank_example_iteration_count() {
    let mut pr = Pagerank::new();
    let edges = vec![
        ("D", "A"),
        ("D", "B"),
        ("B", "C"),
        ("C", "B"),
        ("E", "B"),
        ("E", "F"),
        ("F", "B"),
        ("F", "E"),
        ("G", "B"),
        ("G", "E"),
        ("H", "B"),
        ("H", "E"),
        ("I", "B"),
        ("I", "E"),
        ("J", "E"),
        ("K", "E"),
    ];
    for (l1, l2) in edges.iter() {
        pr.add_edge(l1.to_string(), l2.to_string());
    }
    assert_eq!(18, pr.calculate());
}

#[test]
fn test_ranked_nodes_idempotent() {
    let mut pr = Pagerank::new();
    pr.add_edge("a".to_string(), "b".to_string());
    pr.add_edge("c".to_string(), "b".to_string());
    pr.add_edge("b".to_string(), "c".to_string());
    pr.calculate_step();
    let first = pr.nodes();
    let second = pr.nodes();
    assert_eq!(first, second);
}

#[test]
fn test_ranked_ties_keep_creation_order() {
    let mut pr = Pagerank::new();
    // all nodes keep the initial score: every score ties
    pr.add_edge("m".to_string(), "n".to_string());
    pr.add_edge("o".to_string(), "p".to_string());
    assert_eq!(vec!["m", "n", "o", "p"], ranked_ids(&pr));
}

#[test]
fn test_step_on_empty_graph_gives_nan_metric() {
    // sqrt(0)/0: the metric of an empty graph is NaN, so no threshold is
    // ever reached — the liveness hazard of an unreachable threshold
    let mut pr = Pagerank::new();
    let m = pr.calculate_step();
    assert!(f64::from_bits(m).is_nan());
    assert!(pr.is_empty());
}

#[test]
fn test_run_until_custom_threshold() {
    let mut pr = Pagerank::new();
    pr.add_edge("a".to_string(), "b".to_string());
    pr.add_edge("b".to_string(), "a".to_string());
    // a threshold of one is met by the very first sweep
    let one = 1.0_f64.to_bits();
    assert_eq!(0, pr.calculate_with_convergence(one));
}
