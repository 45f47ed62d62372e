use ahash::AHashMap;
use solvec_core::hnsw::HnswGraph;
use solvec_core::types::{DistanceMetric, SolVecError};

fn s(x: &str) -> String {
    x.to_string()
}

fn ids(list: &[&str]) -> Vec<String> {
    list.iter().map(|x| x.to_string()).collect()
}

fn sorted(mut v: Vec<String>) -> Vec<String> {
    v.sort();
    v
}

#[test]
fn new_graph_parameters() {
    let g = HnswGraph::new(16, 200, DistanceMetric::Cosine);
    assert_eq!(g.m(), 16);
    assert_eq!(g.m_max_0(), 16);
    assert_eq!(g.ef_construction(), 200);
    assert_eq!(g.ef_search(), 50);
    assert_eq!(g.len(), 0);
    assert!(g.is_empty());
    assert!(g.entry_point().is_none());

    let small = HnswGraph::new(1, 3, DistanceMetric::Euclidean);
    assert_eq!(small.m(), 2);
    assert_eq!(small.m_max_0(), 2);
    assert_eq!(small.ef_search(), 10);
    assert_eq!(small.metric(), DistanceMetric::Euclidean);

    let mid = HnswGraph::new(8, 30, DistanceMetric::DotProduct);
    assert_eq!(mid.ef_search(), 30);
}

#[test]
fn set_ef_search_is_at_least_one() {
    let mut g = HnswGraph::new(16, 200, DistanceMetric::Cosine);
    g.set_ef_search(0);
    assert_eq!(g.ef_search(), 1);
    g.set_ef_search(77);
    assert_eq!(g.ef_search(), 77);
}

#[test]
fn dimension_is_fixed_by_first_vector() {
    let mut g = HnswGraph::new(16, 200, DistanceMetric::Cosine);
    assert_eq!(g.dimension(), None);
    assert_eq!(g.check_dimension(3), Ok(()));
    assert_eq!(g.dimension(), Some(3));
    assert_eq!(g.check_dimension(3), Ok(()));
    assert_eq!(
        g.check_dimension(2),
        Err(SolVecError::DimensionMismatch { expected: 3, actual: 2 })
    );
}

#[test]
fn add_and_link_nodes() {
    let mut g = HnswGraph::new(16, 200, DistanceMetric::Cosine);
    g.check_dimension(3).unwrap();
    assert!(g.add_node(s("a"), 0).is_none());
    assert_eq!(g.entry_point(), Some(&s("a")));
    assert_eq!(g.entry_point_level(), 0);

    let prev = g.add_node(s("b"), 2);
    assert_eq!(prev, Some((s("a"), 0)));
    assert_eq!(g.entry_point(), Some(&s("b")));
    assert_eq!(g.entry_point_level(), 2);
    assert_eq!(g.layer_count(), 3);
    assert_eq!(g.len(), 2);
    assert!(g.contains("a") && g.contains("b") && !g.contains("c"));

    let chosen = g.select_neighbors(0, "b", &ids(&["b", "zz", "a", "a"]));
    assert_eq!(chosen, ids(&["a"]));
    g.connect(0, "b", &chosen, &vec![vec![]]);
    assert_eq!(g.neighbors(0, "b"), Some(&ids(&["a"])));
    assert_eq!(g.neighbors(0, "a"), Some(&ids(&["b"])));
    assert_eq!(g.neighbors(1, "a"), None);
    assert_eq!(g.neighbors(1, "b"), Some(&Vec::new()));
    assert_eq!(g.neighbors(5, "b"), None);

    let stats = g.stats();
    assert_eq!(stats.vector_count, 2);
    assert_eq!(stats.layer_count, 3);
    assert_eq!(stats.entry_point_level, 2);
    assert_eq!(stats.dimension, 3);
    assert_eq!(stats.total_inserts, 2);
    assert_eq!(stats.total_deletes, 0);
    assert_eq!(stats.metric, DistanceMetric::Cosine);
}

#[test]
fn lower_node_keeps_entry_point() {
    let mut g = HnswGraph::new(16, 200, DistanceMetric::Cosine);
    g.add_node(s("a"), 1);
    let prev = g.add_node(s("b"), 1);
    assert_eq!(prev, Some((s("a"), 1)));
    assert_eq!(g.entry_point(), Some(&s("a")));
    assert_eq!(g.entry_point_level(), 1);
}

#[test]
fn remove_node_strips_every_reference() {
    let mut g = HnswGraph::new(16, 200, DistanceMetric::Cosine);
    g.add_node(s("a"), 0);
    g.add_node(s("b"), 1);
    let nb = g.select_neighbors(1, "b", &ids(&["a"]));
    assert!(nb.is_empty());
    let nb0 = g.select_neighbors(0, "b", &ids(&["a"]));
    g.connect(0, "b", &nb0, &vec![vec![]]);
    g.add_node(s("c"), 0);
    let nc = g.select_neighbors(0, "c", &ids(&["b", "a"]));
    g.connect(0, "c", &nc, &vec![vec![], vec![]]);
    assert_eq!(g.neighbors(0, "a"), Some(&ids(&["b", "c"])));

    assert_eq!(g.remove_node("b"), Ok(()));
    assert_eq!(g.len(), 2);
    assert!(!g.contains("b"));
    assert_eq!(g.neighbors(0, "a"), Some(&ids(&["c"])));
    assert_eq!(g.neighbors(0, "c"), Some(&ids(&["a"])));
    // the entry point moves down to a node of the highest non-empty layer
    assert_eq!(g.entry_point_level(), 0);
    let ep = g.entry_point().unwrap().clone();
    assert!(ep == "a" || ep == "c");
    assert_eq!(g.stats().total_deletes, 1);

    assert_eq!(g.remove_node("b"), Err(SolVecError::VectorNotFound(s("b"))));
    g.remove_node("a").unwrap();
    g.remove_node("c").unwrap();
    assert!(g.is_empty());
    assert!(g.entry_point().is_none());
    assert_eq!(g.entry_point_level(), 0);
    assert_eq!(g.layer_count(), 2);
}

#[test]
fn add_then_remove_restores_layers() {
    let mut g = HnswGraph::new(2, 10, DistanceMetric::Cosine);
    g.add_node(s("a"), 0);
    g.add_node(s("b"), 0);
    let nb = g.select_neighbors(0, "b", &ids(&["a"]));
    g.connect(0, "b", &nb, &vec![vec![]]);
    let before: Vec<(Vec<String>, Vec<String>)> = vec![
        (sorted(g.layers()[0].keys().cloned().collect()), g.neighbors(0, "a").unwrap().clone()),
    ];
    g.add_node(s("x"), 0);
    let nx = g.select_neighbors(0, "x", &ids(&["a", "b"]));
    g.connect(0, "x", &nx, &vec![vec![], vec![]]);
    g.remove_node("x").unwrap();
    let after = vec![(sorted(g.layers()[0].keys().cloned().collect()), g.neighbors(0, "a").unwrap().clone())];
    assert_eq!(before, after);
}

#[test]
fn overfull_lists_keep_the_best_ranked() {
    // m = 4: every layer holds at most 4 neighbours per node.
    let mut g = HnswGraph::new(4, 10, DistanceMetric::Cosine);
    g.add_node(s("hub"), 0);
    for name in ["p", "q", "r", "t"] {
        g.add_node(s(name), 0);
        let nb = g.select_neighbors(0, name, &ids(&["hub"]));
        g.connect(0, name, &nb, &vec![vec![]]);
    }
    assert_eq!(g.neighbors(0, "hub"), Some(&ids(&["p", "q", "r", "t"])));

    g.add_node(s("new"), 0);
    let nb = g.select_neighbors(0, "new", &ids(&["hub", "p", "q", "r", "t", "hub"]));
    assert_eq!(nb, ids(&["hub", "p", "q", "r"]));
    // hub's grown list is [p, q, r, t, new]; rank t and new highest, p and q tie.
    let keys = vec![vec![5, 3, 1, 9, 9], vec![], vec![], vec![]];
    g.connect(0, "new", &nb, &keys);
    assert_eq!(g.neighbors(0, "hub"), Some(&ids(&["t", "new", "p", "q"])));
    assert_eq!(g.neighbors(0, "new"), Some(&ids(&["hub", "p", "q", "r"])));
    assert_eq!(g.neighbors(0, "p"), Some(&ids(&["hub", "new"])));
}

#[test]
fn plan_query_decisions() {
    let mut g = HnswGraph::new(16, 200, DistanceMetric::Cosine);
    assert_eq!(g.plan_query(3, 0).err(), Some(SolVecError::InvalidTopK(0)));
    assert!(g.plan_query(3, 5).unwrap().is_none());
    g.check_dimension(3).unwrap();
    g.add_node(s("a"), 1);
    assert_eq!(
        g.plan_query(2, 5).err(),
        Some(SolVecError::DimensionMismatch { expected: 3, actual: 2 })
    );
    let plan = g.plan_query(3, 5).unwrap().unwrap();
    assert_eq!(plan.entry, "a");
    assert_eq!(plan.entry_level, 1);
    assert_eq!(plan.ef, 50);
    let wide = g.plan_query(3, 80).unwrap().unwrap();
    assert_eq!(wide.ef, 80);
}

#[test]
fn rebuild_from_parts() {
    let mut g = HnswGraph::new(16, 200, DistanceMetric::Cosine);
    g.check_dimension(2).unwrap();
    g.add_node(s("a"), 0);
    g.add_node(s("b"), 1);
    let nb = g.select_neighbors(0, "b", &ids(&["a"]));
    g.connect(0, "b", &nb, &vec![vec![]]);
    let rebuilt = HnswGraph::from_parts(
        g.m(),
        g.m_max_0(),
        g.ef_construction(),
        g.ef_search(),
        g.layers().clone(),
        g.entry_point().cloned(),
        g.entry_point_level(),
        g.total_inserts(),
        g.total_deletes(),
        g.metric(),
        g.dimension(),
    )
    .unwrap();
    assert_eq!(rebuilt.len(), 2);
    assert_eq!(rebuilt.neighbors(0, "a"), Some(&ids(&["b"])));

    // A neighbour that is not in the layer is refused.
    let mut bad = g.layers().clone();
    bad[0].insert(s("a"), ids(&["ghost"]));
    assert!(HnswGraph::from_parts(16, 32, 200, 50, bad, Some(s("b")), 1, 2, 0, DistanceMetric::Cosine, Some(2)).is_none());

    // An entry point below a non-empty layer is refused.
    assert!(HnswGraph::from_parts(16, 32, 200, 50, g.layers().clone(), Some(s("a")), 0, 2, 0, DistanceMetric::Cosine, Some(2)).is_none());

    // No entry point while there are nodes is refused.
    assert!(HnswGraph::from_parts(16, 32, 200, 50, g.layers().clone(), None, 0, 2, 0, DistanceMetric::Cosine, Some(2)).is_none());

    // An empty graph.
    let empty: Vec<AHashMap<String, Vec<String>>> = Vec::new();
    let e = HnswGraph::from_parts(16, 32, 200, 50, empty, None, 0, 0, 0, DistanceMetric::Cosine, None).unwrap();
    assert!(e.is_empty());
}

#[test]
fn metric_codes() {
    assert_eq!(DistanceMetric::from_code(0), Some(DistanceMetric::Cosine));
    assert_eq!(DistanceMetric::from_code(1), Some(DistanceMetric::Euclidean));
    assert_eq!(DistanceMetric::from_code(2), Some(DistanceMetric::DotProduct));
    assert_eq!(DistanceMetric::from_code(3), None);
}
