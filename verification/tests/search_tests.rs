use solvec_core::hnsw::{capped_level, HnswGraph, MAX_LEVEL};
use solvec_core::types::{DistanceMetric, SolVecError};

// Nodes sit on a line; the key of a node for a query point is 1000 minus
// their distance, so nearer is better.
fn position(id: &str) -> Option<u32> {
    match id {
        "a" => Some(0),
        "b" => Some(10),
        "c" => Some(20),
        "d" => Some(30),
        "e" => Some(40),
        "f" => Some(50),
        "g" => Some(60),
        _ => None,
    }
}

fn key_for(point: u32) -> impl Fn(&str) -> Option<u32> {
    move |id: &str| position(id).map(|p| 1000 - p.abs_diff(point))
}

fn pair_rank(n: &str, x: &str) -> u32 {
    1000 - position(n).unwrap().abs_diff(position(x).unwrap())
}

// Builds a graph of the given nodes, each inserted at the given level.
fn build(m: usize, nodes: &[(&str, usize)]) -> HnswGraph {
    let mut g = HnswGraph::new(m, 100, DistanceMetric::Euclidean);
    for (id, level) in nodes {
        let p = position(id).unwrap();
        g.insert_node(id.to_string(), *level, &key_for(p), &pair_rank, 0);
    }
    g
}

fn ids_of(hits: &[(u32, String)]) -> Vec<&str> {
    hits.iter().map(|(_, id)| id.as_str()).collect()
}

#[test]
fn search_layer_missing_layer_is_empty() {
    let g = build(16, &[("a", 0), ("b", 0)]);
    assert!(g.search_layer(&key_for(0), "a", 5, 3, 0).is_empty());
}

#[test]
fn search_layer_unrated_entry_is_empty() {
    let g = build(16, &[("a", 0), ("b", 0)]);
    assert!(g.search_layer(&key_for(0), "zz", 5, 0, 0).is_empty());
}

#[test]
fn search_layer_ranks_every_reachable_node() {
    let g = build(16, &[("a", 0), ("b", 0), ("c", 0), ("d", 0), ("e", 0)]);
    let hits = g.search_layer(&key_for(12), "a", 10, 0, 0);
    assert_eq!(
        hits,
        vec![
            (998, "b".to_string()),
            (992, "c".to_string()),
            (988, "a".to_string()),
            (982, "d".to_string()),
            (972, "e".to_string()),
        ]
    );
}

#[test]
fn search_layer_keeps_beam_width() {
    let g = build(16, &[("a", 0), ("b", 0), ("c", 0), ("d", 0), ("e", 0)]);
    let hits = g.search_layer(&key_for(33), "a", 2, 0, 0);
    assert_eq!(hits, vec![(997, "d".to_string()), (993, "e".to_string())]);
}

#[test]
fn search_layer_with_zero_width_keeps_nothing() {
    let g = build(16, &[("a", 0), ("b", 0), ("c", 0)]);
    assert!(g.search_layer(&key_for(20), "a", 0, 0, 0).is_empty());
}

#[test]
fn search_layer_from_a_node_without_links() {
    let g = build(16, &[("a", 0), ("b", 1)]);
    // "a" has no links in layer 1 (it is not there): only the entry is scored.
    assert_eq!(g.search_layer(&key_for(0), "a", 4, 1, 0), vec![(1000, "a".to_string())]);
}

#[test]
fn search_returns_top_k_sorted() {
    let mut g = build(16, &[("a", 0), ("b", 0), ("c", 0), ("d", 0), ("e", 0), ("f", 0)]);
    g.check_dimension(1).unwrap();
    let hits = g.search(&key_for(41), 1, 3, 0).unwrap();
    assert_eq!(ids_of(&hits), vec!["e", "f", "d"]);
    assert_eq!(hits[0].0, 999);
    assert!(hits.windows(2).all(|w| w[0].0 >= w[1].0));
}

#[test]
fn search_errors_and_empty_graph() {
    let empty = HnswGraph::new(16, 100, DistanceMetric::Cosine);
    assert_eq!(empty.search(&key_for(0), 3, 5, 0), Ok(vec![]));
    let mut g = build(16, &[("a", 0), ("b", 0)]);
    assert_eq!(g.search(&key_for(0), 1, 0, 0), Err(SolVecError::InvalidTopK(0)));
    g.check_dimension(2).unwrap();
    assert_eq!(
        g.search(&key_for(0), 1, 3, 0),
        Err(SolVecError::DimensionMismatch { expected: 2, actual: 1 })
    );
}

#[test]
fn search_through_upper_layers() {
    let g = build(
        16,
        &[("a", 2), ("b", 0), ("c", 1), ("d", 0), ("e", 2), ("f", 0), ("g", 1)],
    );
    assert_eq!(g.entry_point_level(), 2);
    let hits = g.search(&key_for(58), 1, 2, 0).unwrap();
    assert_eq!(ids_of(&hits), vec!["g", "f"]);
}

#[test]
fn descend_moves_to_best_node() {
    let g = build(16, &[("a", 2), ("c", 1), ("e", 1), ("g", 0)]);
    assert_eq!(g.entry_point(), Some(&"a".to_string()));
    // Layer 2 holds only "a"; layer 1 holds a, c, e.
    assert_eq!(g.descend(&key_for(45), "a".to_string(), 2, 1, 0), "e");
    assert_eq!(g.descend(&key_for(45), "a".to_string(), 2, 2, 0), "a");
    // An empty range of layers keeps the start.
    assert_eq!(g.descend(&key_for(45), "a".to_string(), 1, 2, 0), "a");
}

#[test]
fn insert_node_links_both_ways() {
    let g = build(16, &[("a", 0), ("b", 0), ("c", 0)]);
    assert_eq!(g.len(), 3);
    for x in ["a", "b", "c"] {
        let list = g.neighbors(0, x).unwrap();
        assert_eq!(list.len(), 2);
        for y in list {
            assert!(g.neighbors(0, y).unwrap().iter().any(|z| z == x));
        }
    }
    assert_eq!(g.total_inserts(), 3);
    assert_eq!(g.entry_point(), Some(&"a".to_string()));
}

#[test]
fn insert_node_prunes_to_capacity() {
    // m = 2: at most 2 neighbours per node in every layer.
    let g = build(2, &[("a", 0), ("b", 0), ("c", 0), ("d", 0), ("e", 0), ("f", 0), ("g", 0)]);
    assert_eq!(g.len(), 7);
    for x in ["a", "b", "c", "d", "e", "f", "g"] {
        let list = g.neighbors(0, x).unwrap();
        assert!(list.len() <= 2);
        assert!(!list.iter().any(|y| y == x));
    }
    // The last node's links are returned unless the other list is full.
    for y in g.neighbors(0, "g").unwrap() {
        let back = g.neighbors(0, y).unwrap();
        assert!(back.iter().any(|z| z == "g") || back.len() == 2);
    }
    // "a" kept its two nearest: b and c.
    let mut a_list: Vec<String> = g.neighbors(0, "a").unwrap().clone();
    a_list.sort();
    assert_eq!(a_list, vec!["b", "c"]);
}

#[test]
fn insert_node_raises_entry_point() {
    let g = build(16, &[("a", 0), ("b", 3)]);
    assert_eq!(g.entry_point(), Some(&"b".to_string()));
    assert_eq!(g.entry_point_level(), 3);
    assert_eq!(g.layer_count(), 4);
    assert_eq!(g.neighbors(0, "b").unwrap(), &vec!["a".to_string()]);
    assert!(g.neighbors(1, "b").unwrap().is_empty());
}

#[test]
fn upsert_replaces_an_existing_node() {
    let mut g = build(16, &[("a", 0), ("b", 0), ("c", 0)]);
    let replaced = g.upsert_node("b".to_string(), 2, &key_for(10), &pair_rank, 0);
    assert!(replaced);
    assert_eq!(g.len(), 3);
    assert_eq!(g.total_inserts(), 4);
    assert_eq!(g.total_deletes(), 1);
    assert_eq!(g.entry_point(), Some(&"b".to_string()));
    assert!(g.neighbors(2, "b").unwrap().is_empty());
    let fresh = g.upsert_node("d".to_string(), 0, &key_for(30), &pair_rank, 0);
    assert!(!fresh);
    assert_eq!(g.len(), 4);
    assert_eq!(g.total_deletes(), 1);
}

#[test]
fn search_layer_covers_the_entry_component() {
    let mut g = HnswGraph::new(16, 100, DistanceMetric::Euclidean);
    g.add_node("a".to_string(), 0);
    g.add_node("b".to_string(), 0);
    g.add_node("c".to_string(), 0);
    g.connect(0, "b", &vec!["a".to_string()], &vec![vec![]]);
    // "c" has no links: a wide beam from "a" finds exactly "a" and "b".
    let hits = g.search_layer(&key_for(18), "a", 10, 0, 0);
    assert_eq!(hits, vec![(992, "b".to_string()), (982, "a".to_string())]);
    let from_c = g.search_layer(&key_for(18), "c", 10, 0, 0);
    assert_eq!(from_c, vec![(998, "c".to_string())]);
}

#[test]
fn search_stays_in_the_entry_component() {
    let mut g = HnswGraph::new(16, 100, DistanceMetric::Euclidean);
    g.add_node("a".to_string(), 0);
    g.add_node("b".to_string(), 0);
    g.add_node("c".to_string(), 0);
    g.connect(0, "b", &vec!["a".to_string()], &vec![vec![]]);
    g.set_ef_search(10);
    // "c" is the nearest but has no links to the entry point "a".
    let hits = g.search(&key_for(20), 1, 5, 0).unwrap();
    assert_eq!(hits, vec![(990, "b".to_string()), (980, "a".to_string())]);
    let top = g.search(&key_for(20), 1, 1, 0).unwrap();
    assert_eq!(top, vec![(990, "b".to_string())]);
}

#[test]
fn levels_are_capped() {
    assert_eq!(capped_level(0), 0);
    assert_eq!(capped_level(3), 3);
    assert_eq!(capped_level(MAX_LEVEL), MAX_LEVEL);
    assert_eq!(capped_level(usize::MAX), MAX_LEVEL);
}

#[test]
fn upsert_at_the_top_level_keeps_the_layer_bound() {
    let mut g = build(4, &[("a", 0)]);
    g.upsert_node("b".to_string(), MAX_LEVEL, &key_for(10), &pair_rank, 0);
    assert_eq!(g.layer_count(), MAX_LEVEL + 1);
    g.upsert_node("c".to_string(), capped_level(40), &key_for(20), &pair_rank, 0);
    assert_eq!(g.layer_count(), MAX_LEVEL + 1);
    g.upsert_node("b".to_string(), 3, &key_for(10), &pair_rank, 0);
    assert_eq!(g.layer_count(), MAX_LEVEL + 1);
}

#[test]
fn stats_follow_inserts_and_deletes() {
    let mut g = HnswGraph::new(4, 20, DistanceMetric::Cosine);
    for (id, level) in [("a", 0usize), ("b", 2), ("c", 1), ("d", 0)] {
        g.upsert_node(id.to_string(), level, &key_for(position(id).unwrap()), &pair_rank, 0);
    }
    g.upsert_node("c".to_string(), 3, &key_for(20), &pair_rank, 0);
    g.remove_node("a").unwrap();
    let s = g.stats();
    assert_eq!(s.vector_count, 3);
    assert_eq!(s.total_inserts, 5);
    assert_eq!(s.total_deletes, 2);
    assert_eq!(s.vector_count, s.total_inserts - s.total_deletes);
    assert!(s.layer_count <= solvec_core::hnsw::MAX_LEVEL + 1);
    assert!(s.entry_point_level < s.layer_count);
}

#[test]
fn insert_node_links_to_the_nearest_found() {
    // With room for two neighbours, "d" links to the two nearest nodes, best first.
    let g = build(2, &[("a", 0), ("b", 0), ("c", 0), ("g", 0), ("d", 0)]);
    assert_eq!(g.neighbors(0, "d").unwrap(), &vec!["c".to_string(), "b".to_string()]);
}

#[test]
fn updating_and_reinserting_agree() {
    let mut a = build(4, &[("a", 0), ("b", 1), ("c", 0)]);
    let mut b = build(4, &[("a", 0), ("b", 1), ("c", 0)]);
    a.upsert_node("b".to_string(), 0, &key_for(10), &pair_rank, 0);
    b.upsert_node("b".to_string(), 2, &key_for(10), &pair_rank, 0);
    assert_eq!(a.len(), b.len());
    assert_eq!(a.total_inserts(), b.total_inserts());
    assert_eq!(a.total_deletes(), b.total_deletes());
    assert_eq!(a.total_deletes(), 1);
}

#[test]
fn rebuilding_from_parts_gives_the_same_graph() {
    let g = build(4, &[("a", 0), ("b", 2), ("c", 1), ("d", 0)]);
    let h = HnswGraph::from_parts(
        g.m(),
        g.m_max_0(),
        g.ef_construction(),
        g.ef_search(),
        g.layers().clone(),
        g.entry_point().cloned(),
        g.entry_point_level(),
        g.total_inserts(),
        g.total_deletes(),
        g.metric(),
        g.dimension(),
    )
    .unwrap();
    assert_eq!(h.len(), g.len());
    assert_eq!(h.layer_count(), g.layer_count());
    assert_eq!(h.entry_point(), g.entry_point());
    for l in 0..g.layer_count() {
        for x in ["a", "b", "c", "d"] {
            assert_eq!(h.neighbors(l, x), g.neighbors(l, x));
        }
    }
    assert_eq!(
        h.search(&key_for(12), 3, 2, 0).unwrap(),
        g.search(&key_for(12), 3, 2, 0).unwrap()
    );
}
