// The index scenarios, run on the verified graph with float vectors scored
// here, as the runtime layer scores them.

use rand::Rng;
use solvec_core::hnsw::HnswGraph;
use solvec_core::types::{check_vector_shape, DistanceMetric, SolVecError};
use std::collections::HashMap;

fn cosine(a: &[f32], b: &[f32]) -> f32 {
    let mut dot = 0.0f32;
    let mut na = 0.0f32;
    let mut nb = 0.0f32;
    for (x, y) in a.iter().zip(b.iter()) {
        dot += x * y;
        na += x * x;
        nb += y * y;
    }
    if na == 0.0 || nb == 0.0 {
        return 0.0;
    }
    dot / (na.sqrt() * nb.sqrt())
}

fn rank_key(score: f32) -> u32 {
    let s = if score == 0.0 { 0.0f32 } else { score };
    let bits = s.to_bits();
    if bits & 0x8000_0000 != 0 {
        !bits
    } else {
        bits | 0x8000_0000
    }
}

struct Index {
    graph: HnswGraph,
    vectors: HashMap<String, Vec<f32>>,
    ml: f64,
}

impl Index {
    fn new(m: usize, ef_construction: usize) -> Index {
        let graph = HnswGraph::new(m, ef_construction, DistanceMetric::Cosine);
        let ml = 1.0 / (graph.m() as f64).ln();
        Index { graph, vectors: HashMap::new(), ml }
    }

    fn random_level(&self) -> usize {
        let mut rng = rand::thread_rng();
        let mut level = 0usize;
        loop {
            let r: f64 = rng.gen();
            if r > self.ml || level >= 16 {
                break;
            }
            level += 1;
        }
        level
    }

    fn insert(&mut self, id: &str, values: Vec<f32>) -> Result<(), SolVecError> {
        check_vector_shape(id, values.len())?;
        self.graph.check_dimension(values.len())?;
        let level = self.random_level();
        self.vectors.insert(id.to_string(), values.clone());
        let vectors = &self.vectors;
        let score = |other: &str| vectors.get(other).map(|v| rank_key(cosine(&values, v)));
        let rank = |n: &str, x: &str| {
            let nv = &vectors[n];
            rank_key(vectors.get(x).map(|v| cosine(nv, v)).unwrap_or(f32::MIN))
        };
        self.graph.upsert_node(id.to_string(), level, &score, &rank, rank_key(f32::MIN));
        Ok(())
    }

    fn delete(&mut self, id: &str) -> Result<(), SolVecError> {
        self.graph.remove_node(id)?;
        self.vectors.remove(id);
        Ok(())
    }

    fn query(&self, q: &[f32], top_k: usize) -> Result<Vec<(String, f32)>, SolVecError> {
        let score = |id: &str| self.vectors.get(id).map(|v| rank_key(cosine(q, v)));
        let hits = self.graph.search(&score, q.len(), top_k, rank_key(f32::MIN))?;
        Ok(hits
            .into_iter()
            .map(|(_, id)| {
                let s = cosine(q, &self.vectors[&id]);
                (id, s)
            })
            .collect())
    }

    fn len(&self) -> usize {
        self.graph.len()
    }
}

fn random_vector(dim: usize) -> Vec<f32> {
    let mut rng = rand::thread_rng();
    (0..dim).map(|_| rng.gen::<f32>()).collect()
}

#[test]
fn test_basic_insert_and_query() {
    let mut index = Index::new(16, 200);
    index.insert("a", vec![1.0, 0.0, 0.0]).unwrap();
    index.insert("b", vec![0.9, 0.1, 0.0]).unwrap();
    index.insert("c", vec![0.0, 1.0, 0.0]).unwrap();
    index.insert("d", vec![0.0, 0.0, 1.0]).unwrap();

    let results = index.query(&[1.0, 0.0, 0.0], 2).unwrap();
    assert_eq!(results.len(), 2);
    assert_eq!(results[0].0, "a");
    assert_eq!(results[1].0, "b");
}

#[test]
fn test_query_returns_correct_count() {
    let mut index = Index::new(16, 200);
    for i in 0..50 {
        index.insert(&format!("v{}", i), random_vector(128)).unwrap();
    }
    let results = index.query(&random_vector(128), 10).unwrap();
    assert_eq!(results.len(), 10);
}

#[test]
fn test_insert_duplicate_id_updates() {
    let mut index = Index::new(16, 200);
    index.insert("a", vec![1.0, 0.0, 0.0]).unwrap();
    index.insert("a", vec![0.0, 1.0, 0.0]).unwrap();

    assert_eq!(index.len(), 1);
    assert_eq!(index.vectors["a"], vec![0.0, 1.0, 0.0]);
}

#[test]
fn test_delete_removes_vector() {
    let mut index = Index::new(16, 200);
    index.insert("a", vec![1.0, 0.0, 0.0]).unwrap();
    index.insert("b", vec![0.0, 1.0, 0.0]).unwrap();

    index.delete("a").unwrap();
    assert_eq!(index.len(), 1);

    let results = index.query(&[1.0, 0.0, 0.0], 5).unwrap();
    assert!(!results.iter().any(|r| r.0 == "a"));
}

#[test]
fn test_delete_nonexistent_returns_error() {
    let mut index = Index::new(16, 200);
    let result = index.delete("nonexistent");
    assert!(matches!(result, Err(SolVecError::VectorNotFound(_))));
}

#[test]
fn test_dimension_mismatch_error() {
    let mut index = Index::new(16, 200);
    index.insert("a", vec![1.0, 0.0, 0.0]).unwrap();
    let result = index.insert("b", vec![1.0, 0.0]);
    assert!(matches!(result, Err(SolVecError::DimensionMismatch { .. })));
}

#[test]
fn test_empty_index_returns_empty() {
    let index = Index::new(16, 200);
    let results = index.query(&[1.0, 0.0, 0.0], 5).unwrap();
    assert!(results.is_empty());
}

#[test]
fn test_results_sorted_by_score_descending() {
    let mut index = Index::new(16, 200);
    for i in 0..30 {
        index.insert(&format!("v{}", i), random_vector(128)).unwrap();
    }
    let results = index.query(&random_vector(128), 10).unwrap();
    for window in results.windows(2) {
        assert!(window[0].1 >= window[1].1, "Results must be sorted descending");
    }
}

#[test]
fn test_large_index_query_returns_results() {
    let mut index = Index::new(16, 200);
    for i in 0..1000 {
        index.insert(&format!("v{}", i), random_vector(384)).unwrap();
    }
    let results = index.query(&random_vector(384), 10).unwrap();
    assert_eq!(results.len(), 10);
}
