use parsecdb::error::ParsecError;
use parsecdb::flat::FlatIndex;
use parsecdb::hnsw::{HnswConfig, HnswIndex, HnswNode};
use parsecdb::types::DistanceMetric;

fn to_bits(v: &[f32]) -> Vec<u32> {
    v.iter().map(|x| x.to_bits()).collect()
}

fn l2(a: &[u32], b: &[u32], _metric: DistanceMetric) -> u32 {
    let d: f32 = a
        .iter()
        .zip(b.iter())
        .map(|(x, y)| {
            let diff = f32::from_bits(*x) - f32::from_bits(*y);
            diff * diff
        })
        .sum();
    d.to_bits()
}

fn small_config() -> HnswConfig {
    HnswConfig { m: 2, m_max_zero: 3, ef_construction: 10, m_l: 0 }
}

#[test]
fn default_config() {
    let c = HnswConfig::default();
    assert_eq!(c.m, 16);
    assert_eq!(c.m_max_zero, 32);
    assert_eq!(c.ef_construction, 100);
    assert_eq!(f32::from_bits(c.m_l), 1.0 / (16f32).ln());
}

#[test]
fn node_new_has_one_empty_list_per_layer() {
    let n = HnswNode::new(77, 3);
    assert_eq!(n.id, 77);
    assert_eq!(n.max_layer, 3);
    assert_eq!(n.connections.len(), 4);
    assert!(n.connections.iter().all(|c| c.is_empty()));
}

#[test]
fn empty_index_search_is_empty() {
    let index = HnswIndex::new(2, 10, DistanceMetric::L2Squared, HnswConfig::default());
    assert_eq!(index.len(), 0);
    assert!(index.search(&to_bits(&[0.0, 0.0]), 5, &l2).is_empty());
}

#[test]
fn hnsw_finds_the_nearest_vectors() {
    let mut index = HnswIndex::new(2, 16, DistanceMetric::L2Squared, small_config());
    let layers = [0usize, 1, 0, 2, 0, 0, 1, 0, 0, 0];
    for i in 0..10u64 {
        let x = i as f32;
        index
            .insert(100 + i, &to_bits(&[x, 0.0]), layers[i as usize], &l2)
            .unwrap();
    }
    assert_eq!(index.len(), 10);
    assert_eq!(index.max_layer(), 2);
    assert_eq!(index.entry_point(), Some(3));
    let results = index.search(&to_bits(&[6.2, 0.0]), 3, &l2);
    let ids: Vec<u64> = results.iter().map(|r| r.id).collect();
    assert_eq!(ids, vec![106, 107, 105]);
    for w in results.windows(2) {
        assert!(f32::from_bits(w[0].distance) <= f32::from_bits(w[1].distance));
    }
    // the degree limits of the configuration hold on every layer
    for node in index.nodes() {
        for (layer, list) in node.connections.iter().enumerate() {
            let limit = if layer == 0 { 3 } else { 2 };
            assert!(list.len() <= limit);
            for &c in list {
                assert!(c < index.len());
                assert!(index.nodes()[c].max_layer >= layer);
            }
        }
    }
}

#[test]
fn hnsw_insert_refuses_wrong_dimension() {
    let mut index = HnswIndex::new(3, 4, DistanceMetric::Cosine, HnswConfig::default());
    assert_eq!(
        index.insert(1, &[1, 2], 0, &l2),
        Err(ParsecError::DimensionMismatch { expected: 3, found: 2 })
    );
    assert_eq!(index.len(), 0);
    assert_eq!(index.entry_point(), None);
}

#[test]
fn hnsw_snapshot_roundtrip() {
    let mut index = HnswIndex::new(1, 4, DistanceMetric::L2Squared, small_config());
    index.insert(5, &to_bits(&[1.0]), 0, &l2).unwrap();
    index.insert(6, &to_bits(&[2.0]), 1, &l2).unwrap();
    let graph = b"encoded graph".to_vec();
    let bytes = index.encode_snapshot(&graph);
    assert_eq!(&bytes[..8], &(graph.len() as u64).to_le_bytes());
    let (g, buffer) = HnswIndex::decode_snapshot(&bytes).unwrap();
    assert_eq!(g, graph);
    assert_eq!(buffer.len(), 2);
    assert_eq!(buffer.get_id(1), Some(6));
    let nodes: Vec<HnswNode> = index
        .nodes()
        .iter()
        .map(|n| HnswNode { id: n.id, max_layer: n.max_layer, connections: n.connections.clone() })
        .collect();
    let restored = HnswIndex::from_parts(
        buffer,
        index.metric(),
        index.config(),
        nodes,
        index.max_layer(),
        index.entry_point(),
    )
    .expect("a saved graph is accepted");
    assert_eq!(restored.len(), 2);
    let results = restored.search(&to_bits(&[1.9]), 1, &l2);
    assert_eq!(results[0].id, 6);
}

#[test]
fn from_parts_refuses_an_inconsistent_graph() {
    let mut buffer = parsecdb::buffer::SoABuffer::new(1, 2);
    buffer.insert(1, &[0]).unwrap();
    let node = HnswNode { id: 1, max_layer: 0, connections: vec![vec![5]] };
    assert!(HnswIndex::from_parts(
        buffer,
        DistanceMetric::Cosine,
        HnswConfig::default(),
        vec![node],
        0,
        Some(0)
    )
    .is_none());
    let mut buffer = parsecdb::buffer::SoABuffer::new(1, 2);
    buffer.insert(1, &[0]).unwrap();
    let node = HnswNode { id: 1, max_layer: 0, connections: vec![vec![]] };
    assert!(HnswIndex::from_parts(
        buffer,
        DistanceMetric::Cosine,
        HnswConfig::default(),
        vec![node],
        0,
        None
    )
    .is_none());
}

fn two_vector_index(first_layer: usize, second_layer: usize) -> HnswIndex {
    let cfg = HnswConfig { m: 2, m_max_zero: 4, ef_construction: 10, m_l: 0 };
    let mut idx = HnswIndex::new(2, 4, DistanceMetric::L2Squared, cfg);
    assert_eq!(idx.insert(10, &to_bits(&[0.0, 0.0]), first_layer, &l2), Ok(()));
    assert_eq!(idx.insert(20, &to_bits(&[3.0, 4.0]), second_layer, &l2), Ok(()));
    idx
}

#[test]
fn second_vector_is_linked_both_ways() {
    let idx = two_vector_index(0, 0);
    assert_eq!(idx.len(), 2);
    assert_eq!(idx.nodes()[1].connections[0], vec![0]);
    assert_eq!(idx.nodes()[0].connections[0], vec![1]);
    let r = idx.search(&to_bits(&[3.0, 4.0]), 1, &l2);
    assert_eq!(r.len(), 1);
    assert_eq!(r[0].id, 20);
    assert_eq!(f32::from_bits(r[0].distance), 0.0);
}

#[test]
fn both_vectors_found_whatever_the_layers() {
    for (a, b) in [(0usize, 0usize), (0, 2), (1, 0), (2, 1)] {
        let idx = two_vector_index(a, b);
        let r = idx.search(&to_bits(&[0.0, 0.0]), 5, &l2);
        assert_eq!(r.len(), 2);
        assert_eq!(r[0].id, 10);
        assert_eq!(f32::from_bits(r[0].distance), 0.0);
        assert_eq!(r[1].id, 20);
        assert_eq!(f32::from_bits(r[1].distance), 25.0);
        assert!(idx.search(&to_bits(&[0.0, 0.0]), 0, &l2).is_empty());
    }
}

#[test]
fn diversity_rule_drops_candidates_nearer_to_a_kept_node() {
    let cfg = HnswConfig { m: 2, m_max_zero: 3, ef_construction: 10, m_l: 0 };
    let mut idx = HnswIndex::new(2, 8, DistanceMetric::L2Squared, cfg);
    for i in 0..4u64 {
        idx.insert(i, &to_bits(&[i as f32, 0.0]), 0, &l2).unwrap();
    }
    // node 3 sees 2, 1 and 0 at 1, 4 and 9; 1 and 0 are nearer to 2 than to 3
    assert_eq!(idx.nodes()[3].connections[0], vec![2]);
    assert_eq!(idx.nodes()[2].connections[0], vec![1, 3]);
    assert_eq!(idx.nodes()[1].connections[0], vec![0, 2]);
    assert_eq!(idx.nodes()[0].connections[0], vec![1]);
}

#[test]
fn full_neighbour_list_is_pruned_by_the_diversity_rule() {
    let cfg = HnswConfig { m: 1, m_max_zero: 1, ef_construction: 10, m_l: 0 };
    let mut idx = HnswIndex::new(1, 4, DistanceMetric::L2Squared, cfg);
    idx.insert(0, &to_bits(&[0.0]), 0, &l2).unwrap();
    idx.insert(1, &to_bits(&[10.0]), 0, &l2).unwrap();
    idx.insert(2, &to_bits(&[1.0]), 0, &l2).unwrap();
    // node 2 links to 0; 0 then holds 1 and 2 and keeps only the nearer one
    assert_eq!(idx.nodes()[2].connections[0], vec![0]);
    assert_eq!(idx.nodes()[0].connections[0], vec![2]);
    assert_eq!(idx.nodes()[1].connections[0], vec![0]);
}

#[test]
fn small_graph_search_matches_exhaustive_search() {
    let cfg = HnswConfig { m: 4, m_max_zero: 8, ef_construction: 10, m_l: 0 };
    let mut hnsw = HnswIndex::new(2, 8, DistanceMetric::L2Squared, cfg);
    let mut flat = FlatIndex::new(2, 8, DistanceMetric::L2Squared);
    let points = [[5.0f32, 1.0], [-2.0, 3.0], [0.5, -4.0], [7.0, 7.0], [-6.0, -1.0], [1.0, 1.0]];
    let layers = [0usize, 2, 1, 0, 3, 0];
    for (i, p) in points.iter().enumerate() {
        hnsw.insert(i as u64, &to_bits(p), layers[i], &l2).unwrap();
        flat.insert(i as u64, &to_bits(p)).unwrap();
    }
    for q in [[0.0f32, 0.0], [6.0, 6.0], [-5.0, 2.0]] {
        for k in [1usize, 3, 6, 9] {
            let h = hnsw.search(&to_bits(&q), k, &l2);
            let f = flat.search(&to_bits(&q), k, &l2);
            assert_eq!(h.len(), f.len());
            assert_eq!(h.len(), k.min(points.len()));
            for (a, b) in h.iter().zip(f.iter()) {
                assert_eq!(a.distance, b.distance);
            }
        }
    }
}
