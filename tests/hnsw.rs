use lance_index::builder::{BuildError, HNSWBUilder};
use lance_index::graph::{InMemoryVectorStorage, VectorStorage};
use lance_index::hnsw::{GraphNode, NodeWithDist, SearchError, HNSW};

/// A small xorshift generator, so that every run sees the same data.
struct Rng(u64);

impl Rng {
    fn next_u64(&mut self) -> u64 {
        let mut x = self.0;
        x ^= x << 13;
        x ^= x >> 7;
        x ^= x << 17;
        self.0 = x;
        x
    }

    fn next_f32(&mut self) -> f32 {
        (self.next_u64() >> 40) as f32 / (1u64 << 24) as f32
    }
}

fn random_matrix(rng: &mut Rng, rows: usize, dim: usize) -> Vec<f32> {
    (0..rows * dim).map(|_| rng.next_f32()).collect()
}

fn l2(a: &[f32], b: &[f32]) -> f32 {
    a.iter().zip(b.iter()).map(|(x, y)| (x - y) * (x - y)).sum()
}

/// Order-preserving key of a non-negative distance.
fn key(d: f32) -> u32 {
    d.to_bits()
}

fn samples(rng: &mut Rng, n: usize) -> Vec<u64> {
    (0..n).map(|_| rng.next_u64()).collect()
}

fn build_over(
    builder: &HNSWBUilder,
    storage: &InMemoryVectorStorage<f32>,
    levels: &Vec<u64>,
) -> HNSW {
    let dist = |a: u32, b: u32| key(l2(storage.get(a).unwrap(), storage.get(b).unwrap()));
    match builder.build(levels, &dist) {
        Ok(g) => g,
        Err(e) => panic!("build refused: {:?}", e),
    }
}

fn query(g: &HNSW, storage: &InMemoryVectorStorage<f32>, q: &[f32], k: usize, ef: usize) -> Vec<NodeWithDist> {
    let dist = |i: u32| key(l2(q, storage.get(i).unwrap()));
    g.search(&dist, k, ef).unwrap()
}

fn check_graph_shape(g: &HNSW) {
    for (i, node) in g.nodes.iter().enumerate() {
        assert_eq!(node.id as usize, i);
        assert!(!node.neighbors.is_empty());
        assert!(node.neighbors.len() <= g.max_layer as usize + 1);
        for list in &node.neighbors {
            assert!(list.len() <= g.m_max);
            assert!(!list.contains(&node.id));
        }
    }
    if !g.nodes.is_empty() {
        let top = g.nodes[g.entry_point as usize].neighbors.len();
        assert_eq!(top, g.max_layer as usize + 1);
    }
}

fn dataset(n: usize, dim: usize, seed: u64) -> (InMemoryVectorStorage<f32>, Vec<u64>) {
    let mut rng = Rng(seed);
    let data = random_matrix(&mut rng, n, dim);
    let levels = samples(&mut rng, n);
    (InMemoryVectorStorage::new(data, dim), levels)
}

#[test]
fn test_hnsw_builder() {
    let builder = HNSWBUilder::new().max_level(8);
    assert_eq!(builder.max_level, 8);
    assert_eq!(builder.m_max, 16);
    assert_eq!(builder.ef_construction, 100);
    let (storage, levels) = dataset(50, 4, 7);
    let g = build_over(&builder, &storage, &levels);
    assert_eq!(g.nodes.len(), 50);
    check_graph_shape(&g);
}

#[test]
fn builder_setters() {
    let b = HNSWBUilder::new().max_level(3).max_num_edges(5).ef_construction(20);
    assert_eq!((b.max_level, b.m_max, b.ef_construction), (3, 5, 20));
}

#[test]
fn builder_rejects_zero_settings() {
    let dist = |_a: u32, _b: u32| 0u32;
    let levels = vec![1u64, 2, 3];
    let zero_level = HNSWBUilder::new().max_level(0);
    assert!(matches!(zero_level.build(&levels, &dist), Err(BuildError::InvalidConfig)));
    let zero_edges = HNSWBUilder::new().max_num_edges(0);
    assert!(matches!(zero_edges.build(&levels, &dist), Err(BuildError::InvalidConfig)));
    let zero_ef = HNSWBUilder::new().ef_construction(0);
    assert!(matches!(zero_ef.build(&levels, &dist), Err(BuildError::InvalidConfig)));
}

#[test]
fn random_level_values() {
    let b = HNSWBUilder::new();
    assert_eq!(b.random_level(0), 7);
    assert_eq!(b.random_level(u64::MAX), 0);
    assert_eq!(b.random_level(1u64 << 60), 0);
    assert_eq!(b.random_level((1u64 << 60) - 1), 1);
    assert_eq!(b.random_level((1u64 << 56) - 1), 2);
    let capped = HNSWBUilder::new().max_level(2);
    assert_eq!(capped.random_level(0), 1);
    let single = HNSWBUilder::new().max_level(1);
    assert_eq!(single.random_level(0), 0);
}

#[test]
fn graph_node_identity() {
    let a = GraphNode::new(3, vec![1, 2]);
    assert_eq!(a.id, 3);
    assert_eq!(a.neighbors, vec![vec![1, 2]]);
    assert!(a == GraphNode::new(3, vec![9]));
    assert!(a != GraphNode::new(4, vec![1, 2]));
}

#[test]
fn node_with_dist_fields() {
    let n = NodeWithDist::new(5, 42);
    assert_eq!(n.id, 5);
    assert_eq!(n.distance, 42);
}

#[test]
fn in_memory_storage_rows() {
    let s = InMemoryVectorStorage::new(vec![1.0f32, 2.0, 3.0, 4.0, 5.0, 6.0], 3);
    assert_eq!(s.len(), 2);
    assert_eq!(s.get(0), Some(&[1.0f32, 2.0, 3.0][..]));
    assert_eq!(s.get(1), Some(&[4.0f32, 5.0, 6.0][..]));
    assert_eq!(s.get(2), None);
}

#[test]
fn empty_graph_query_is_empty() {
    let g = HNSW::new(16);
    let dist = |_i: u32| 0u32;
    assert_eq!(g.search(&dist, 5, 10), Ok(vec![]));
    assert_eq!(g.search(&dist, 0, 0), Ok(vec![]));
    let built = HNSWBUilder::new().build(&vec![], &|_a: u32, _b: u32| 0u32);
    let built = match built {
        Ok(g) => g,
        Err(e) => panic!("{:?}", e),
    };
    assert!(built.nodes.is_empty());
    assert_eq!(built.search(&dist, 3, 3), Ok(vec![]));
}

#[test]
fn query_rejects_ef_below_k() {
    let (storage, levels) = dataset(20, 4, 11);
    let g = build_over(&HNSWBUilder::new(), &storage, &levels);
    let dist = |i: u32| key(l2(&[0.5, 0.5, 0.5, 0.5], storage.get(i).unwrap()));
    assert_eq!(g.search(&dist, 10, 5), Err(SearchError::EfBelowK));
    assert_eq!(g.search(&dist, 0, 5), Ok(vec![]));
}

#[test]
fn first_insert_becomes_entry_point() {
    let mut g = HNSW::new(4);
    let dist = |a: u32, b: u32| if a > b { a - b } else { b - a };
    let id = g.insert(2, 10, &dist);
    assert_eq!(id, 0);
    assert_eq!(g.entry_point, 0);
    assert_eq!(g.max_layer, 2);
    assert_eq!(g.nodes[0].neighbors, vec![Vec::<u32>::new(); 3]);
    let id = g.insert(0, 10, &dist);
    assert_eq!(id, 1);
    assert_eq!(g.entry_point, 0);
    assert_eq!(g.nodes[1].neighbors, vec![vec![0]]);
    assert_eq!(g.nodes[0].neighbors[0], vec![1]);
    let id = g.insert(4, 10, &dist);
    assert_eq!(id, 2);
    assert_eq!(g.entry_point, 2);
    assert_eq!(g.max_layer, 4);
    check_graph_shape(&g);
}

#[test]
fn pruning_keeps_nearest() {
    // Points on a line; every node keeps at most two neighbours.
    let mut g = HNSW::new(2);
    let pos = [0u32, 10, 20, 1, 2];
    let dist = |a: u32, b: u32| {
        let (x, y) = (pos[a as usize], pos[b as usize]);
        if x > y { x - y } else { y - x }
    };
    for _ in 0..pos.len() {
        g.insert(0, 10, &dist);
    }
    check_graph_shape(&g);
    let mut zero = g.nodes[0].neighbors[0].clone();
    zero.sort();
    assert_eq!(zero, vec![3, 4]);
}

#[test]
fn pruning_can_leave_a_node_unreachable() {
    // With one neighbour per node, node 0 drops node 1 for the nearer node 2.
    let mut g = HNSW::new(1);
    let pos = [0u32, 10, 1];
    let dist = |a: u32, b: u32| {
        let (x, y) = (pos[a as usize], pos[b as usize]);
        if x > y { x - y } else { y - x }
    };
    for _ in 0..pos.len() {
        g.insert(0, 10, &dist);
    }
    check_graph_shape(&g);
    assert_eq!(g.entry_point, 0);
    assert_eq!(g.nodes[0].neighbors[0], vec![2]);
    assert_eq!(g.nodes[1].neighbors[0], vec![0]);
    assert_eq!(g.nodes[2].neighbors[0], vec![0]);
}

#[test]
fn layer_search_stays_within_ef() {
    let (storage, levels) = dataset(200, 8, 3);
    let g = build_over(&HNSWBUilder::new(), &storage, &levels);
    let q = vec![0.25f32; 8];
    let dist = |i: u32| key(l2(&q, storage.get(i).unwrap()));
    for ef in [1usize, 3, 10, 50] {
        let r = g.search_layer(&dist, g.entry_point, ef, 0);
        assert!(!r.is_empty() && r.len() <= ef);
        assert!(r.windows(2).all(|w| w[0].distance <= w[1].distance));
        let last = r[r.len() - 1].distance;
        for n in &r {
            for &y in &g.nodes[n.id as usize].neighbors[0] {
                let inside = r.iter().any(|e| e.id == y);
                assert!(inside || (r.len() == ef && dist(y) >= last));
            }
        }
    }
}

#[test]
fn layer_search_from_isolated_entry() {
    let mut g = HNSW::new(4);
    let dist = |_a: u32, _b: u32| 1u32;
    g.insert(0, 4, &dist);
    let r = g.search_layer(&|_i: u32| 7u32, 0, 5, 0);
    assert_eq!(r, vec![NodeWithDist::new(0, 7)]);
}

#[test]
fn built_graph_is_well_formed_and_connected() {
    let (storage, levels) = dataset(1000, 8, 99);
    let g = build_over(&HNSWBUilder::new(), &storage, &levels);
    check_graph_shape(&g);
    let mut seen = vec![false; g.nodes.len()];
    let mut stack = vec![g.entry_point];
    seen[g.entry_point as usize] = true;
    while let Some(u) = stack.pop() {
        for &v in &g.nodes[u as usize].neighbors[0] {
            if !seen[v as usize] {
                seen[v as usize] = true;
                stack.push(v);
            }
        }
    }
    assert!(seen.iter().all(|s| *s));
}

#[test]
fn exact_match_comes_first() {
    let (storage, levels) = dataset(300, 8, 5);
    let g = build_over(&HNSWBUilder::new(), &storage, &levels);
    for id in [0u32, 17, 123, 299] {
        let q = storage.get(id).unwrap().to_vec();
        let r = query(&g, &storage, &q, 5, 50);
        assert_eq!(r[0], NodeWithDist::new(id, 0));
    }
}

#[test]
fn recall_on_random_vectors() {
    let (storage, levels) = dataset(1000, 8, 2024);
    let g = build_over(&HNSWBUilder::new().max_num_edges(16).ef_construction(100), &storage, &levels);
    let mut rng = Rng(77);
    let mut good = 0;
    for _ in 0..100 {
        let q = random_matrix(&mut rng, 1, 8);
        let found = query(&g, &storage, &q, 10, 50);
        assert_eq!(found.len(), 10);
        let mut all: Vec<(f32, u32)> = (0..1000u32).map(|i| (l2(&q, storage.get(i).unwrap()), i)).collect();
        all.sort_by(|a, b| a.partial_cmp(b).unwrap());
        let truth: Vec<u32> = all[..10].iter().map(|p| p.1).collect();
        let hits = found.iter().filter(|n| truth.contains(&n.id)).count();
        if hits >= 9 {
            good += 1;
        }
    }
    assert!(good >= 95, "only {} of 100 queries reached 9 of 10", good);
}

#[test]
fn same_samples_same_graph() {
    let (storage, levels) = dataset(300, 8, 8);
    let b = HNSWBUilder::new();
    let g1 = build_over(&b, &storage, &levels);
    let g2 = build_over(&b, &storage, &levels);
    assert_eq!(g1.max_layer, g2.max_layer);
    assert_eq!(g1.entry_point, g2.entry_point);
    for (a, c) in g1.nodes.iter().zip(g2.nodes.iter()) {
        assert_eq!(a.neighbors.len(), c.neighbors.len());
        let da: Vec<usize> = a.neighbors.iter().map(|l| l.len()).collect();
        let dc: Vec<usize> = c.neighbors.iter().map(|l| l.len()).collect();
        assert_eq!(da, dc);
    }
}
