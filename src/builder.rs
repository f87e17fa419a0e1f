use vstd::prelude::*;

use crate::hnsw::{deterministic_pair, HNSW};

verus! {

/// `2^64`: the number of values a level sample can take.
pub open spec fn sample_space() -> int {
    0x1_0000_0000_0000_0000
}

/// The level drawn by a uniform sample `x` of `[0, 2^64)`: the largest `l <= cap`
/// with `x * m^l < 2^64`, so that a level of at least `l` has chance `m^-l`.
pub open spec fn level_for(x: int, m: int, cap: nat) -> nat
    decreases cap,
{
    if cap == 0 {
        0
    } else if x * m < sample_space() {
        1 + level_for(x * m, m, (cap - 1) as nat)
    } else {
        0
    }
}

/// Configuration of a graph build.
pub struct HNSWBUilder {
    /// Number of layers a graph may have.
    pub max_level: u16,
    /// Largest number of neighbours kept per node and layer.
    pub m_max: usize,
    /// Width of the candidate list while inserting.
    pub ef_construction: usize,
}

/// Why a build was refused.
#[derive(Clone, Copy, Debug, PartialEq, Eq, Structural)]
pub enum BuildError {
    /// `max_level`, `m_max` or `ef_construction` is zero.
    InvalidConfig,
}

impl HNSWBUilder {
    /// Eight layers, sixteen neighbours, a candidate list of one hundred.
    pub fn new() -> (r: Self)
        ensures
            r.max_level == 8,
            r.m_max == 16,
            r.ef_construction == 100,
    {
        HNSWBUilder { max_level: 8, m_max: 16, ef_construction: 100 }
    }

    /// The maximum number of layers of the graph.
    pub fn max_level(self, max_level: u16) -> (r: Self)
        ensures
            r == (HNSWBUilder { max_level, ..self }),
    {
        HNSWBUilder { max_level, ..self }
    }

    /// The maximum number of connections for each node per layer.
    pub fn max_num_edges(self, m_max: usize) -> (r: Self)
        ensures
            r == (HNSWBUilder { m_max, ..self }),
    {
        HNSWBUilder { m_max, ..self }
    }

    /// Number of candidates considered when searching for the nearest neighbours
    /// during the construction of the graph.
    pub fn ef_construction(self, ef_construction: usize) -> (r: Self)
        ensures
            r == (HNSWBUilder { ef_construction, ..self }),
    {
        HNSWBUilder { ef_construction, ..self }
    }

    /// Whether every setting is at least one.
    pub open spec fn valid(&self) -> bool {
        self.max_level >= 1 && self.m_max >= 1 && self.ef_construction >= 1
    }

    /// The level a node gets from the uniform sample `sample`, capped at
    /// `max_level - 1`.
    pub open spec fn level_of(&self, sample: u64) -> nat {
        level_for(sample as int, self.m_max as int, (self.max_level - 1) as nat)
    }

    /// Assigns a level to a new node from a uniform random sample: each level
    /// above the last is reached with chance `1 / m_max`, up to `max_level - 1`.
    pub fn random_level(&self, sample: u64) -> (r: u16)
        requires
            self.max_level >= 1,
        ensures
            r == self.level_of(sample),
    {
        let cap: u16 = self.max_level - 1;
        let m: u128 = self.m_max as u128;
        let mut x: u128 = sample as u128;
        let mut l: u16 = 0;
        loop
            invariant
                l <= cap,
                x < sample_space(),
                m == self.m_max,
                cap == self.max_level - 1,
                l + level_for(x as int, m as int, (cap - l) as nat) == self.level_of(sample),
            decreases cap - l,
        {
            if l >= cap {
                return l;
            }
            assert(x * m < 0x1_0000_0000_0000_0000_0000_0000_0000_0000) by (nonlinear_arith)
                requires
                    x < 0x1_0000_0000_0000_0000,
                    m < 0x1_0000_0000_0000_0000,
            ;
            let next = x * m;
            if next >= 0x1_0000_0000_0000_0000 {
                return l;
            }
            x = next;
            l = l + 1;
        }
    }

    /// Builds a graph over vectors `0..samples.len()`, inserted in id order, the
    /// `i`-th with the level drawn from `samples[i]`; `dist(a, b)` is the
    /// distance key between vectors `a` and `b`.
    pub fn build<F: Fn(u32, u32) -> u32>(&self, samples: &Vec<u64>, dist: &F) -> (r: Result<
        HNSW,
        BuildError,
    >)
        requires
            samples@.len() < u32::MAX,
            forall|a: u32, b: u32|
                (a as int) < samples@.len() && (b as int) < samples@.len() ==> dist.requires((a, b)),
            deterministic_pair(dist),
        ensures
            r is Err <==> !self.valid(),
            r is Err ==> r == Err::<HNSW, BuildError>(BuildError::InvalidConfig),
            r is Ok ==> self.built(r->Ok_0, samples@),
    {
        if self.max_level < 1 || self.m_max < 1 || self.ef_construction < 1 {
            return Err(BuildError::InvalidConfig);
        }
        let mut g = HNSW::new(self.m_max);
        let mut i: usize = 0;
        while i < samples.len()
            invariant
                self.valid(),
                i <= samples@.len(),
                samples@.len() < u32::MAX,
                forall|a: u32, b: u32|
                    (a as int) < samples@.len() && (b as int) < samples@.len() ==> dist.requires(
                        (a, b),
                    ),
                deterministic_pair(dist),
                g.wf(),
                g.num_nodes() == i,
                g.m_max == self.m_max,
                forall|j: int| 0 <= j < i ==> #[trigger] g.levels(j) == self.level_of(samples@[j]) + 1,
            decreases samples@.len() - i,
        {
            let level = self.random_level(samples[i]);
            let ghost before = g;
            g.insert(level, self.ef_construction, dist);
            assert forall|j: int| 0 <= j < i + 1 implies #[trigger] g.levels(j) == self.level_of(
                samples@[j],
            ) + 1 by {
                if j < i {
                    assert(before.levels(j) == self.level_of(samples@[j]) + 1);
                }
            }
            i = i + 1;
        }
        Ok(g)
    }

    /// What a successful build gives: a well-formed graph with one node per
    /// sample, bounded by `m_max`, each node present at the layers its sample
    /// draws.
    pub open spec fn built(&self, g: HNSW, samples: Seq<u64>) -> bool {
        &&& g.wf()
        &&& g.num_nodes() == samples.len()
        &&& g.m_max == self.m_max
        &&& forall|j: int| 0 <= j < samples.len() ==> #[trigger] g.levels(j) == self.level_of(samples[j]) + 1
    }
}

/// Two builds with one configuration from the same level samples give graphs
/// of the same size, with every node on the same layers and the same top layer.
pub proof fn lemma_builds_share_layers(b: HNSWBUilder, g1: HNSW, g2: HNSW, samples: Seq<u64>)
    requires
        b.built(g1, samples),
        b.built(g2, samples),
    ensures
        g1.num_nodes() == g2.num_nodes(),
        forall|i: int| 0 <= i < g1.num_nodes() ==> #[trigger] g1.levels(i) == g2.levels(i),
        g1.max_layer == g2.max_layer,
{
    assert forall|i: int| 0 <= i < g1.num_nodes() implies #[trigger] g1.levels(i) == g2.levels(i) by {
        assert(g1.levels(i) == b.level_of(samples[i]) + 1);
        assert(g2.levels(i) == b.level_of(samples[i]) + 1);
    }
    if g1.num_nodes() > 0 {
        let e1 = g1.entry_point as int;
        let e2 = g2.entry_point as int;
        assert(g1.levels(e1) == g2.levels(e1));
        assert(g1.levels(e2) == g2.levels(e2));
        assert(g2.levels(e1) <= g2.max_layer + 1);
        assert(g1.levels(e2) <= g1.max_layer + 1);
    }
}

} // verus!
