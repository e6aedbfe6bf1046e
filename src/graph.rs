use vstd::prelude::*;

use crate::block::Block;
use crate::cfg::MAX_BLOCK_LEN;
use crate::duplicate::{find_block, first_block_at, is_leader};

verus! {

/// A node of the CFG: a block's leader and its latency.
#[derive(Clone, Copy, Debug, PartialEq, Eq, Structural)]
pub struct Node {
    pub leader: u64,
    pub latency: u64,
}

/// A directed edge; its weight is the cost of entering the target.
#[derive(Clone, Copy, Debug, PartialEq, Eq, Structural)]
pub struct Edge {
    pub source: u64,
    pub target: u64,
    pub weight: u64,
}

/// A directed weighted graph keyed by block leader.
pub struct MappedGraph {
    pub nodes: Vec<Node>,
    pub edges: Vec<Edge>,
}

pub open spec fn node_leaders(nodes: Seq<Node>) -> Seq<u64> {
    nodes.map_values(|n: Node| n.leader)
}

pub open spec fn has_node(nodes: Seq<Node>, leader: u64) -> bool {
    node_leaders(nodes).contains(leader)
}

/// The position of the edge from `s` to `t`, if there is one.
pub open spec fn edge_at(edges: Seq<Edge>, s: u64, t: u64, k: int) -> bool {
    0 <= k < edges.len() && edges[k].source == s && edges[k].target == t
}

pub open spec fn has_edge(edges: Seq<Edge>, s: u64, t: u64) -> bool {
    exists|k: int| edge_at(edges, s, t, k)
}

impl MappedGraph {
    /// Leaders are unique, edges join nodes, and no two edges join the same pair.
    pub open spec fn wf(&self) -> bool {
        &&& node_leaders(self.nodes@).no_duplicates()
        &&& forall|k: int|
            0 <= k < self.edges@.len() ==> has_node(self.nodes@, (#[trigger] self.edges@[k]).source)
                && has_node(self.nodes@, self.edges@[k].target)
        &&& forall|k1: int, k2: int|
            0 <= k1 < k2 < self.edges@.len() ==> ((#[trigger] self.edges@[k1]).source, self.edges@[k1].target)
                != ((#[trigger] self.edges@[k2]).source, self.edges@[k2].target)
    }

    pub fn new() -> (r: MappedGraph)
        ensures
            r.wf(),
            r.nodes@.len() == 0,
            r.edges@.len() == 0,
    {
        let r = MappedGraph { nodes: Vec::new(), edges: Vec::new() };
        assert(node_leaders(r.nodes@) =~= seq![]);
        r
    }

    /// Position of the node led by `leader`.
    pub fn node_index(&self, leader: u64) -> (r: Option<usize>)
        ensures
            r matches Some(k) ==> k < self.nodes@.len() && self.nodes@[k as int].leader == leader,
            r is None <==> !has_node(self.nodes@, leader),
    {
        let mut k: usize = 0;
        while k < self.nodes.len()
            invariant
                k <= self.nodes@.len(),
                forall|q: int| 0 <= q < k ==> self.nodes@[q].leader != leader,
            decreases self.nodes@.len() - k,
        {
            if self.nodes[k].leader == leader {
                proof {
                    assert(node_leaders(self.nodes@)[k as int] == leader);
                }
                return Some(k);
            }
            k += 1;
        }
        proof {
            if has_node(self.nodes@, leader) {
                let q = choose|q: int| 0 <= q < node_leaders(self.nodes@).len() && node_leaders(self.nodes@)[q] == leader;
                assert(self.nodes@[q].leader == leader);
            }
        }
        None
    }

    /// Position of the edge from `s` to `t`.
    pub fn edge_index(&self, s: u64, t: u64) -> (r: Option<usize>)
        ensures
            r matches Some(k) ==> edge_at(self.edges@, s, t, k as int),
            r is None <==> !has_edge(self.edges@, s, t),
    {
        let mut k: usize = 0;
        while k < self.edges.len()
            invariant
                k <= self.edges@.len(),
                forall|q: int| 0 <= q < k ==> !edge_at(self.edges@, s, t, q),
            decreases self.edges@.len() - k,
        {
            if self.edges[k].source == s && self.edges[k].target == t {
                assert(edge_at(self.edges@, s, t, k as int));
                return Some(k);
            }
            k += 1;
        }
        None
    }

    /// Adds a node unless one with the same leader is there.
    pub fn add_node(&mut self, node: Node)
        requires
            old(self).wf(),
        ensures
            final(self).wf(),
            final(self).edges@ == old(self).edges@,
            has_node(old(self).nodes@, node.leader) ==> final(self).nodes@ == old(self).nodes@,
            !has_node(old(self).nodes@, node.leader) ==> final(self).nodes@ == old(self).nodes@.push(node),
    {
        match self.node_index(node.leader) {
            Some(_) => {},
            None => {
                let ghost before = self.nodes@;
                self.nodes.push(node);
                proof {
                    assert(node_leaders(self.nodes@) =~= node_leaders(before).push(node.leader));
                    assert forall|k: int| 0 <= k < self.edges@.len() implies has_node(self.nodes@, (#[trigger] self.edges@[k]).source)
                        && has_node(self.nodes@, self.edges@[k].target) by {
                        let e = self.edges@[k];
                        let q1 = choose|q: int| 0 <= q < node_leaders(before).len() && node_leaders(before)[q] == e.source;
                        assert(node_leaders(self.nodes@)[q1] == e.source);
                        let q2 = choose|q: int| 0 <= q < node_leaders(before).len() && node_leaders(before)[q] == e.target;
                        assert(node_leaders(self.nodes@)[q2] == e.target);
                    }
                }
            },
        }
    }

    /// Adds the edge from `source` to `target`, or sets its weight if it is there.
    /// Both ends must be nodes already.
    pub fn add_edge(&mut self, source: u64, target: u64, weight: u64)
        requires
            old(self).wf(),
            has_node(old(self).nodes@, source),
            has_node(old(self).nodes@, target),
        ensures
            final(self).wf(),
            final(self).nodes@ == old(self).nodes@,
            has_edge(old(self).edges@, source, target) ==> exists|k: int|
                edge_at(old(self).edges@, source, target, k) && final(self).edges@ == old(self).edges@.update(
                    k,
                    Edge { source, target, weight },
                ),
            !has_edge(old(self).edges@, source, target) ==> final(self).edges@ == old(self).edges@.push(
                Edge { source, target, weight },
            ),
    {
        let e = Edge { source, target, weight };
        match self.edge_index(source, target) {
            Some(k) => {
                let ghost edges0 = self.edges@;
                self.edges.set(k, e);
                proof {
                    assert(edge_at(old(self).edges@, source, target, k as int));
                    assert forall|k1: int, k2: int|
                        0 <= k1 < k2 < self.edges@.len() implies ((#[trigger] self.edges@[k1]).source, self.edges@[k1].target)
                            != ((#[trigger] self.edges@[k2]).source, self.edges@[k2].target) by {
                        assert((edges0[k1].source, edges0[k1].target) != (edges0[k2].source, edges0[k2].target));
                    }
                    assert forall|j: int| 0 <= j < self.edges@.len() implies has_node(self.nodes@, (#[trigger] self.edges@[j]).source)
                        && has_node(self.nodes@, self.edges@[j].target) by {
                        if j != k {
                            assert(self.edges@[j] == edges0[j]);
                        }
                    }
                }
            },
            None => {
                let ghost edges0 = self.edges@;
                self.edges.push(e);
                proof {
                    assert forall|k1: int, k2: int|
                        0 <= k1 < k2 < self.edges@.len() implies ((#[trigger] self.edges@[k1]).source, self.edges@[k1].target)
                            != ((#[trigger] self.edges@[k2]).source, self.edges@[k2].target) by {
                        if k2 == edges0.len() {
                            assert(!edge_at(edges0, source, target, k1));
                        } else {
                            assert((edges0[k1].source, edges0[k1].target) != (edges0[k2].source, edges0[k2].target));
                        }
                    }
                    assert forall|j: int| 0 <= j < self.edges@.len() implies has_node(self.nodes@, (#[trigger] self.edges@[j]).source)
                        && has_node(self.nodes@, self.edges@[j].target) by {
                        if j < edges0.len() {
                            assert(self.edges@[j] == edges0[j]);
                        }
                    }
                }
            },
        }
    }
}

/// The latency of the first block led by `leader`, when that block is short enough.
pub open spec fn block_latency(blocks: Seq<Block>, leader: u64, w: int) -> bool {
    exists|k: int| first_block_at(blocks, leader, k) && w == blocks[k].latency_spec()
}

/// A block is short when its latency fits in 64 bits with room to spare.
pub open spec fn short(b: Block) -> bool {
    b.instructions@.len() <= MAX_BLOCK_LEN
}

/// `g` is the CFG of `blocks`: every leader is a node whose latency is that of
/// its first block, every edge goes from a block to one of its targets that leads
/// a block and weighs that block's latency, and every such target has an edge.
pub open spec fn graph_of(blocks: Seq<Block>, g: MappedGraph) -> bool {
    &&& g.wf()
    &&& forall|k: int| 0 <= k < blocks.len() ==> has_node(g.nodes@, (#[trigger] blocks[k]).leader)
    &&& forall|q: int|
        0 <= q < g.nodes@.len() ==> is_leader(blocks, (#[trigger] g.nodes@[q]).leader) && block_latency(
            blocks,
            g.nodes@[q].leader,
            g.nodes@[q].latency as int,
        )
    &&& forall|k: int|
        0 <= k < g.edges@.len() ==> {
            let e = #[trigger] g.edges@[k];
            &&& is_leader(blocks, e.target)
            &&& block_latency(blocks, e.target, e.weight as int)
            &&& exists|q: int|
                0 <= q < blocks.len() && blocks[q].leader == e.source && blocks[q].targets_spec().contains(e.target)
        }
    &&& forall|q: int, m: int|
        0 <= q < blocks.len() && 0 <= m < blocks[q].targets_spec().len() && is_leader(
            blocks,
            #[trigger] blocks[q].targets_spec()[m],
        ) ==> has_edge(g.edges@, blocks[q].leader, blocks[q].targets_spec()[m])
}

/// The CFG of the blocks: a node for each leader, and an edge from a block to each
/// of its targets that leads a block, weighted by that block's latency. Targets
/// that lead no block are skipped.
pub fn build_graph(blocks: &Vec<Block>) -> (g: MappedGraph)
    requires
        forall|k: int| 0 <= k < blocks@.len() ==> short(#[trigger] blocks@[k]),
    ensures
        graph_of(blocks@, g),
{
    let mut g = MappedGraph::new();
    let mut k: usize = 0;
    while k < blocks.len()
        invariant
            k <= blocks@.len(),
            forall|j: int| 0 <= j < blocks@.len() ==> short(#[trigger] blocks@[j]),
            g.wf(),
            g.edges@.len() == 0,
            forall|j: int| 0 <= j < k ==> has_node(g.nodes@, (#[trigger] blocks@[j]).leader),
            forall|q: int|
                0 <= q < g.nodes@.len() ==> is_leader(blocks@, (#[trigger] g.nodes@[q]).leader)
                    && block_latency(blocks@, g.nodes@[q].leader, g.nodes@[q].latency as int),
        decreases blocks@.len() - k,
    {
        let leader = blocks[k].leader;
        let ghost nodes0 = g.nodes@;
        match find_block(blocks, leader) {
            Some(f) => {
                let lat = blocks[f].latency();
                g.add_node(Node { leader, latency: lat });
                proof {
                    assert(blocks@[k as int].leader == leader);
                    assert forall|j: int| 0 <= j < k + 1 implies has_node(g.nodes@, (#[trigger] blocks@[j]).leader) by {
                        if g.nodes@ != nodes0 {
                            assert(node_leaders(g.nodes@) =~= node_leaders(nodes0).push(leader));
                            if j < k {
                                let q = choose|q: int| 0 <= q < node_leaders(nodes0).len() && node_leaders(nodes0)[q] == blocks@[j].leader;
                                assert(node_leaders(g.nodes@)[q] == blocks@[j].leader);
                            } else {
                                assert(node_leaders(g.nodes@)[node_leaders(nodes0).len() as int] == leader);
                            }
                        }
                    }
                    assert forall|q: int|
                        0 <= q < g.nodes@.len() implies is_leader(blocks@, (#[trigger] g.nodes@[q]).leader)
                            && block_latency(blocks@, g.nodes@[q].leader, g.nodes@[q].latency as int) by {
                        if q < nodes0.len() {
                            assert(g.nodes@[q] == nodes0[q]);
                        } else {
                            assert(first_block_at(blocks@, leader, f as int));
                        }
                    }
                }
            },
            None => {
                assert(blocks@[k as int].leader == leader);
            },
        }
        k += 1;
    }
    let mut k: usize = 0;
    while k < blocks.len()
        invariant
            k <= blocks@.len(),
            forall|j: int| 0 <= j < blocks@.len() ==> short(#[trigger] blocks@[j]),
            g.wf(),
            forall|j: int| 0 <= j < blocks@.len() ==> has_node(g.nodes@, (#[trigger] blocks@[j]).leader),
            forall|q: int|
                0 <= q < g.nodes@.len() ==> is_leader(blocks@, (#[trigger] g.nodes@[q]).leader)
                    && block_latency(blocks@, g.nodes@[q].leader, g.nodes@[q].latency as int),
            forall|j: int|
                0 <= j < g.edges@.len() ==> {
                    let e = #[trigger] g.edges@[j];
                    &&& is_leader(blocks@, e.target)
                    &&& block_latency(blocks@, e.target, e.weight as int)
                    &&& exists|q: int|
                        0 <= q < blocks@.len() && blocks@[q].leader == e.source
                            && blocks@[q].targets_spec().contains(e.target)
                },
            forall|q: int, m: int|
                0 <= q < k && 0 <= m < blocks@[q].targets_spec().len() && is_leader(
                    blocks@,
                    #[trigger] blocks@[q].targets_spec()[m],
                ) ==> has_edge(g.edges@, blocks@[q].leader, blocks@[q].targets_spec()[m]),
        decreases blocks@.len() - k,
    {
        let b = &blocks[k];
        let ts = b.get_targets();
        let mut m: usize = 0;
        while m < ts.len()
            invariant
                k < blocks@.len(),
                *b == blocks@[k as int],
                ts@ == b.targets_spec(),
                m <= ts@.len(),
                forall|j: int| 0 <= j < blocks@.len() ==> short(#[trigger] blocks@[j]),
                g.wf(),
                forall|j: int| 0 <= j < blocks@.len() ==> has_node(g.nodes@, (#[trigger] blocks@[j]).leader),
                forall|q: int|
                    0 <= q < g.nodes@.len() ==> is_leader(blocks@, (#[trigger] g.nodes@[q]).leader)
                        && block_latency(blocks@, g.nodes@[q].leader, g.nodes@[q].latency as int),
                forall|j: int|
                    0 <= j < g.edges@.len() ==> {
                        let e = #[trigger] g.edges@[j];
                        &&& is_leader(blocks@, e.target)
                        &&& block_latency(blocks@, e.target, e.weight as int)
                        &&& exists|q: int|
                            0 <= q < blocks@.len() && blocks@[q].leader == e.source
                                && blocks@[q].targets_spec().contains(e.target)
                    },
                forall|q: int, mm: int|
                    (0 <= q < k || (q == k && mm < m)) && 0 <= mm < blocks@[q].targets_spec().len()
                        && is_leader(blocks@, #[trigger] blocks@[q].targets_spec()[mm]) ==> has_edge(
                        g.edges@,
                        blocks@[q].leader,
                        blocks@[q].targets_spec()[mm],
                    ),
            decreases ts@.len() - m,
        {
            let t = ts[m];
            match find_block(blocks, t) {
                Some(f) => {
                    let w = blocks[f].latency();
                    let ghost edges0 = g.edges@;
                    proof {
                        assert(blocks@[f as int].leader == t);
                    }
                    g.add_edge(b.leader, t, w);
                    proof {
                        assert(first_block_at(blocks@, t, f as int));
                        assert(blocks@[k as int].targets_spec()[m as int] == t);
                        assert(blocks@[k as int].targets_spec().contains(t));
                        if has_edge(edges0, b.leader, t) {
                            let i = choose|i: int|
                                edge_at(edges0, b.leader, t, i) && g.edges@ == edges0.update(
                                    i,
                                    Edge { source: b.leader, target: t, weight: w },
                                );
                            assert(edge_at(g.edges@, b.leader, t, i));
                            assert forall|q: int, mm: int|
                                (0 <= q < k || (q == k && mm < m)) && 0 <= mm < blocks@[q].targets_spec().len()
                                    && is_leader(blocks@, #[trigger] blocks@[q].targets_spec()[mm]) implies has_edge(
                                    g.edges@,
                                    blocks@[q].leader,
                                    blocks@[q].targets_spec()[mm],
                                ) by {
                                let i2 = choose|i2: int| edge_at(edges0, blocks@[q].leader, blocks@[q].targets_spec()[mm], i2);
                                assert(edge_at(g.edges@, blocks@[q].leader, blocks@[q].targets_spec()[mm], i2));
                            }
                            assert forall|j: int| 0 <= j < g.edges@.len() implies {
                                let e = #[trigger] g.edges@[j];
                                &&& is_leader(blocks@, e.target)
                                &&& block_latency(blocks@, e.target, e.weight as int)
                                &&& exists|q: int|
                                    0 <= q < blocks@.len() && blocks@[q].leader == e.source
                                        && blocks@[q].targets_spec().contains(e.target)
                            } by {
                                if j != i {
                                    assert(g.edges@[j] == edges0[j]);
                                }
                            }
                        } else {
                            let i = edges0.len() as int;
                            assert(edge_at(g.edges@, b.leader, t, i));
                            assert forall|q: int, mm: int|
                                (0 <= q < k || (q == k && mm < m)) && 0 <= mm < blocks@[q].targets_spec().len()
                                    && is_leader(blocks@, #[trigger] blocks@[q].targets_spec()[mm]) implies has_edge(
                                    g.edges@,
                                    blocks@[q].leader,
                                    blocks@[q].targets_spec()[mm],
                                ) by {
                                let i2 = choose|i2: int| edge_at(edges0, blocks@[q].leader, blocks@[q].targets_spec()[mm], i2);
                                assert(edge_at(g.edges@, blocks@[q].leader, blocks@[q].targets_spec()[mm], i2));
                            }
                            assert forall|j: int| 0 <= j < g.edges@.len() implies {
                                let e = #[trigger] g.edges@[j];
                                &&& is_leader(blocks@, e.target)
                                &&& block_latency(blocks@, e.target, e.weight as int)
                                &&& exists|q: int|
                                    0 <= q < blocks@.len() && blocks@[q].leader == e.source
                                        && blocks@[q].targets_spec().contains(e.target)
                            } by {
                                if j < i {
                                    assert(g.edges@[j] == edges0[j]);
                                }
                            }
                        }
                    }
                },
                None => {},
            }
            m += 1;
        }
        k += 1;
    }
    g
}

} // verus!
