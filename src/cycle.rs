use vstd::prelude::*;

use crate::graph::{has_node, node_leaders, Edge, MappedGraph, Node};
use crate::paths::{
    best_to, best_to_upto, latency_of, lemma_latency_along_ends, longest_paths_to, node_latency, overhead,
};
use crate::scc::{
    condense, edge_from, edges_complete, group_edge, groups_are_sccs, groups_connected, member_of, reaches, CondensedEdge, CondensedGraph,
};

verus! {

/// Some node is led by the target of `e` and has its weight as latency.
pub open spec fn enters_with_latency(nodes: Seq<Node>, e: Edge) -> bool {
    exists|q: int| 0 <= q < nodes.len() && nodes[q].leader == e.target && nodes[q].latency == e.weight
}

/// Each edge weighs the latency of the node it enters.
pub open spec fn weights_match(g: MappedGraph) -> bool {
    forall|k: int| 0 <= k < g.edges@.len() ==> enters_with_latency(g.nodes@, #[trigger] g.edges@[k])
}

/// The node led by `leader` belongs to group `c`.
pub open spec fn in_group(g: MappedGraph, cg: CondensedGraph, c: int, leader: u64) -> bool {
    exists|q: int| 0 <= q < g.nodes@.len() && g.nodes@[q].leader == leader && cg.node_group@[q] == c
}

/// Whether the node led by `leader` belongs to group `c`.
pub fn group_contains(g: &MappedGraph, cg: &CondensedGraph, c: usize, leader: u64) -> (r: bool)
    requires
        g.wf(),
        cg.groups_of(*g),
    ensures
        r == in_group(*g, *cg, c as int, leader),
{
    match g.node_index(leader) {
        Some(q) => {
            let r = cg.node_group[q] == c;
            proof {
                if in_group(*g, *cg, c as int, leader) {
                    let q2 = choose|q2: int| 0 <= q2 < g.nodes@.len() && g.nodes@[q2].leader == leader && cg.node_group@[q2] == c;
                    assert(node_leaders(g.nodes@)[q2] == node_leaders(g.nodes@)[q as int]);
                }
            }
            r
        },
        None => {
            proof {
                if in_group(*g, *cg, c as int, leader) {
                    let q2 = choose|q2: int| 0 <= q2 < g.nodes@.len() && g.nodes@[q2].leader == leader && cg.node_group@[q2] == c;
                    assert(node_leaders(g.nodes@)[q2] == leader);
                }
            }
            false
        },
    }
}

/// Edge `j` of `g` leaves group `c`.
pub open spec fn leaves(g: MappedGraph, cg: CondensedGraph, c: int, j: int) -> bool {
    &&& 0 <= j < g.edges@.len()
    &&& in_group(g, cg, c, g.edges@[j].source)
    &&& !in_group(g, cg, c, g.edges@[j].target)
}

/// Edge `j` of `g` enters group `c`.
pub open spec fn enters(g: MappedGraph, cg: CondensedGraph, c: int, j: int) -> bool {
    &&& 0 <= j < g.edges@.len()
    &&& !in_group(g, cg, c, g.edges@[j].source)
    &&& in_group(g, cg, c, g.edges@[j].target)
}

/// The first edge of `g` that leaves group `c`.
pub fn first_leaving(g: &MappedGraph, cg: &CondensedGraph, c: usize) -> (r: Option<usize>)
    requires
        g.wf(),
        cg.groups_of(*g),
    ensures
        r matches Some(j) ==> leaves(*g, *cg, c as int, j as int) && forall|j2: int| 0 <= j2 < j ==> !leaves(*g, *cg, c as int, j2),
        r is None ==> forall|j2: int| 0 <= j2 < g.edges@.len() ==> !leaves(*g, *cg, c as int, j2),
{
    let mut j: usize = 0;
    while j < g.edges.len()
        invariant
            j <= g.edges@.len(),
            g.wf(),
            cg.groups_of(*g),
            forall|j2: int| 0 <= j2 < j ==> !leaves(*g, *cg, c as int, j2),
        decreases g.edges@.len() - j,
    {
        let e = g.edges[j];
        if group_contains(g, cg, c, e.source) && !group_contains(g, cg, c, e.target) {
            return Some(j);
        }
        j += 1;
    }
    None
}

/// The first edge of `g` that enters group `c`.
pub fn first_entering(g: &MappedGraph, cg: &CondensedGraph, c: usize) -> (r: Option<usize>)
    requires
        g.wf(),
        cg.groups_of(*g),
    ensures
        r matches Some(j) ==> enters(*g, *cg, c as int, j as int) && forall|j2: int| 0 <= j2 < j ==> !enters(*g, *cg, c as int, j2),
        r is None ==> forall|j2: int| 0 <= j2 < g.edges@.len() ==> !enters(*g, *cg, c as int, j2),
{
    let mut j: usize = 0;
    while j < g.edges.len()
        invariant
            j <= g.edges@.len(),
            g.wf(),
            cg.groups_of(*g),
            forall|j2: int| 0 <= j2 < j ==> !enters(*g, *cg, c as int, j2),
        decreases g.edges@.len() - j,
    {
        let e = g.edges[j];
        if !group_contains(g, cg, c, e.source) && group_contains(g, cg, c, e.target) {
            return Some(j);
        }
        j += 1;
    }
    None
}

/// Edge `j` of `g` joins two nodes of group `c`, and does not enter `cut`.
pub open spec fn kept_edge(g: MappedGraph, cg: CondensedGraph, c: int, cut: Option<u64>, e: Edge) -> bool {
    &&& in_group(g, cg, c, e.source)
    &&& in_group(g, cg, c, e.target)
    &&& cut != Some(e.target)
}

/// The edges among the first `j` of `g` that `kept_edge` keeps, in order.
pub open spec fn kept_prefix(g: MappedGraph, cg: CondensedGraph, c: int, cut: Option<u64>, j: int) -> Seq<Edge>
    decreases j,
{
    if j <= 0 || j > g.edges@.len() {
        seq![]
    } else if kept_edge(g, cg, c, cut, g.edges@[j - 1]) {
        kept_prefix(g, cg, c, cut, j - 1).push(g.edges@[j - 1])
    } else {
        kept_prefix(g, cg, c, cut, j - 1)
    }
}

/// The subgraph of group `c`: its nodes, in node order, and the edges of `g`
/// between them, in edge order, except those that enter `cut`.
pub fn cycle_subgraph(g: &MappedGraph, cg: &CondensedGraph, c: usize, cut: Option<u64>) -> (s: MappedGraph)
    requires
        g.wf(),
        weights_match(*g),
        cg.groups_of(*g),
    ensures
        s.wf(),
        weights_match(s),
        s.edges@.len() <= g.edges@.len(),
        s.edges@ == kept_prefix(*g, *cg, c as int, cut, g.edges@.len() as int),
        (exists|j: int| leaves(*g, *cg, c as int, j)) ==> s.edges@.len() < g.edges@.len(),
        forall|q: int| 0 <= q < s.nodes@.len() ==> in_group(*g, *cg, c as int, (#[trigger] s.nodes@[q]).leader) && g.nodes@.contains(s.nodes@[q]),
        forall|q: int| 0 <= q < g.nodes@.len() && cg.node_group@[q] == c ==> s.nodes@.contains(#[trigger] g.nodes@[q]),
        forall|k: int| 0 <= k < s.edges@.len() ==> g.edges@.contains(#[trigger] s.edges@[k]) && kept_edge(*g, *cg, c as int, cut, s.edges@[k]),
        forall|k: int| 0 <= k < g.edges@.len() && kept_edge(*g, *cg, c as int, cut, #[trigger] g.edges@[k]) ==> s.edges@.contains(g.edges@[k]),
{
    let mut nodes: Vec<Node> = Vec::new();
    let ghost mut idx: Seq<int> = seq![];
    let mut p: usize = 0;
    while p < g.nodes.len()
        invariant
            p <= g.nodes@.len(),
            g.wf(),
            cg.groups_of(*g),
            idx.len() == nodes@.len(),
            forall|i: int| 0 <= i < idx.len() ==> 0 <= #[trigger] idx[i] < p && nodes@[i] == g.nodes@[idx[i]] && cg.node_group@[idx[i]] == c,
            forall|i1: int, i2: int| 0 <= i1 < i2 < idx.len() ==> #[trigger] idx[i1] < #[trigger] idx[i2],
            forall|q: int| 0 <= q < p && cg.node_group@[q] == c ==> nodes@.contains(#[trigger] g.nodes@[q]),
        decreases g.nodes@.len() - p,
    {
        let ghost n0 = nodes@;
        if cg.node_group[p] == c {
            nodes.push(g.nodes[p]);
            proof {
                idx = idx.push(p as int);
            }
        }
        proof {
            assert forall|q: int| 0 <= q < p + 1 && cg.node_group@[q] == c implies nodes@.contains(#[trigger] g.nodes@[q]) by {
                if q < p {
                    let i = choose|i: int| 0 <= i < n0.len() && n0[i] == g.nodes@[q];
                    assert(nodes@[i] == g.nodes@[q]);
                } else {
                    assert(nodes@[nodes@.len() - 1] == g.nodes@[q]);
                }
            }
        }
        p += 1;
    }
    proof {
        let ls = node_leaders(nodes@);
        let gls = node_leaders(g.nodes@);
        assert forall|i1: int, i2: int| 0 <= i1 < ls.len() && 0 <= i2 < ls.len() && i1 != i2 implies ls[i1] != ls[i2] by {
            assert(ls[i1] == gls[idx[i1]]);
            assert(ls[i2] == gls[idx[i2]]);
            if i1 < i2 {
                assert(idx[i1] < idx[i2]);
            } else {
                assert(idx[i2] < idx[i1]);
            }
        }
        assert forall|q: int| 0 <= q < nodes@.len() implies in_group(*g, *cg, c as int, (#[trigger] nodes@[q]).leader) && g.nodes@.contains(nodes@[q]) by {
            assert(nodes@[q] == g.nodes@[idx[q]]);
        }
    }
    let mut edges: Vec<Edge> = Vec::new();
    let ghost mut eidx: Seq<int> = seq![];
    let ghost mut skipped_exit = false;
    let mut j: usize = 0;
    while j < g.edges.len()
        invariant
            j <= g.edges@.len(),
            g.wf(),
            weights_match(*g),
            cg.groups_of(*g),
            node_leaders(nodes@).no_duplicates(),
            forall|q: int| 0 <= q < nodes@.len() ==> in_group(*g, *cg, c as int, (#[trigger] nodes@[q]).leader) && g.nodes@.contains(nodes@[q]),
            forall|q: int| 0 <= q < g.nodes@.len() && cg.node_group@[q] == c ==> nodes@.contains(#[trigger] g.nodes@[q]),
            eidx.len() == edges@.len(),
            forall|i: int| 0 <= i < eidx.len() ==> 0 <= #[trigger] eidx[i] < j && edges@[i] == g.edges@[eidx[i]],
            forall|i1: int, i2: int| 0 <= i1 < i2 < eidx.len() ==> #[trigger] eidx[i1] < #[trigger] eidx[i2],
            forall|k: int| 0 <= k < edges@.len() ==> kept_edge(*g, *cg, c as int, cut, #[trigger] edges@[k]),
            forall|k: int| 0 <= k < j && kept_edge(*g, *cg, c as int, cut, #[trigger] g.edges@[k]) ==> edges@.contains(g.edges@[k]),
            edges@.len() <= j,
            edges@ == kept_prefix(*g, *cg, c as int, cut, j as int),
            skipped_exit ==> edges@.len() < j,
            (exists|j2: int| 0 <= j2 < j && leaves(*g, *cg, c as int, j2)) ==> skipped_exit,
        decreases g.edges@.len() - j,
    {
        let e = g.edges[j];
        let ghost ed0 = edges@;
        let ghost exists_before = exists|j2: int| 0 <= j2 < j && leaves(*g, *cg, c as int, j2);
        let s_in = group_contains(g, cg, c, e.source);
        let t_in = group_contains(g, cg, c, e.target);
        let cut_here = match cut {
            Some(x) => x == e.target,
            None => false,
        };
        if s_in && t_in && !cut_here {
            edges.push(e);
            proof {
                eidx = eidx.push(j as int);
            }
        } else {
            proof {
                skipped_exit = true;
            }
        }
        proof {
            assert(g.edges@[j as int] == e);
            assert(kept_edge(*g, *cg, c as int, cut, e) == (s_in && t_in && !cut_here));
            assert forall|k: int| 0 <= k < j + 1 && kept_edge(*g, *cg, c as int, cut, #[trigger] g.edges@[k]) implies edges@.contains(g.edges@[k]) by {
                if k < j {
                    let i = choose|i: int| 0 <= i < ed0.len() && ed0[i] == g.edges@[k];
                    assert(edges@[i] == g.edges@[k]);
                } else {
                    assert(edges@[edges@.len() - 1] == e);
                }
            }
            if exists|j2: int| 0 <= j2 < j + 1 && leaves(*g, *cg, c as int, j2) {
                let j2 = choose|j2: int| 0 <= j2 < j + 1 && leaves(*g, *cg, c as int, j2);
                if j2 == j {
                    assert(!t_in);
                } else {
                    assert(exists_before);
                }
            }
        }
        j += 1;
    }
    let s = MappedGraph { nodes, edges };
    proof {
        assert forall|k: int|
            0 <= k < s.edges@.len() implies has_node(s.nodes@, (#[trigger] s.edges@[k]).source) && has_node(s.nodes@, s.edges@[k].target) by {
            let e = s.edges@[k];
            assert(kept_edge(*g, *cg, c as int, cut, e));
            let qs = choose|q: int| 0 <= q < g.nodes@.len() && g.nodes@[q].leader == e.source && cg.node_group@[q] == c;
            let qt = choose|q: int| 0 <= q < g.nodes@.len() && g.nodes@[q].leader == e.target && cg.node_group@[q] == c;
            assert(s.nodes@.contains(g.nodes@[qs]));
            assert(s.nodes@.contains(g.nodes@[qt]));
            let i1 = choose|i: int| 0 <= i < s.nodes@.len() && s.nodes@[i] == g.nodes@[qs];
            let i2 = choose|i: int| 0 <= i < s.nodes@.len() && s.nodes@[i] == g.nodes@[qt];
            assert(node_leaders(s.nodes@)[i1] == e.source);
            assert(node_leaders(s.nodes@)[i2] == e.target);
        }
        assert forall|k1: int, k2: int|
            0 <= k1 < k2 < s.edges@.len() implies ((#[trigger] s.edges@[k1]).source, s.edges@[k1].target)
                != ((#[trigger] s.edges@[k2]).source, s.edges@[k2].target) by {
            assert(eidx[k1] < eidx[k2]);
            assert(s.edges@[k1] == g.edges@[eidx[k1]]);
            assert(s.edges@[k2] == g.edges@[eidx[k2]]);
        }
        assert forall|k: int| 0 <= k < s.edges@.len() implies enters_with_latency(s.nodes@, #[trigger] s.edges@[k]) by {
            let e = s.edges@[k];
            assert(e == g.edges@[eidx[k]]);
            let q = choose|q: int| 0 <= q < g.nodes@.len() && g.nodes@[q].leader == g.edges@[eidx[k]].target && g.nodes@[q].latency == g.edges@[eidx[k]].weight;
            let qt = choose|q: int| 0 <= q < g.nodes@.len() && g.nodes@[q].leader == e.target && cg.node_group@[q] == c;
            assert(node_leaders(g.nodes@)[q] == node_leaders(g.nodes@)[qt]);
            assert(s.nodes@.contains(g.nodes@[qt]));
            assert(q == qt);
            let i = choose|i: int| 0 <= i < s.nodes@.len() && s.nodes@[i] == g.nodes@[qt];
            assert(s.nodes@[i].leader == e.target && s.nodes@[i].latency == e.weight);
        }
        assert forall|k: int| 0 <= k < s.edges@.len() implies g.edges@.contains(#[trigger] s.edges@[k]) && kept_edge(*g, *cg, c as int, cut, s.edges@[k]) by {
            assert(s.edges@[k] == g.edges@[eidx[k]]);
        }
    }
    s
}

/// Number of edges that enter `t`.
pub open spec fn count_into(edges: Seq<Edge>, t: u64) -> nat
    decreases edges.len(),
{
    if edges.len() == 0 {
        0
    } else {
        count_into(edges.drop_last(), t) + if edges.last().target == t {
            1nat
        } else {
            0nat
        }
    }
}

fn incoming_count(g: &MappedGraph, t: u64) -> (r: usize)
    ensures
        r == count_into(g.edges@, t),
{
    let mut r: usize = 0;
    let mut k: usize = 0;
    while k < g.edges.len()
        invariant
            k <= g.edges@.len(),
            r == count_into(g.edges@.subrange(0, k as int), t),
            r <= k,
        decreases g.edges@.len() - k,
    {
        assert(g.edges@.subrange(0, k as int + 1).drop_last() =~= g.edges@.subrange(0, k as int));
        if g.edges[k].target == t {
            r += 1;
        }
        k += 1;
    }
    assert(g.edges@.subrange(0, k as int) =~= g.edges@);
    r
}

/// How one cyclic group was resolved.
pub struct CycleInfo {
    pub group: usize,
    /// The block through which control enters the group.
    pub entry: u64,
    /// The block from which control leaves the group.
    pub exit: u64,
    /// Where the resolved path starts: the entry, or the exit after a detour.
    pub start: u64,
    /// Cost of the detour from the entry to the exit; 0 without one.
    pub overhead: u64,
    /// Weight of the heaviest path from the start to the exit once the cycle is cut.
    pub path: u64,
    /// The folded weight of the group.
    pub latency: u64,
    /// The exit lies on a cycle nested in the group.
    pub exit_nested: bool,
    /// The group's subgraph without the edges into the start.
    pub cut: MappedGraph,
    /// The condensation of `cut`, with its own cycles folded.
    pub inner: Condensation,
}

/// The group, in `inner`, of the node of `cut` led by `l`.
pub open spec fn group_in(cut: MappedGraph, inner: Condensation, l: u64) -> int {
    inner.graph.node_group@[node_leaders(cut.nodes@).index_of(l)] as int
}

/// The path term of a resolution is the heaviest path from the start's group to
/// the exit's group in the folded condensation of the cut subgraph.
pub open spec fn path_facts(info: CycleInfo) -> bool {
    &&& info.cut.wf()
    &&& has_node(info.cut.nodes@, info.start)
    &&& has_node(info.cut.nodes@, info.exit)
    &&& info.inner.graph.node_group@.len() == info.cut.nodes@.len()
    &&& best_to(
        info.inner.graph.edges@,
        group_in(info.cut, info.inner, info.start),
        group_in(info.cut, info.inner, info.exit),
    ) == Some(info.path as int)
    &&& info.exit_nested == (info.inner.graph.groups@[group_in(info.cut, info.inner, info.exit)]@.len() > 1)
}

/// The cut subgraph of a resolution holds the nodes of group `c` and, in order,
/// the edges of `g` between them except those into the start.
pub open spec fn cut_chosen(g: MappedGraph, cg: CondensedGraph, c: int, info: CycleInfo) -> bool {
    &&& info.cut.edges@ == kept_prefix(g, cg, c, Some(info.start), g.edges@.len() as int)
    &&& forall|q: int|
        0 <= q < info.cut.nodes@.len() ==> in_group(g, cg, c, (#[trigger] info.cut.nodes@[q]).leader)
            && g.nodes@.contains(info.cut.nodes@[q])
    &&& forall|q: int| 0 <= q < g.nodes@.len() && cg.node_group@[q] == c ==> info.cut.nodes@.contains(#[trigger] g.nodes@[q])
}

#[derive(Clone, Copy, Debug, PartialEq, Eq, Structural)]
pub enum CycleError {
    /// A cyclic group has no edge out of it.
    NoExit,
    /// No path joins the points of a cycle that the resolution needs.
    NoPath,
    /// A latency does not fit in 64 bits.
    Overflow,
}

/// The exit is the source of the first edge that leaves group `c`; the entry is
/// the target of the first edge that enters it, or the group's first node when
/// no edge enters it.
pub open spec fn ends_chosen(g: MappedGraph, cg: CondensedGraph, c: int, entry: u64, exit: u64) -> bool {
    &&& exists|j: int|
        #![trigger g.edges@[j]]
        leaves(g, cg, c, j) && g.edges@[j].source == exit && forall|j2: int| 0 <= j2 < j ==> !leaves(g, cg, c, j2)
    &&& (exists|j: int|
        #![trigger g.edges@[j]]
        enters(g, cg, c, j) && g.edges@[j].target == entry && forall|j2: int| 0 <= j2 < j ==> !enters(g, cg, c, j2))
        || ((forall|j: int| 0 <= j < g.edges@.len() ==> !enters(g, cg, c, j)) && entry == cg.groups@[c]@[0].leader)
}

/// The resolved path starts at the exit instead of the entry exactly when the
/// entry differs from the exit and more than one edge inside the group enters it.
pub open spec fn start_chosen(g: MappedGraph, cg: CondensedGraph, c: int, info: CycleInfo) -> bool {
    (info.start != info.entry) == (info.entry != info.exit && count_into(
        kept_prefix(g, cg, c, None, g.edges@.len() as int),
        info.entry,
    ) > 1)
}

proof fn lemma_kept_prefix_frame(g: MappedGraph, cg1: CondensedGraph, cg2: CondensedGraph, c: int, cut: Option<u64>, j: int)
    requires
        cg1.node_group@ == cg2.node_group@,
    ensures
        kept_prefix(g, cg1, c, cut, j) == kept_prefix(g, cg2, c, cut, j),
    decreases j,
{
    if 0 < j <= g.edges@.len() {
        lemma_kept_prefix_frame(g, cg1, cg2, c, cut, j - 1);
        let e = g.edges@[j - 1];
        assert(in_group(g, cg1, c, e.source) == in_group(g, cg2, c, e.source)) by {
            if in_group(g, cg1, c, e.source) {
                let q = choose|q: int| 0 <= q < g.nodes@.len() && g.nodes@[q].leader == e.source && cg1.node_group@[q] == c;
                assert(cg2.node_group@[q] == c);
            }
            if in_group(g, cg2, c, e.source) {
                let q = choose|q: int| 0 <= q < g.nodes@.len() && g.nodes@[q].leader == e.source && cg2.node_group@[q] == c;
                assert(cg1.node_group@[q] == c);
            }
        }
        assert(in_group(g, cg1, c, e.target) == in_group(g, cg2, c, e.target)) by {
            if in_group(g, cg1, c, e.target) {
                let q = choose|q: int| 0 <= q < g.nodes@.len() && g.nodes@[q].leader == e.target && cg1.node_group@[q] == c;
                assert(cg2.node_group@[q] == c);
            }
            if in_group(g, cg2, c, e.target) {
                let q = choose|q: int| 0 <= q < g.nodes@.len() && g.nodes@[q].leader == e.target && cg2.node_group@[q] == c;
                assert(cg1.node_group@[q] == c);
            }
        }
    }
}

proof fn lemma_in_group_frame(g: MappedGraph, cg1: CondensedGraph, cg2: CondensedGraph, c: int)
    requires
        cg1.node_group@ == cg2.node_group@,
    ensures
        forall|l: u64| in_group(g, cg1, c, l) == in_group(g, cg2, c, l),
{
    assert forall|l: u64| in_group(g, cg1, c, l) == in_group(g, cg2, c, l) by {
        if in_group(g, cg1, c, l) {
            let q = choose|q: int| 0 <= q < g.nodes@.len() && g.nodes@[q].leader == l && cg1.node_group@[q] == c;
            assert(cg2.node_group@[q] == c);
        }
        if in_group(g, cg2, c, l) {
            let q = choose|q: int| 0 <= q < g.nodes@.len() && g.nodes@[q].leader == l && cg2.node_group@[q] == c;
            assert(cg1.node_group@[q] == c);
        }
    }
}

proof fn lemma_resolved_frame(g: MappedGraph, cg1: CondensedGraph, cg2: CondensedGraph, info: CycleInfo)
    requires
        cg1.node_group@ == cg2.node_group@,
        cg1.groups@ == cg2.groups@,
        resolved_local(g, cg1, info),
    ensures
        resolved_local(g, cg2, info),
{
    let c = info.group as int;
    lemma_ends_chosen_frame(g, cg1, cg2, c, info.entry, info.exit);
    lemma_kept_prefix_frame(g, cg1, cg2, c, None, g.edges@.len() as int);
    lemma_kept_prefix_frame(g, cg1, cg2, c, Some(info.start), g.edges@.len() as int);
    lemma_in_group_frame(g, cg1, cg2, c);
}

proof fn lemma_ends_chosen_frame(g: MappedGraph, cg1: CondensedGraph, cg2: CondensedGraph, c: int, entry: u64, exit: u64)
    requires
        cg1.node_group@ == cg2.node_group@,
        cg1.groups@ == cg2.groups@,
        ends_chosen(g, cg1, c, entry, exit),
    ensures
        ends_chosen(g, cg2, c, entry, exit),
{
    assert forall|l: u64| in_group(g, cg1, c, l) == in_group(g, cg2, c, l) by {
        if in_group(g, cg1, c, l) {
            let q = choose|q: int| 0 <= q < g.nodes@.len() && g.nodes@[q].leader == l && cg1.node_group@[q] == c;
            assert(cg2.node_group@[q] == c);
        }
        if in_group(g, cg2, c, l) {
            let q = choose|q: int| 0 <= q < g.nodes@.len() && g.nodes@[q].leader == l && cg2.node_group@[q] == c;
            assert(cg1.node_group@[q] == c);
        }
    }
    assert forall|j: int| leaves(g, cg1, c, j) == leaves(g, cg2, c, j) && enters(g, cg1, c, j) == enters(g, cg2, c, j) by {
        if 0 <= j < g.edges@.len() {
            assert(in_group(g, cg1, c, g.edges@[j].source) == in_group(g, cg2, c, g.edges@[j].source));
            assert(in_group(g, cg1, c, g.edges@[j].target) == in_group(g, cg2, c, g.edges@[j].target));
        }
    }
}

/// What holds of the resolution of a cyclic group of `g`.
pub open spec fn cycle_facts(g: MappedGraph, info: CycleInfo) -> bool {
    &&& has_node(g.nodes@, info.entry)
    &&& has_node(g.nodes@, info.exit)
    &&& info.start == info.entry || info.start == info.exit
    &&& info.latency == node_latency(g.nodes@, info.start) + info.path + info.overhead
    &&& info.start == info.exit && info.entry != info.exit ==> info.overhead >= node_latency(g.nodes@, info.entry)
        + node_latency(g.nodes@, info.exit)
    &&& info.latency >= node_latency(g.nodes@, info.entry)
    &&& info.entry != info.exit && (!info.exit_nested || info.start == info.exit) ==> info.latency
        >= node_latency(g.nodes@, info.entry) + node_latency(g.nodes@, info.exit)
}

/// A condensed graph whose cyclic groups have been folded.
pub struct Condensation {
    pub graph: CondensedGraph,
    pub cycles: Vec<CycleInfo>,
}

/// Two different nodes of `g` reach each other: `g` has a cycle through more
/// than one node.
pub open spec fn has_cycle(g: MappedGraph) -> bool {
    exists|q1: int, q2: int|
        0 <= q1 < g.nodes@.len() && 0 <= q2 < g.nodes@.len() && (#[trigger] g.nodes@[q1]).leader != (
        #[trigger] g.nodes@[q2]).leader && reaches(g.edges@, g.nodes@[q1].leader, g.nodes@[q2].leader) && reaches(
            g.edges@,
            g.nodes@[q2].leader,
            g.nodes@[q1].leader,
        )
}

/// Some listed resolution is the one of group `c`, with latency `w`.
pub open spec fn resolved_as(cycles: Seq<CycleInfo>, c: int, w: int) -> bool {
    exists|i: int| 0 <= i < cycles.len() && (#[trigger] cycles[i]).group == c && cycles[i].latency == w
}

/// What `condensate_graph` promises of its result for `g`.
/// What holds of the resolution `info` of group `c` of `cg`, a condensation of
/// `g`, apart from the folding of its own cut subgraph.
pub open spec fn resolved_local(g: MappedGraph, cg: CondensedGraph, info: CycleInfo) -> bool {
    let c = info.group as int;
    &&& c < cg.groups@.len()
    &&& cg.groups@[c]@.len() > 1
    &&& cycle_facts(g, info)
    &&& ends_chosen(g, cg, c, info.entry, info.exit)
    &&& start_chosen(g, cg, c, info)
    &&& path_facts(info)
    &&& cut_chosen(g, cg, c, info)
    &&& info.cut.edges@.len() < g.edges@.len()
}

pub open spec fn folded(g: MappedGraph, r: Condensation) -> bool
    decreases g.edges@.len(),
{
    let cg = r.graph;
    &&& cg.groups_of(g)
    &&& cg.descending()
    &&& groups_connected(g, cg.node_group@)
    &&& groups_are_sccs(g, cg.node_group@)
    &&& edges_complete(g, cg)
    &&& cg.groups_by_leader()
    &&& forall|i: int|
        0 <= i < r.cycles@.len() ==> {
            &&& resolved_local(g, cg, #[trigger] r.cycles@[i])
            &&& r.cycles@[i].cut.edges@.len() < g.edges@.len()
            &&& folded(r.cycles@[i].cut, r.cycles@[i].inner)
        }
    &&& forall|i: int, j: int| 0 <= i < j < r.cycles@.len() ==> (#[trigger] r.cycles@[i]).group > (#[trigger] r.cycles@[j]).group
    &&& forall|c: int|
        0 <= c < cg.groups@.len() && (#[trigger] cg.groups@[c])@.len() > 1 ==> exists|i: int|
            0 <= i < r.cycles@.len() && (#[trigger] r.cycles@[i]).group == c
    &&& forall|k: int|
        0 <= k < cg.edges@.len() ==> {
            let e = #[trigger] cg.edges@[k];
            if cg.groups@[e.target as int]@.len() > 1 {
                resolved_as(r.cycles@, e.target as int, e.weight as int)
            } else {
                edge_from(g, cg.node_group@, e)
            }
        }
}

proof fn lemma_best_to_upto_witness(edges: Seq<CondensedEdge>, c: int, x: int, k: int)
    requires
        best_to_upto(edges, c, x, k) is Some,
    ensures
        exists|k2: int|
            0 <= k2 < k && k2 < edges.len() && (#[trigger] edges[k2]).source == c && edges[k2].target < c
                && best_to(edges, edges[k2].target as int, x) is Some && best_to_upto(edges, c, x, k)->0
                >= edges[k2].weight + best_to(edges, edges[k2].target as int, x)->0,
    decreases k,
{
    let e = edges[k - 1];
    let rest = best_to_upto(edges, c, x, k - 1);
    if e.source == c && e.target < c && best_to(edges, e.target as int, x) is Some {
        assert(edges[k - 1] == e);
    } else {
        lemma_best_to_upto_witness(edges, c, x, k - 1);
    }
    if rest is Some {
        lemma_best_to_upto_witness(edges, c, x, k - 1);
    }
}

/// A path that ends at `x` costs at least the weight of the edges that enter `x`.
proof fn lemma_best_to_last_edge(edges: Seq<CondensedEdge>, c: int, x: int, w: int)
    requires
        best_to(edges, c, x) is Some,
        c != x,
        forall|k: int| 0 <= k < edges.len() && (#[trigger] edges[k]).target == x ==> edges[k].weight == w,
    ensures
        best_to(edges, c, x)->0 >= w,
    decreases c,
{
    lemma_best_to_upto_witness(edges, c, x, edges.len() as int);
    let k2 = choose|k2: int|
        0 <= k2 < edges.len() && k2 < edges.len() && (#[trigger] edges[k2]).source == c && edges[k2].target < c
            && best_to(edges, edges[k2].target as int, x) is Some && best_to_upto(edges, c, x, edges.len() as int)->0
            >= edges[k2].weight + best_to(edges, edges[k2].target as int, x)->0;
    let t = edges[k2].target as int;
    if t == x {
        assert(best_to(edges, t, x) == Some(0int));
    } else {
        lemma_best_to_last_edge(edges, t, x, w);
    }
}

/// A node of `s` taken from `g` has the same latency in both.
proof fn lemma_same_latency(g: MappedGraph, s: MappedGraph, n: Node)
    requires
        g.wf(),
        s.wf(),
        g.nodes@.contains(n),
        s.nodes@.contains(n),
    ensures
        node_latency(g.nodes@, n.leader) == n.latency,
        node_latency(s.nodes@, n.leader) == n.latency,
{
    let qg = choose|q: int| 0 <= q < g.nodes@.len() && g.nodes@[q] == n;
    let qs = choose|q: int| 0 <= q < s.nodes@.len() && s.nodes@[q] == n;
    let lg = node_leaders(g.nodes@);
    let ls = node_leaders(s.nodes@);
    assert(lg[qg] == n.leader);
    assert(ls[qs] == n.leader);
    let ig = lg.index_of(n.leader);
    let is = ls.index_of(n.leader);
    assert(lg[ig] == n.leader);
    assert(ls[is] == n.leader);
}

/// A group of two nodes or more contains a cycle of `g`.
proof fn lemma_cyclic_group(g: MappedGraph, cg: CondensedGraph, c: int)
    requires
        cg.groups_of(g),
        groups_connected(g, cg.node_group@),
        0 <= c < cg.groups@.len(),
        cg.groups@[c]@.len() > 1,
    ensures
        has_cycle(g),
{
    let grp = cg.groups@[c]@;
    assert(member_of(g, cg.node_group@, c, grp[0]));
    assert(member_of(g, cg.node_group@, c, grp[1]));
    let q1 = choose|q: int| 0 <= q < g.nodes@.len() && g.nodes@[q] == grp[0] && cg.node_group@[q] == c;
    let q2 = choose|q: int| 0 <= q < g.nodes@.len() && g.nodes@[q] == grp[1] && cg.node_group@[q] == c;
    assert(grp[0].leader != grp[1].leader);
    assert(cg.node_group@[q1] == cg.node_group@[q2]);
    assert(reaches(g.edges@, g.nodes@[q1].leader, g.nodes@[q2].leader));
    assert(reaches(g.edges@, g.nodes@[q2].leader, g.nodes@[q1].leader));
}

/// When the exit is alone in its group of the cut subgraph's condensation and
/// the path starts elsewhere, the path costs at least the exit's latency.
proof fn lemma_exit_bound(
    g: MappedGraph,
    cg: CondensedGraph,
    c: int,
    cut: MappedGraph,
    inner: Condensation,
    qs: usize,
    qx: usize,
    gs: usize,
    gx: usize,
    path: u64,
    exit: u64,
    start: u64,
)
    requires
        g.wf(),
        cut.wf(),
        weights_match(cut),
        folded(cut, inner),
        in_group(g, cg, c, exit),
        forall|q: int| 0 <= q < g.nodes@.len() && cg.node_group@[q] == c ==> cut.nodes@.contains(#[trigger] g.nodes@[q]),
        forall|q: int| 0 <= q < cut.nodes@.len() ==> g.nodes@.contains(#[trigger] cut.nodes@[q]),
        qs < cut.nodes@.len(),
        qx < cut.nodes@.len(),
        cut.nodes@[qs as int].leader == start,
        cut.nodes@[qx as int].leader == exit,
        inner.graph.node_group@[qs as int] == gs,
        inner.graph.node_group@[qx as int] == gx,
        gx < inner.graph.groups@.len(),
        gs < inner.graph.groups@.len(),
        inner.graph.groups@[gx as int]@.len() <= 1,
        start != exit,
        best_to(inner.graph.edges@, gs as int, gx as int) == Some(path as int),
    ensures
        path >= node_latency(g.nodes@, exit),
{
    let ig = inner.graph;
    // the exit is alone in its inner group, so the start is not in it
    let nx = cut.nodes@[qx as int];
    assert(ig.groups@[gx as int]@.contains(nx));
    assert(ig.groups@[gs as int]@.contains(cut.nodes@[qs as int]));
    assert(gs != gx) by {
        if gs == gx {
            assert(ig.groups@[gx as int]@.len() == 1);
            let i1 = choose|i: int| 0 <= i < ig.groups@[gx as int]@.len() && ig.groups@[gx as int]@[i] == nx;
            let i2 = choose|i: int| 0 <= i < ig.groups@[gx as int]@.len() && ig.groups@[gx as int]@[i] == cut.nodes@[qs as int];
            assert(node_leaders(cut.nodes@)[qx as int] == node_leaders(cut.nodes@)[qs as int]);
        }
    }
    // every edge into the exit's group weighs the exit's latency
    assert forall|k: int| 0 <= k < ig.edges@.len() && (#[trigger] ig.edges@[k]).target == gx implies ig.edges@[k].weight == nx.latency by {
        let e = ig.edges@[k];
        assert(edge_from(cut, ig.node_group@, e));
        let (j, q1, q2) = choose|j: int, q1: int, q2: int|
            0 <= j < cut.edges@.len() && 0 <= q1 < cut.nodes@.len() && 0 <= q2 < cut.nodes@.len() && cut.nodes@[q1].leader
                == cut.edges@[j].source && cut.nodes@[q2].leader == cut.edges@[j].target && ig.node_group@[q1] == e.source
                && ig.node_group@[q2] == e.target && e.weight == cut.edges@[j].weight;
        assert(member_of(cut, ig.node_group@, gx as int, ig.groups@[gx as int]@[0]));
        assert(ig.groups@[gx as int]@.contains(cut.nodes@[q2]));
        let i1 = choose|i: int| 0 <= i < ig.groups@[gx as int]@.len() && ig.groups@[gx as int]@[i] == nx;
        let i2 = choose|i: int| 0 <= i < ig.groups@[gx as int]@.len() && ig.groups@[gx as int]@[i] == cut.nodes@[q2];
        assert(cut.nodes@[q2] == nx);
        assert(enters_with_latency(cut.nodes@, cut.edges@[j]));
        let q3 = choose|q3: int| 0 <= q3 < cut.nodes@.len() && cut.nodes@[q3].leader == cut.edges@[j].target && cut.nodes@[q3].latency == cut.edges@[j].weight;
        assert(node_leaders(cut.nodes@)[q3] == node_leaders(cut.nodes@)[q2]);
    }
    assert(best_to(ig.edges@, gs as int, gx as int) == Some(path as int));
    lemma_best_to_last_edge(ig.edges@, gs as int, gx as int, nx.latency as int);
    let qxg = choose|q: int| 0 <= q < g.nodes@.len() && g.nodes@[q].leader == exit && cg.node_group@[q] == c;
    assert(cut.nodes@.contains(g.nodes@[qxg]));
    let ic = choose|i: int| 0 <= i < cut.nodes@.len() && cut.nodes@[i] == g.nodes@[qxg];
    assert(node_leaders(cut.nodes@)[ic] == node_leaders(cut.nodes@)[qx as int]);
    assert(nx == g.nodes@[qxg]);
    lemma_same_latency(g, cut, nx);
    assert(node_latency(g.nodes@, exit) == nx.latency);
}

/// Resolves the cyclic group `c` of `g`: the worst cost of traversing it.
///
/// The exit is the source of the first edge that leaves the group; the entry is
/// the target of the first edge that enters it, or the group's first node when
/// none does. When the entry differs from the exit and has more than one edge
/// into it from inside the group, the worst simple path from the entry to the
/// exit is taken as a detour and the resolved path starts at the exit instead.
/// The group's subgraph is cut by removing the edges into the start, condensed in
/// turn (which resolves the cycles nested in it), and the heaviest path from the
/// start to the exit is found there, starting from the start's own latency.
#[verifier::rlimit(100)]
fn resolve_cycle(g: &MappedGraph, cg: &CondensedGraph, c: usize) -> (r: Result<CycleInfo, CycleError>)
    requires
        g.wf(),
        weights_match(*g),
        cg.groups_of(*g),
        c < cg.groups@.len(),
        cg.groups@[c as int]@.len() > 1,
    ensures
        r matches Ok(info) ==> info.group == c && resolved_local(*g, *cg, info) && folded(info.cut, info.inner),
    decreases g.edges@.len(), 1nat,
{
    let j_exit = match first_leaving(g, cg, c) {
        Some(j) => j,
        None => {
            return Err(CycleError::NoExit);
        },
    };
    let exit = g.edges[j_exit].source;
    let entering = first_entering(g, cg, c);
    let entry = match entering {
        Some(j) => g.edges[j].target,
        None => {
            proof {
                assert(member_of(*g, cg.node_group@, c as int, cg.groups@[c as int]@[0]));
                let q = choose|q: int| 0 <= q < g.nodes@.len() && g.nodes@[q] == cg.groups@[c as int]@[0] && cg.node_group@[q] == c;
            }
            cg.groups[c][0].leader
        },
    };
    assert(in_group(*g, *cg, c as int, entry));
    let intact = cycle_subgraph(g, cg, c, None);
    proof {
        let qx = choose|q: int| 0 <= q < g.nodes@.len() && g.nodes@[q].leader == exit && cg.node_group@[q] == c;
        let qe = choose|q: int| 0 <= q < g.nodes@.len() && g.nodes@[q].leader == entry && cg.node_group@[q] == c;
        assert(intact.nodes@.contains(g.nodes@[qx]));
        assert(intact.nodes@.contains(g.nodes@[qe]));
        let i1 = choose|i: int| 0 <= i < intact.nodes@.len() && intact.nodes@[i] == g.nodes@[qx];
        let i2 = choose|i: int| 0 <= i < intact.nodes@.len() && intact.nodes@[i] == g.nodes@[qe];
        assert(node_leaders(intact.nodes@)[i1] == exit);
        assert(node_leaders(intact.nodes@)[i2] == entry);
        lemma_same_latency(*g, intact, g.nodes@[qx]);
        lemma_same_latency(*g, intact, g.nodes@[qe]);
    }
    let mut start = entry;
    let mut extra: u64 = 0;
    if entry != exit && incoming_count(&intact, entry) > 1 {
        match overhead(&intact, entry, exit) {
            Ok(Some(v)) => {
                proof {
                    let p = choose|p: Seq<u64>| crate::paths::is_simple_path(intact, p, entry, exit) && v == crate::paths::latency_along(intact.nodes@, p);
                    assert(p.len() >= 2) by {
                        if p.len() < 2 {
                            assert(p[0] == p.last());
                        }
                    }
                    lemma_latency_along_ends(intact.nodes@, p);
                }
                extra = v;
                start = exit;
            },
            Ok(None) => {
                return Err(CycleError::NoPath);
            },
            Err(_) => {
                return Err(CycleError::Overflow);
            },
        }
    }
    let cut = cycle_subgraph(g, cg, c, Some(start));
    assert(leaves(*g, *cg, c as int, j_exit as int));
    let inner = condensate_graph(&cut)?;
    proof {
        let qx = choose|q: int| 0 <= q < g.nodes@.len() && g.nodes@[q].leader == exit && cg.node_group@[q] == c;
        let qs = choose|q: int| 0 <= q < g.nodes@.len() && g.nodes@[q].leader == start && cg.node_group@[q] == c;
        assert(cut.nodes@.contains(g.nodes@[qx]));
        assert(cut.nodes@.contains(g.nodes@[qs]));
        let i1 = choose|i: int| 0 <= i < cut.nodes@.len() && cut.nodes@[i] == g.nodes@[qx];
        let i2 = choose|i: int| 0 <= i < cut.nodes@.len() && cut.nodes@[i] == g.nodes@[qs];
        assert(node_leaders(cut.nodes@)[i1] == exit);
        assert(node_leaders(cut.nodes@)[i2] == start);
        lemma_same_latency(*g, cut, g.nodes@[qx]);
        lemma_same_latency(*g, cut, g.nodes@[qs]);
    }
    let qs = cut.node_index(start).unwrap();
    let qx = cut.node_index(exit).unwrap();
    let gs = inner.graph.node_group[qs];
    let gx = inner.graph.node_group[qx];
    let n = inner.graph.groups.len();
    let to = match longest_paths_to(&inner.graph.edges, n, gx) {
        Ok(v) => v,
        Err(_) => {
            return Err(CycleError::Overflow);
        },
    };
    let path = match to[gs] {
        Some(v) => v,
        None => {
            return Err(CycleError::NoPath);
        },
    };
    let lat_start = latency_of(&cut, start);
    let latency = match lat_start.checked_add(path) {
        Some(a) => match a.checked_add(extra) {
            Some(b) => b,
            None => {
                return Err(CycleError::Overflow);
            },
        },
        None => {
            return Err(CycleError::Overflow);
        },
    };
    let exit_nested = inner.graph.groups[gx].len() > 1;
    proof {
        let ig = inner.graph;
        if entry != exit && !exit_nested && start == entry {
            let qxg = choose|q: int| 0 <= q < g.nodes@.len() && g.nodes@[q].leader == exit && cg.node_group@[q] == c;
            assert(cut.nodes@.contains(g.nodes@[qxg]));
            lemma_exit_bound(*g, *cg, c as int, cut, inner, qs, qx, gs, gx, path, exit, start);
        }
        let qe = choose|q: int| 0 <= q < g.nodes@.len() && g.nodes@[q].leader == entry && cg.node_group@[q] == c;
        let qx2 = choose|q: int| 0 <= q < g.nodes@.len() && g.nodes@[q].leader == exit && cg.node_group@[q] == c;
        assert(node_leaders(g.nodes@)[qe] == entry);
        assert(node_leaders(g.nodes@)[qx2] == exit);
        assert(has_node(g.nodes@, entry));
        assert(has_node(g.nodes@, exit));
        assert(leaves(*g, *cg, c as int, j_exit as int) && g.edges@[j_exit as int].source == exit);
        match entering {
            Some(j) => {
                assert(enters(*g, *cg, c as int, j as int) && g.edges@[j as int].target == entry);
            },
            None => {},
        }
    }
    let ghost gcut = cut;
    let ghost ginner = inner;
    proof {
        let ls = node_leaders(cut.nodes@);
        assert(ls[qs as int] == start);
        assert(ls[qx as int] == exit);
        assert(ls.contains(start) && ls.contains(exit));
        let is = ls.index_of(start);
        let ix = ls.index_of(exit);
        assert(ls[is] == start && ls[ix] == exit);
        assert(is == qs && ix == qx);
        assert(best_to(inner.graph.edges@, gs as int, gx as int) == Some(path as int));
    }
    let info = CycleInfo { group: c, entry, exit, start, overhead: extra, path, latency, exit_nested, cut, inner };
    proof {
        assert(info.cut == gcut && info.inner == ginner);
        assert(path_facts(info));
        assert(cut_chosen(*g, *cg, c as int, info));
        assert(cycle_facts(*g, info));
    }
    Ok(info)
}

/// Condenses `g` and folds each of its cyclic groups, taken in topological
/// order, into a single weight: every edge into the group then weighs the
/// group's resolved latency. Nested cycles are resolved by the same procedure
/// on the group's cut subgraph.
#[verifier::rlimit(100)]
pub fn condensate_graph(g: &MappedGraph) -> (r: Result<Condensation, CycleError>)
    requires
        g.wf(),
        weights_match(*g),
    ensures
        r matches Ok(res) ==> folded(*g, res),
        r is Err ==> has_cycle(*g),
    decreases g.edges@.len(), 2nat,
{
    let mut cg = condense(g);
    let ghost groups0 = cg.groups@;
    let ghost ng0 = cg.node_group@;
    let ghost edges0 = cg.edges@;
    let ghost cg_init = cg;
    let mut cycles: Vec<CycleInfo> = Vec::new();
    let mut c = cg.groups.len();
    while c > 0
        invariant
            g.wf(),
            weights_match(*g),
            c <= cg.groups@.len(),
            cg.groups@ == groups0,
            cg.node_group@ == ng0,
            cg.groups_of(*g),
            cg.descending(),
            groups_connected(*g, cg.node_group@),
            groups_are_sccs(*g, cg.node_group@),
            cg.groups_by_leader(),
            edges_complete(*g, cg_init),
            cg_init.edges@ == edges0,
            cg_init.node_group@ == ng0,
            cg.edges@.len() == edges0.len(),
            forall|k: int|
                0 <= k < edges0.len() ==> (#[trigger] cg.edges@[k]).source == edges0[k].source && cg.edges@[k].target
                    == edges0[k].target,
            forall|i: int|
                0 <= i < cycles@.len() ==> c <= (#[trigger] cycles@[i]).group && resolved_local(*g, cg, cycles@[i])
                    && folded(cycles@[i].cut, cycles@[i].inner),
            forall|i: int, j: int| 0 <= i < j < cycles@.len() ==> (#[trigger] cycles@[i]).group > (#[trigger] cycles@[j]).group,
            forall|c2: int|
                c <= c2 < cg.groups@.len() && (#[trigger] cg.groups@[c2])@.len() > 1 ==> exists|i: int|
                    0 <= i < cycles@.len() && (#[trigger] cycles@[i]).group == c2,
            forall|k: int|
                0 <= k < cg.edges@.len() ==> {
                    let e = #[trigger] cg.edges@[k];
                    if cg.groups@[e.target as int]@.len() > 1 && e.target >= c {
                        resolved_as(cycles@, e.target as int, e.weight as int)
                    } else {
                        edge_from(*g, cg.node_group@, e)
                    }
                },
        decreases c,
    {
        c -= 1;
        let ghost cg_start = cg;
        if cg.groups[c].len() > 1 {
            let info = match resolve_cycle(g, &cg, c) {
                Ok(info) => info,
                Err(e) => {
                    proof {
                        lemma_cyclic_group(*g, cg, c as int);
                    }
                    return Err(e);
                },
            };
            let ghost cycles0 = cycles@;
            let lat = info.latency;
            let ghost gi = info;
            cycles.push(info);
            proof {
                assert(cycles@[cycles@.len() - 1] == gi);
                assert forall|i: int|
                    0 <= i < cycles@.len() implies c <= (#[trigger] cycles@[i]).group && resolved_local(*g, cg, cycles@[i])
                        && folded(cycles@[i].cut, cycles@[i].inner) by {
                    if i < cycles0.len() {
                        assert(cycles@[i] == cycles0[i]);
                    }
                }
                assert forall|c2: int|
                    c <= c2 < cg.groups@.len() && (#[trigger] cg.groups@[c2])@.len() > 1 implies exists|i: int|
                        0 <= i < cycles@.len() && (#[trigger] cycles@[i]).group == c2 by {
                    if c2 > c {
                        let i = choose|i: int| 0 <= i < cycles0.len() && (#[trigger] cycles0[i]).group == c2;
                        assert(cycles@[i] == cycles0[i]);
                    }
                }
                assert forall|i: int, j: int| 0 <= i < j < cycles@.len() implies (#[trigger] cycles@[i]).group > (#[trigger] cycles@[j]).group by {
                    assert(cycles@[i] == cycles0[i]);
                    if j < cycles0.len() {
                        assert(cycles@[j] == cycles0[j]);
                    }
                }
                assert forall|w: int, t: int| resolved_as(cycles0, t, w) implies resolved_as(cycles@, t, w) by {
                    let i = choose|i: int| 0 <= i < cycles0.len() && (#[trigger] cycles0[i]).group == t && cycles0[i].latency == w;
                    assert(cycles@[i] == cycles0[i]);
                }
            }
            let mut k: usize = 0;
            while k < cg.edges.len()
                invariant
                    c < cg.groups@.len(),
                    cg.groups@ == groups0,
                    cg.node_group@ == ng0,
                    cg.groups_of(*g),
                    cg.descending(),
                    groups0[c as int]@.len() > 1,
                    resolved_as(cycles@, c as int, lat as int),
                    cg.edges@.len() == edges0.len(),
                    forall|k2: int|
                        0 <= k2 < edges0.len() ==> (#[trigger] cg.edges@[k2]).source == edges0[k2].source
                            && cg.edges@[k2].target == edges0[k2].target,
                    k <= cg.edges@.len(),
                    forall|k2: int|
                        0 <= k2 < cg.edges@.len() ==> {
                            let e = #[trigger] cg.edges@[k2];
                            if cg.groups@[e.target as int]@.len() > 1 && (e.target > c || (e.target == c && k2 < k)) {
                                resolved_as(cycles@, e.target as int, e.weight as int)
                            } else {
                                edge_from(*g, cg.node_group@, e)
                            }
                        },
                decreases cg.edges@.len() - k,
            {
                let e = cg.edges[k];
                if e.target == c {
                    let ghost edges0 = cg.edges@;
                    cg.edges.set(k, CondensedEdge { source: e.source, target: e.target, weight: lat });
                    proof {
                        assert forall|k2: int| 0 <= k2 < cg.edges@.len() implies (#[trigger] cg.edges@[k2]).target
                            < cg.edges@[k2].source < cg.groups@.len() by {
                            assert(edges0[k2].target < edges0[k2].source);
                        }
                        assert forall|k2: int|
                            0 <= k2 < cg.edges@.len() implies {
                                let e2 = #[trigger] cg.edges@[k2];
                                if cg.groups@[e2.target as int]@.len() > 1 && (e2.target > c || (e2.target == c && k2 < k + 1)) {
                                    resolved_as(cycles@, e2.target as int, e2.weight as int)
                                } else {
                                    edge_from(*g, cg.node_group@, e2)
                                }
                            } by {
                            if k2 != k {
                                assert(cg.edges@[k2] == edges0[k2]);
                            }
                        }
                    }
                }
                k += 1;
            }
            proof {
                assert forall|i: int| 0 <= i < cycles@.len() implies resolved_local(*g, cg, #[trigger] cycles@[i]) by {
                    lemma_resolved_frame(*g, cg_start, cg, cycles@[i]);
                }
            }
        }
    }
    let ghost gcy = cycles@;
    let ghost ggr = cg.groups@;
    proof {
        assert forall|j: int, qs: int, qt: int|
            #![trigger g.edges@[j], g.nodes@[qs], g.nodes@[qt]]
            0 <= j < g.edges@.len() && 0 <= qs < g.nodes@.len() && 0 <= qt < g.nodes@.len() && g.nodes@[qs].leader
                == g.edges@[j].source && g.nodes@[qt].leader == g.edges@[j].target && cg.node_group@[qs]
                != cg.node_group@[qt] implies group_edge(cg.edges@, cg.node_group@[qs] as int, cg.node_group@[qt] as int) by {
            assert(group_edge(cg_init.edges@, cg_init.node_group@[qs] as int, cg_init.node_group@[qt] as int));
            let k = choose|k: int| 0 <= k < edges0.len() && (#[trigger] edges0[k]).source == ng0[qs] as int && edges0[k].target == ng0[qt] as int;
            assert(cg.edges@[k].source == edges0[k].source);
        }
    }
    let ghost cge = cg.edges@;
    let res = Condensation { graph: cg, cycles };
    assert(res.graph.edges@ == cge);
    assert forall|c2: int|
        0 <= c2 < res.graph.groups@.len() && (#[trigger] res.graph.groups@[c2])@.len() > 1 implies exists|i: int|
            0 <= i < res.cycles@.len() && (#[trigger] res.cycles@[i]).group == c2 by {
        assert(res.graph.groups@[c2] == ggr[c2]);
        let i = choose|i: int| 0 <= i < gcy.len() && (#[trigger] gcy[i]).group == c2;
        assert(res.cycles@[i] == gcy[i]);
    }
    assert forall|i: int, j: int| 0 <= i < j < res.cycles@.len() implies (#[trigger] res.cycles@[i]).group > (#[trigger] res.cycles@[j]).group by {
        assert(res.cycles@[i] == gcy[i]);
        assert(res.cycles@[j] == gcy[j]);
    }
    Ok(res)
}

} // verus!
