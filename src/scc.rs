use vstd::prelude::*;

use crate::graph::{has_edge, has_node, node_leaders, Edge, MappedGraph, Node};

verus! {

/// `p` follows edges of the graph from its first node to its last.
pub open spec fn is_walk(edges: Seq<Edge>, p: Seq<u64>) -> bool {
    &&& p.len() >= 1
    &&& forall|i: int| 0 <= i < p.len() - 1 ==> has_edge(edges, #[trigger] p[i], p[i + 1])
}

pub open spec fn reaches(edges: Seq<Edge>, a: u64, b: u64) -> bool {
    exists|p: Seq<u64>| is_walk(edges, p) && p[0] == a && p.last() == b
}

/// `r` lists each node of `g` exactly once, split into non-empty components.
pub open spec fn is_partition(g: MappedGraph, r: Seq<Seq<u64>>) -> bool {
    let ls = node_leaders(g.nodes@);
    &&& forall|c: int| 0 <= c < r.len() ==> (#[trigger] r[c]).len() > 0
    &&& forall|c: int, i: int| 0 <= c < r.len() && 0 <= i < r[c].len() ==> ls.contains(#[trigger] r[c][i])
    &&& forall|n: u64| ls.contains(n) ==> exists|c: int, i: int| 0 <= c < r.len() && 0 <= i < r[c].len() && #[trigger] r[c][i] == n
    &&& forall|c1: int, i1: int, c2: int, i2: int|
        0 <= c1 < r.len() && 0 <= i1 < r[c1].len() && 0 <= c2 < r.len() && 0 <= i2 < r[c2].len()
            && #[trigger] r[c1][i1] == #[trigger] r[c2][i2] ==> c1 == c2 && i1 == i2
}

/// Every edge between two components goes from a later one to an earlier one.
pub open spec fn is_reverse_topological(g: MappedGraph, r: Seq<Seq<u64>>) -> bool {
    forall|k: int, c1: int, i1: int, c2: int, i2: int|
        0 <= k < g.edges@.len() && 0 <= c1 < r.len() && 0 <= i1 < r[c1].len() && 0 <= c2 < r.len() && 0
            <= i2 < r[c2].len() && (#[trigger] g.edges@[k]).source == #[trigger] r[c1][i1]
            && g.edges@[k].target == #[trigger] r[c2][i2] ==> c1 >= c2
}

pub open spec fn strongly_connected(g: MappedGraph, r: Seq<Seq<u64>>) -> bool {
    forall|c: int, i: int, j: int|
        0 <= c < r.len() && 0 <= i < r[c].len() && 0 <= j < r[c].len() ==> reaches(
            g.edges@,
            #[trigger] r[c][i],
            #[trigger] r[c][j],
        )
}

/// Relies on petgraph::algo::kosaraju_scc, run on a
/// petgraph::graphmap::DiGraphMap holding the same nodes and edges: it returns
/// the strongly connected components, each node in exactly one of them, in
/// reverse topological order. The implementation is iterative.
#[verifier::external_body]
fn strongly_connected_components(g: &MappedGraph) -> (r: Vec<Vec<u64>>)
    requires
        g.wf(),
    ensures
        is_partition(*g, r@.map_values(|c: Vec<u64>| c@)),
        is_reverse_topological(*g, r@.map_values(|c: Vec<u64>| c@)),
        strongly_connected(*g, r@.map_values(|c: Vec<u64>| c@)),
{
    let mut pg = petgraph::graphmap::DiGraphMap::<u64, u64>::new();
    for n in g.nodes.iter() {
        pg.add_node(n.leader);
    }
    for e in g.edges.iter() {
        pg.add_edge(e.source, e.target, e.weight);
    }
    petgraph::algo::kosaraju_scc(&pg)
}

pub open spec fn comps(r: Seq<Vec<u64>>) -> Seq<Seq<u64>> {
    r.map_values(|c: Vec<u64>| c@)
}

/// The component that holds `n`.
fn component_of(r: &Vec<Vec<u64>>, n: u64) -> (c: usize)
    requires
        exists|c: int, i: int| 0 <= c < r@.len() && 0 <= i < r@[c]@.len() && #[trigger] comps(r@)[c][i] == n,
    ensures
        c < r@.len(),
        comps(r@)[c as int].contains(n),
{
    let mut c: usize = 0;
    while c < r.len()
        invariant
            c <= r@.len(),
            exists|c2: int, i: int| c <= c2 < r@.len() && 0 <= i < r@[c2]@.len() && #[trigger] comps(r@)[c2][i] == n,
        decreases r@.len() - c,
    {
        let comp = &r[c];
        let mut i: usize = 0;
        while i < comp.len()
            invariant
                c < r@.len(),
                *comp == r@[c as int],
                i <= comp@.len(),
                forall|j: int| 0 <= j < i ==> comp@[j] != n,
            decreases comp@.len() - i,
        {
            if comp[i] == n {
                assert(comps(r@)[c as int][i as int] == n);
                return c;
            }
            i += 1;
        }
        proof {
            let (c2, i2) = choose|c2: int, i: int| c <= c2 < r@.len() && 0 <= i < r@[c2]@.len() && #[trigger] comps(r@)[c2][i] == n;
            if c2 == c {
                assert(comp@[i2] == n);
            }
            assert(c + 1 <= c2);
        }
        c += 1;
    }
    proof {
        let (c2, i2) = choose|c2: int, i: int| c <= c2 < r@.len() && 0 <= i < r@[c2]@.len() && #[trigger] comps(r@)[c2][i] == n;
    }
    0
}

/// An edge between two groups, which are given by their index.
#[derive(Clone, Copy, Debug, PartialEq, Eq, Structural)]
pub struct CondensedEdge {
    pub source: usize,
    pub target: usize,
    pub weight: u64,
}

/// The graph of the strongly connected components of a [`MappedGraph`].
///
/// Group `c` holds the nodes whose component is `c`, by ascending leader.
/// Groups are numbered in reverse topological order.
pub struct CondensedGraph {
    pub groups: Vec<Vec<Node>>,
    /// The group of each node of the `MappedGraph`, by position.
    pub node_group: Vec<usize>,
    pub edges: Vec<CondensedEdge>,
}

/// `n` is a node of `g` whose group is `c`.
pub open spec fn member_of(g: MappedGraph, node_group: Seq<usize>, c: int, n: Node) -> bool {
    exists|q: int| 0 <= q < g.nodes@.len() && g.nodes@[q] == n && node_group[q] == c
}

/// `n` is a node of `g` among the first `p`, whose group is `c`.
pub open spec fn member_before(g: MappedGraph, node_group: Seq<usize>, c: int, n: Node, p: int) -> bool {
    exists|q: int| 0 <= q < p && q < g.nodes@.len() && g.nodes@[q] == n && node_group[q] == c
}

/// Two nodes of `g` in the same group reach each other.
pub open spec fn groups_connected(g: MappedGraph, node_group: Seq<usize>) -> bool {
    forall|q1: int, q2: int|
        0 <= q1 < g.nodes@.len() && 0 <= q2 < g.nodes@.len() && #[trigger] node_group[q1] == #[trigger] node_group[q2]
            ==> reaches(g.edges@, g.nodes@[q1].leader, g.nodes@[q2].leader)
}

/// `e` joins the groups of the two ends of an edge of `g`, with its weight.
pub open spec fn edge_from(g: MappedGraph, node_group: Seq<usize>, e: CondensedEdge) -> bool {
    exists|j: int, qs: int, qt: int|
        0 <= j < g.edges@.len() && 0 <= qs < g.nodes@.len() && 0 <= qt < g.nodes@.len() && g.nodes@[qs].leader
            == g.edges@[j].source && g.nodes@[qt].leader == g.edges@[j].target && node_group[qs] == e.source
            && node_group[qt] == e.target && e.weight == g.edges@[j].weight
}

impl CondensedGraph {
    /// Every edge goes from a group to one with a smaller index: the graph has no
    /// cycle.
    pub open spec fn descending(&self) -> bool {
        forall|k: int|
            0 <= k < self.edges@.len() ==> (#[trigger] self.edges@[k]).target < self.edges@[k].source
                < self.groups@.len()
    }

    /// The groups split the nodes of `g`.
    pub open spec fn groups_of(&self, g: MappedGraph) -> bool {
        &&& self.node_group@.len() == g.nodes@.len()
        &&& forall|q: int| 0 <= q < g.nodes@.len() ==> #[trigger] self.node_group@[q] < self.groups@.len()
        &&& forall|c: int| 0 <= c < self.groups@.len() ==> (#[trigger] self.groups@[c])@.len() > 0
        &&& forall|c: int, i: int|
            0 <= c < self.groups@.len() && 0 <= i < self.groups@[c]@.len() ==> member_of(g, self.node_group@, c, #[trigger] self.groups@[c]@[i])
        &&& forall|q: int| 0 <= q < g.nodes@.len() ==> self.groups@[#[trigger] self.node_group@[q] as int]@.contains(g.nodes@[q])
        &&& forall|c: int, i1: int, i2: int|
            0 <= c < self.groups@.len() && 0 <= i1 < self.groups@[c]@.len() && 0 <= i2 < self.groups@[c]@.len() && i1 != i2
                ==> (#[trigger] self.groups@[c]@[i1]).leader != (#[trigger] self.groups@[c]@[i2]).leader
    }

    /// Each group lists its nodes by ascending leader.
    pub open spec fn groups_by_leader(&self) -> bool {
        forall|c: int| 0 <= c < self.groups@.len() ==> by_leader((#[trigger] self.groups@[c])@)
    }

    /// The edges between groups are those of `g` that join two groups, with the
    /// same weight.
    pub open spec fn edges_of(&self, g: MappedGraph) -> bool {
        &&& forall|k: int| 0 <= k < self.edges@.len() ==> edge_from(g, self.node_group@, #[trigger] self.edges@[k])
    }
}

pub open spec fn group_edge(edges: Seq<CondensedEdge>, a: int, b: int) -> bool {
    exists|k: int| 0 <= k < edges.len() && (#[trigger] edges[k]).source == a && edges[k].target == b
}

/// Every edge of `g` between two different groups gives an edge between them.
pub open spec fn edges_complete(g: MappedGraph, cg: CondensedGraph) -> bool {
    forall|j: int, qs: int, qt: int|
        #![trigger g.edges@[j], g.nodes@[qs], g.nodes@[qt]]
        0 <= j < g.edges@.len() && 0 <= qs < g.nodes@.len() && 0 <= qt < g.nodes@.len() && g.nodes@[qs].leader
            == g.edges@[j].source && g.nodes@[qt].leader == g.edges@[j].target && cg.node_group@[qs]
            != cg.node_group@[qt] ==> group_edge(cg.edges@, cg.node_group@[qs] as int, cg.node_group@[qt] as int)
}

/// A path along edges of the condensed graph.
pub open spec fn is_group_path(edges: Seq<CondensedEdge>, p: Seq<int>) -> bool {
    &&& p.len() >= 1
    &&& forall|i: int| 0 <= i < p.len() - 1 ==> group_edge(edges, #[trigger] p[i], p[i + 1])
}

/// The condensed graph is acyclic: along any path of one edge or more, the group
/// index strictly decreases, so no such path comes back to where it started.
pub proof fn lemma_condensed_acyclic(cg: CondensedGraph, p: Seq<int>)
    requires
        cg.descending(),
        is_group_path(cg.edges@, p),
        p.len() >= 2,
    ensures
        p.last() < p[0],
    decreases p.len(),
{
    assert(group_edge(cg.edges@, p[0], p[1]));
    let k = choose|k: int| 0 <= k < cg.edges@.len() && (#[trigger] cg.edges@[k]).source == p[0] && cg.edges@[k].target == p[1];
    if p.len() > 2 {
        let rest = p.drop_first();
        assert forall|i: int| 0 <= i < rest.len() - 1 implies group_edge(cg.edges@, #[trigger] rest[i], rest[i + 1]) by {
            assert(rest[i] == p[i + 1] && rest[i + 1] == p[i + 2]);
            assert(group_edge(cg.edges@, p[i + 1], p[i + 2]));
        }
        lemma_condensed_acyclic(cg, rest);
    }
}

/// The component of each node of `g`, by position.
fn assign_components(g: &MappedGraph, r: &Vec<Vec<u64>>) -> (node_group: Vec<usize>)
    requires
        is_partition(*g, comps(r@)),
    ensures
        node_group@.len() == g.nodes@.len(),
        forall|p: int|
            0 <= p < g.nodes@.len() ==> #[trigger] node_group@[p] < r@.len() && comps(r@)[node_group@[p] as int].contains(
                g.nodes@[p].leader,
            ),
{
    let ghost ls = node_leaders(g.nodes@);
    let mut node_group: Vec<usize> = Vec::new();
    let mut q: usize = 0;
    while q < g.nodes.len()
        invariant
            q <= g.nodes@.len(),
            node_group@.len() == q,
            ls == node_leaders(g.nodes@),
            is_partition(*g, comps(r@)),
            forall|p: int|
                0 <= p < q ==> #[trigger] node_group@[p] < r@.len() && comps(r@)[node_group@[p] as int].contains(
                    g.nodes@[p].leader,
                ),
        decreases g.nodes@.len() - q,
    {
        let n = g.nodes[q].leader;
        proof {
            assert(ls[q as int] == n);
            assert(ls.contains(n));
        }
        let c = component_of(r, n);
        node_group.push(c);
        q += 1;
    }
    node_group
}

/// The nodes of `g` whose group is `c`, in node order.
fn members_of(g: &MappedGraph, node_group: &Vec<usize>, c: usize) -> (members: Vec<Node>)
    requires
        g.wf(),
        node_group@.len() == g.nodes@.len(),
    ensures
        forall|i1: int, i2: int|
            0 <= i1 < members@.len() && 0 <= i2 < members@.len() && i1 != i2 ==> (#[trigger] members@[i1]).leader
                != (#[trigger] members@[i2]).leader,
        forall|i: int| 0 <= i < members@.len() ==> member_of(*g, node_group@, c as int, #[trigger] members@[i]),
        forall|p: int| 0 <= p < g.nodes@.len() && node_group@[p] == c ==> members@.contains(#[trigger] g.nodes@[p]),
{
    let mut members: Vec<Node> = Vec::new();
    let mut p: usize = 0;
    while p < g.nodes.len()
        invariant
            p <= g.nodes@.len(),
            g.wf(),
            node_group@.len() == g.nodes@.len(),
            forall|i: int| 0 <= i < members@.len() ==> member_of(*g, node_group@, c as int, #[trigger] members@[i]),
            forall|i: int| 0 <= i < members@.len() ==> member_before(*g, node_group@, c as int, #[trigger] members@[i], p as int),
            forall|i1: int, i2: int|
                0 <= i1 < members@.len() && 0 <= i2 < members@.len() && i1 != i2 ==> (#[trigger] members@[i1]).leader
                    != (#[trigger] members@[i2]).leader,
            forall|p2: int| 0 <= p2 < p && node_group@[p2] == c ==> members@.contains(#[trigger] g.nodes@[p2]),
        decreases g.nodes@.len() - p,
    {
        let ghost m0 = members@;
        if node_group[p] == c {
            members.push(g.nodes[p]);
        }
        proof {
            assert forall|p2: int| 0 <= p2 < p + 1 && node_group@[p2] == c implies members@.contains(#[trigger] g.nodes@[p2]) by {
                if p2 < p {
                    let i = choose|i: int| 0 <= i < m0.len() && m0[i] == g.nodes@[p2];
                    assert(members@[i] == g.nodes@[p2]);
                } else {
                    assert(members@[members@.len() - 1] == g.nodes@[p2]);
                }
            }
            assert forall|i: int| 0 <= i < members@.len() implies member_of(*g, node_group@, c as int, #[trigger] members@[i]) by {
                if i < m0.len() {
                    assert(members@[i] == m0[i]);
                } else {
                    assert(g.nodes@[p as int] == members@[i]);
                }
            }
            assert forall|i: int| 0 <= i < members@.len() implies member_before(*g, node_group@, c as int, #[trigger] members@[i], p + 1) by {
                if i < m0.len() {
                    assert(members@[i] == m0[i]);
                    assert(member_before(*g, node_group@, c as int, m0[i], p as int));
                } else {
                    assert(g.nodes@[p as int] == members@[i]);
                }
            }
            assert forall|i1: int, i2: int|
                0 <= i1 < members@.len() && 0 <= i2 < members@.len() && i1 != i2 implies (#[trigger] members@[i1]).leader
                    != (#[trigger] members@[i2]).leader by {
                if i1 < m0.len() && i2 < m0.len() {
                    assert(members@[i1] == m0[i1] && members@[i2] == m0[i2]);
                } else {
                    let (old_i, new_i) = if i1 < m0.len() { (i1, i2) } else { (i2, i1) };
                    assert(members@[old_i] == m0[old_i]);
                    assert(member_before(*g, node_group@, c as int, m0[old_i], p as int));
                    let q = choose|q: int| 0 <= q < p && q < g.nodes@.len() && g.nodes@[q] == m0[old_i] && node_group@[q] == c;
                    assert(members@[new_i] == g.nodes@[p as int]);
                    assert(node_leaders(g.nodes@)[q] == m0[old_i].leader);
                    assert(node_leaders(g.nodes@)[p as int] == g.nodes@[p as int].leader);
                }
            }
        }
        p += 1;
    }
    members
}

/// The edges of `g` between different groups, each with its weight.
fn group_edges(g: &MappedGraph, r: &Vec<Vec<u64>>, node_group: &Vec<usize>) -> (edges: Vec<CondensedEdge>)
    requires
        g.wf(),
        is_partition(*g, comps(r@)),
        is_reverse_topological(*g, comps(r@)),
        node_group@.len() == g.nodes@.len(),
        forall|p: int|
            0 <= p < g.nodes@.len() ==> #[trigger] node_group@[p] < r@.len() && comps(r@)[node_group@[p] as int].contains(
                g.nodes@[p].leader,
            ),
    ensures
        forall|k: int| 0 <= k < edges@.len() ==> (#[trigger] edges@[k]).target < edges@[k].source < r@.len(),
        forall|k: int| 0 <= k < edges@.len() ==> edge_from(*g, node_group@, #[trigger] edges@[k]),
        forall|j2: int, qs: int, qt: int|
            #![trigger g.edges@[j2], g.nodes@[qs], g.nodes@[qt]]
            0 <= j2 < g.edges@.len() && 0 <= qs < g.nodes@.len() && 0 <= qt < g.nodes@.len()
                && g.nodes@[qs].leader == g.edges@[j2].source && g.nodes@[qt].leader == g.edges@[j2].target
                && node_group@[qs] != node_group@[qt] ==> exists|k: int|
                0 <= k < edges@.len() && (#[trigger] edges@[k]).source == node_group@[qs]
                    && edges@[k].target == node_group@[qt],
{
    let ghost cs = comps(r@);
    let mut edges: Vec<CondensedEdge> = Vec::new();
    let mut j: usize = 0;
    while j < g.edges.len()
        invariant
            j <= g.edges@.len(),
            cs == comps(r@),
            g.wf(),
            is_partition(*g, comps(r@)),
            is_reverse_topological(*g, comps(r@)),
            node_group@.len() == g.nodes@.len(),
            forall|p: int|
                0 <= p < g.nodes@.len() ==> #[trigger] node_group@[p] < r@.len() && comps(r@)[node_group@[p] as int].contains(
                    g.nodes@[p].leader,
                ),
            forall|k: int| 0 <= k < edges@.len() ==> (#[trigger] edges@[k]).target < edges@[k].source < r@.len(),
            forall|k: int| 0 <= k < edges@.len() ==> edge_from(*g, node_group@, #[trigger] edges@[k]),
            forall|j2: int, qs: int, qt: int|
                #![trigger g.edges@[j2], g.nodes@[qs], g.nodes@[qt]]
                0 <= j2 < j && 0 <= qs < g.nodes@.len() && 0 <= qt < g.nodes@.len()
                    && g.nodes@[qs].leader == g.edges@[j2].source && g.nodes@[qt].leader == g.edges@[j2].target
                    && node_group@[qs] != node_group@[qt] ==> exists|k: int|
                    0 <= k < edges@.len() && (#[trigger] edges@[k]).source == node_group@[qs]
                        && edges@[k].target == node_group@[qt],
        decreases g.edges@.len() - j,
    {
        let e = g.edges[j];
        assert(has_node(g.nodes@, e.source) && has_node(g.nodes@, e.target)) by {
            assert(g.edges@[j as int] == e);
        }
        let qs = g.node_index(e.source).unwrap();
        let qt = g.node_index(e.target).unwrap();
        let gs = node_group[qs];
        let gt = node_group[qt];
        let ghost e0 = edges@;
        if gs != gt {
            proof {
                assert(node_group@[qs as int] < r@.len());
                let i1 = choose|i1: int| 0 <= i1 < cs[gs as int].len() && cs[gs as int][i1] == e.source;
                let i2 = choose|i2: int| 0 <= i2 < cs[gt as int].len() && cs[gt as int][i2] == e.target;
                assert(g.edges@[j as int].source == cs[gs as int][i1]);
                assert(g.edges@[j as int].target == cs[gt as int][i2]);
            }
            edges.push(CondensedEdge { source: gs, target: gt, weight: e.weight });
        }
        proof {
            assert forall|k: int| 0 <= k < edges@.len() implies edge_from(*g, node_group@, #[trigger] edges@[k]) by {
                if k < e0.len() {
                    assert(edges@[k] == e0[k]);
                } else {
                    assert(g.edges@[j as int] == e);
                    assert(g.nodes@[qs as int].leader == e.source);
                    assert(g.nodes@[qt as int].leader == e.target);
                }
            }
            assert forall|j2: int, qs2: int, qt2: int|
                #![trigger g.edges@[j2], g.nodes@[qs2], g.nodes@[qt2]]
                0 <= j2 < j + 1 && 0 <= qs2 < g.nodes@.len() && 0 <= qt2 < g.nodes@.len()
                    && g.nodes@[qs2].leader == g.edges@[j2].source && g.nodes@[qt2].leader == g.edges@[j2].target
                    && node_group@[qs2] != node_group@[qt2] implies exists|k: int|
                    0 <= k < edges@.len() && (#[trigger] edges@[k]).source == node_group@[qs2]
                        && edges@[k].target == node_group@[qt2] by {
                if j2 < j {
                    let k = choose|k: int| 0 <= k < e0.len() && (#[trigger] e0[k]).source == node_group@[qs2] && e0[k].target == node_group@[qt2];
                    assert(edges@[k] == e0[k]);
                } else {
                    // leaders are unique, so these are the nodes found above
                    assert(node_leaders(g.nodes@)[qs2] == node_leaders(g.nodes@)[qs as int]);
                    assert(node_leaders(g.nodes@)[qt2] == node_leaders(g.nodes@)[qt as int]);
                    assert(edges@[e0.len() as int].source == gs);
                }
            }
        }
        j += 1;
    }
    edges
}

/// The leaders of `v` strictly increase.
pub open spec fn by_leader(v: Seq<Node>) -> bool {
    forall|i: int, j: int| 0 <= i < j < v.len() ==> (#[trigger] v[i]).leader < (#[trigger] v[j]).leader
}

/// The nodes of `v` ordered by ascending leader; the leaders must be distinct.
fn sort_by_leader(v: Vec<Node>) -> (r: Vec<Node>)
    requires
        forall|i1: int, i2: int|
            0 <= i1 < v@.len() && 0 <= i2 < v@.len() && i1 != i2 ==> (#[trigger] v@[i1]).leader != (#[trigger] v@[i2]).leader,
    ensures
        r@.len() == v@.len(),
        by_leader(r@),
        forall|x: Node| r@.contains(x) <==> v@.contains(x),
{
    let mut out: Vec<Node> = Vec::new();
    let mut i: usize = 0;
    while i < v.len()
        invariant
            i <= v@.len(),
            out@.len() == i,
            by_leader(out@),
            forall|x: Node| out@.contains(x) <==> v@.subrange(0, i as int).contains(x),
            forall|i1: int, i2: int|
                0 <= i1 < v@.len() && 0 <= i2 < v@.len() && i1 != i2 ==> (#[trigger] v@[i1]).leader != (#[trigger] v@[i2]).leader,
        decreases v@.len() - i,
    {
        let x = v[i];
        let mut p: usize = 0;
        while p < out.len() && out[p].leader < x.leader
            invariant
                p <= out@.len(),
                forall|j: int| 0 <= j < p ==> (#[trigger] out@[j]).leader < x.leader,
            decreases out@.len() - p,
        {
            p += 1;
        }
        let ghost o0 = out@;
        proof {
            // x's leader differs from every placed node's leader
            assert forall|j: int| 0 <= j < o0.len() implies (#[trigger] o0[j]).leader != x.leader by {
                assert(o0.contains(o0[j]));
                assert(v@.subrange(0, i as int).contains(o0[j]));
                let t = choose|t: int| 0 <= t < i && v@.subrange(0, i as int)[t] == o0[j];
                assert(v@[t] == o0[j]);
            }
        }
        out.insert(p, x);
        proof {
            assert(out@ == o0.insert(p as int, x));
            assert forall|a: int, b: int| 0 <= a < b < out@.len() implies (#[trigger] out@[a]).leader < (#[trigger] out@[b]).leader by {
                if p < o0.len() {
                    assert(o0[p as int].leader >= x.leader);
                    assert(o0[p as int].leader != x.leader);
                }
                if a < p && b > p {
                    assert(out@[a] == o0[a] && out@[b] == o0[b - 1]);
                    if b - 1 > p {
                        assert(o0[p as int].leader < o0[b - 1].leader);
                    }
                } else if a < p && b == p {
                } else if a == p && b > p {
                    assert(out@[b] == o0[b - 1]);
                    if b - 1 > p {
                        assert(o0[p as int].leader < o0[b - 1].leader);
                    }
                } else if b < p {
                } else {
                    assert(out@[a] == o0[a - 1] && out@[b] == o0[b - 1]);
                }
            }
            let sub = v@.subrange(0, i as int + 1);
            assert(sub =~= v@.subrange(0, i as int).push(x));
            assert forall|y: Node| out@.contains(y) <==> sub.contains(y) by {
                if out@.contains(y) {
                    let t = choose|t: int| 0 <= t < out@.len() && out@[t] == y;
                    if t < p {
                        assert(o0[t] == y && o0.contains(y));
                    } else if t > p {
                        assert(o0[t - 1] == y && o0.contains(y));
                    }
                    if y != x {
                        assert(v@.subrange(0, i as int).contains(y));
                        let u = choose|u: int| 0 <= u < i && v@.subrange(0, i as int)[u] == y;
                        assert(sub[u] == y);
                    } else {
                        assert(sub[i as int] == y);
                    }
                }
                if sub.contains(y) {
                    let t = choose|t: int| 0 <= t < sub.len() && sub[t] == y;
                    if t == i {
                        assert(out@[p as int] == y);
                    } else {
                        assert(v@.subrange(0, i as int)[t] == y);
                        assert(o0.contains(y));
                        let u = choose|u: int| 0 <= u < o0.len() && o0[u] == y;
                        if u < p {
                            assert(out@[u] == y);
                        } else {
                            assert(out@[u + 1] == y);
                        }
                    }
                }
            }
        }
        i += 1;
    }
    assert(v@.subrange(0, i as int) =~= v@);
    out
}

/// The members of every component, as groups of nodes by ascending leader.
fn collect_groups(g: &MappedGraph, r: &Vec<Vec<u64>>, node_group: &Vec<usize>) -> (groups: Vec<Vec<Node>>)
    requires
        g.wf(),
        is_partition(*g, comps(r@)),
        node_group@.len() == g.nodes@.len(),
        forall|p: int|
            0 <= p < g.nodes@.len() ==> #[trigger] node_group@[p] < r@.len() && comps(r@)[node_group@[p] as int].contains(
                g.nodes@[p].leader,
            ),
    ensures
        groups@.len() == r@.len(),
        forall|c2: int| 0 <= c2 < groups@.len() ==> (#[trigger] groups@[c2])@.len() > 0,
        forall|c2: int, i: int|
            0 <= c2 < groups@.len() && 0 <= i < groups@[c2]@.len() ==> member_of(*g, node_group@, c2, #[trigger] groups@[c2]@[i]),
        forall|p: int| 0 <= p < g.nodes@.len() ==> groups@[#[trigger] node_group@[p] as int]@.contains(g.nodes@[p]),
        forall|c: int, i1: int, i2: int|
            0 <= c < groups@.len() && 0 <= i1 < groups@[c]@.len() && 0 <= i2 < groups@[c]@.len() && i1 != i2
                ==> (#[trigger] groups@[c]@[i1]).leader != (#[trigger] groups@[c]@[i2]).leader,
        forall|c: int| 0 <= c < groups@.len() ==> by_leader((#[trigger] groups@[c])@),
{
    let ghost ls = node_leaders(g.nodes@);
    let ghost cs = comps(r@);
    let mut groups: Vec<Vec<Node>> = Vec::new();
    let mut c: usize = 0;
    while c < r.len()
        invariant
            c <= r@.len(),
            groups@.len() == c,
            node_group@.len() == g.nodes@.len(),
            ls == node_leaders(g.nodes@),
            cs == comps(r@),
            is_partition(*g, cs),
            forall|p: int| 0 <= p < g.nodes@.len() ==> #[trigger] node_group@[p] < r@.len() && cs[node_group@[p] as int].contains(g.nodes@[p].leader),
            forall|c2: int| 0 <= c2 < c ==> (#[trigger] groups@[c2])@.len() > 0,
            forall|c2: int, i: int|
                0 <= c2 < c && 0 <= i < groups@[c2]@.len() ==> member_of(*g, node_group@, c2, #[trigger] groups@[c2]@[i]),
            forall|p: int| 0 <= p < g.nodes@.len() && node_group@[p] < c ==> groups@[#[trigger] node_group@[p] as int]@.contains(g.nodes@[p]),
            g.wf(),
            forall|c2: int, i1: int, i2: int|
                0 <= c2 < c && 0 <= i1 < groups@[c2]@.len() && 0 <= i2 < groups@[c2]@.len() && i1 != i2
                    ==> (#[trigger] groups@[c2]@[i1]).leader != (#[trigger] groups@[c2]@[i2]).leader,
            forall|c2: int| 0 <= c2 < c ==> by_leader((#[trigger] groups@[c2])@),
        decreases r@.len() - c,
    {
        let raw = members_of(g, &node_group, c);
        let ghost rv = raw@;
        let members = sort_by_leader(raw);
        proof {
            assert forall|i: int| 0 <= i < members@.len() implies member_of(*g, node_group@, c as int, #[trigger] members@[i]) by {
                assert(members@.contains(members@[i]));
                let j = choose|j: int| 0 <= j < rv.len() && rv[j] == members@[i];
            }
            assert forall|p: int| 0 <= p < g.nodes@.len() && node_group@[p] == c implies members@.contains(#[trigger] g.nodes@[p]) by {
                assert(rv.contains(g.nodes@[p]));
            }
            assert forall|i1: int, i2: int|
                0 <= i1 < members@.len() && 0 <= i2 < members@.len() && i1 != i2 implies (#[trigger] members@[i1]).leader
                    != (#[trigger] members@[i2]).leader by {
                if i1 < i2 {
                    assert(members@[i1].leader < members@[i2].leader);
                } else {
                    assert(members@[i2].leader < members@[i1].leader);
                }
            }
        }
        proof {
            // the component is not empty, and its first member is a node of group c
            let n = cs[c as int][0];
            assert(ls.contains(n));
            let p0 = choose|p0: int| 0 <= p0 < ls.len() && ls[p0] == n;
            assert(g.nodes@[p0].leader == n);
            let gc = node_group@[p0] as int;
            assert(cs[gc].contains(n));
            let i0 = choose|i0: int| 0 <= i0 < cs[gc].len() && cs[gc][i0] == n;
            assert(cs[c as int][0] == cs[gc][i0]);
            assert(gc == c);
            assert(members@.contains(g.nodes@[p0]));
        }
        let ghost groups0 = groups@;
        groups.push(members);
        proof {
            assert forall|c2: int, i: int|
                0 <= c2 < c + 1 && 0 <= i < groups@[c2]@.len() implies member_of(*g, node_group@, c2, #[trigger] groups@[c2]@[i]) by {
                if c2 < c {
                    assert(groups@[c2] == groups0[c2]);
                }
            }
            assert forall|c2: int, i1: int, i2: int|
                0 <= c2 < c + 1 && 0 <= i1 < groups@[c2]@.len() && 0 <= i2 < groups@[c2]@.len() && i1 != i2
                    implies (#[trigger] groups@[c2]@[i1]).leader != (#[trigger] groups@[c2]@[i2]).leader by {
                if c2 < c {
                    assert(groups@[c2] == groups0[c2]);
                }
            }
            assert forall|c2: int| 0 <= c2 < c + 1 implies by_leader((#[trigger] groups@[c2])@) by {
                if c2 < c {
                    assert(groups@[c2] == groups0[c2]);
                }
            }
            assert forall|p: int| 0 <= p < g.nodes@.len() && node_group@[p] < c + 1 implies groups@[#[trigger] node_group@[p] as int]@.contains(g.nodes@[p]) by {
                if node_group@[p] < c {
                    assert(groups@[node_group@[p] as int] == groups0[node_group@[p] as int]);
                }
            }
        }
        c += 1;
    }
    groups
}

/// Every edge of `g` goes from a group to the same group or one with a smaller
/// index.
pub open spec fn edges_descend(g: MappedGraph, node_group: Seq<usize>) -> bool {
    forall|j: int, qs: int, qt: int|
        #![trigger g.edges@[j], g.nodes@[qs], g.nodes@[qt]]
        0 <= j < g.edges@.len() && 0 <= qs < g.nodes@.len() && 0 <= qt < g.nodes@.len() && g.nodes@[qs].leader
            == g.edges@[j].source && g.nodes@[qt].leader == g.edges@[j].target ==> node_group[qs] >= node_group[qt]
}

/// Two nodes of `g` share a group exactly when each reaches the other.
pub open spec fn groups_are_sccs(g: MappedGraph, node_group: Seq<usize>) -> bool {
    forall|q1: int, q2: int|
        0 <= q1 < g.nodes@.len() && 0 <= q2 < g.nodes@.len() ==> (#[trigger] node_group[q1] == #[trigger] node_group[q2]
            <==> (reaches(g.edges@, g.nodes@[q1].leader, g.nodes@[q2].leader) && reaches(
            g.edges@,
            g.nodes@[q2].leader,
            g.nodes@[q1].leader,
        )))
}

proof fn lemma_edges_descend(g: MappedGraph, cs: Seq<Seq<u64>>, node_group: Seq<usize>)
    requires
        is_reverse_topological(g, cs),
        node_group.len() == g.nodes@.len(),
        forall|p: int|
            0 <= p < g.nodes@.len() ==> #[trigger] node_group[p] < cs.len() && cs[node_group[p] as int].contains(
                g.nodes@[p].leader,
            ),
    ensures
        edges_descend(g, node_group),
{
    assert forall|j: int, qs: int, qt: int|
        #![trigger g.edges@[j], g.nodes@[qs], g.nodes@[qt]]
        0 <= j < g.edges@.len() && 0 <= qs < g.nodes@.len() && 0 <= qt < g.nodes@.len() && g.nodes@[qs].leader
            == g.edges@[j].source && g.nodes@[qt].leader == g.edges@[j].target implies node_group[qs] >= node_group[qt] by {
        let cs_ = node_group[qs] as int;
        let ct = node_group[qt] as int;
        assert(cs[cs_].contains(g.nodes@[qs].leader));
        assert(cs[ct].contains(g.nodes@[qt].leader));
        let i1 = choose|i: int| 0 <= i < cs[cs_].len() && cs[cs_][i] == g.nodes@[qs].leader;
        let i2 = choose|i: int| 0 <= i < cs[ct].len() && cs[ct][i] == g.nodes@[qt].leader;
        assert(g.edges@[j].source == cs[cs_][i1] && g.edges@[j].target == cs[ct][i2]);
    }
}

/// Along a walk the group index never grows.
proof fn lemma_walk_descends(g: MappedGraph, node_group: Seq<usize>, p: Seq<u64>, q0: int, qn: int)
    requires
        g.wf(),
        edges_descend(g, node_group),
        is_walk(g.edges@, p),
        0 <= q0 < g.nodes@.len(),
        0 <= qn < g.nodes@.len(),
        g.nodes@[q0].leader == p[0],
        g.nodes@[qn].leader == p.last(),
    ensures
        node_group[qn] <= node_group[q0],
    decreases p.len(),
{
    if p.len() == 1 {
        assert(node_leaders(g.nodes@)[q0] == node_leaders(g.nodes@)[qn]);
    } else {
        assert(has_edge(g.edges@, p[0], p[1]));
        let k = choose|k: int| crate::graph::edge_at(g.edges@, p[0], p[1], k);
        assert(has_node(g.nodes@, g.edges@[k].target));
        let q1 = choose|q: int| 0 <= q < node_leaders(g.nodes@).len() && node_leaders(g.nodes@)[q] == g.edges@[k].target;
        assert(g.nodes@[q1].leader == p[1]);
        assert(node_group[q0] >= node_group[q1]);
        let rest = p.drop_first();
        assert forall|i: int| 0 <= i < rest.len() - 1 implies has_edge(g.edges@, #[trigger] rest[i], rest[i + 1]) by {
            assert(rest[i] == p[i + 1] && rest[i + 1] == p[i + 2]);
        }
        lemma_walk_descends(g, node_group, rest, q1, qn);
    }
}

proof fn lemma_groups_are_sccs(g: MappedGraph, node_group: Seq<usize>)
    requires
        g.wf(),
        edges_descend(g, node_group),
        groups_connected(g, node_group),
        node_group.len() == g.nodes@.len(),
    ensures
        groups_are_sccs(g, node_group),
{
    assert forall|q1: int, q2: int| 0 <= q1 < g.nodes@.len() && 0 <= q2 < g.nodes@.len() implies (#[trigger] node_group[q1]
        == #[trigger] node_group[q2] <==> (reaches(g.edges@, g.nodes@[q1].leader, g.nodes@[q2].leader) && reaches(
        g.edges@,
        g.nodes@[q2].leader,
        g.nodes@[q1].leader,
    ))) by {
        if reaches(g.edges@, g.nodes@[q1].leader, g.nodes@[q2].leader) && reaches(g.edges@, g.nodes@[q2].leader, g.nodes@[q1].leader) {
            let p1 = choose|p: Seq<u64>| is_walk(g.edges@, p) && p[0] == g.nodes@[q1].leader && p.last() == g.nodes@[q2].leader;
            let p2 = choose|p: Seq<u64>| is_walk(g.edges@, p) && p[0] == g.nodes@[q2].leader && p.last() == g.nodes@[q1].leader;
            lemma_walk_descends(g, node_group, p1, q1, q2);
            lemma_walk_descends(g, node_group, p2, q2, q1);
        }
    }
}

proof fn lemma_groups_connected(g: MappedGraph, cs: Seq<Seq<u64>>, node_group: Seq<usize>)
    requires
        strongly_connected(g, cs),
        node_group.len() == g.nodes@.len(),
        forall|p: int|
            0 <= p < g.nodes@.len() ==> #[trigger] node_group[p] < cs.len() && cs[node_group[p] as int].contains(
                g.nodes@[p].leader,
            ),
    ensures
        groups_connected(g, node_group),
{
    assert forall|q1: int, q2: int|
        0 <= q1 < g.nodes@.len() && 0 <= q2 < g.nodes@.len() && #[trigger] node_group[q1] == #[trigger] node_group[q2]
            implies reaches(g.edges@, g.nodes@[q1].leader, g.nodes@[q2].leader) by {
        let c = node_group[q1] as int;
        assert(cs[c].contains(g.nodes@[q1].leader));
        assert(cs[c].contains(g.nodes@[q2].leader));
        let i = choose|i: int| 0 <= i < cs[c].len() && cs[c][i] == g.nodes@[q1].leader;
        let j = choose|j: int| 0 <= j < cs[c].len() && cs[c][j] == g.nodes@[q2].leader;
        assert(reaches(g.edges@, cs[c][i], cs[c][j]));
    }
}

/// Condenses the strongly connected components of `g` into groups.
pub fn condense(g: &MappedGraph) -> (cg: CondensedGraph)
    requires
        g.wf(),
    ensures
        cg.groups_of(*g),
        cg.edges_of(*g),
        cg.descending(),
        groups_connected(*g, cg.node_group@),
        groups_are_sccs(*g, cg.node_group@),
        edges_complete(*g, cg),
        cg.groups_by_leader(),
{
    let r = strongly_connected_components(g);
    assert(comps(r@) == r@.map_values(|c: Vec<u64>| c@));
    let node_group = assign_components(g, &r);
    let groups = collect_groups(g, &r, &node_group);
    let edges = group_edges(g, &r, &node_group);
    proof {
        lemma_groups_connected(*g, comps(r@), node_group@);
        lemma_edges_descend(*g, comps(r@), node_group@);
        lemma_groups_are_sccs(*g, node_group@);
    }
    CondensedGraph { groups, node_group, edges }
}

} // verus!
