use vstd::prelude::*;

use crate::graph::{has_node, node_leaders, MappedGraph, Node};
use crate::scc::{is_walk, CondensedEdge};

verus! {

/// Weight of the heaviest path that leaves group `c`, summing the weights of its
/// edges; 0 for a group without successors. Edges that do not go to a smaller
/// index are ignored.
pub open spec fn best(edges: Seq<CondensedEdge>, c: int) -> int
    decreases c, edges.len() + 1,
{
    best_upto(edges, c, edges.len() as int)
}

/// `best` over the first `k` edges only.
pub open spec fn best_upto(edges: Seq<CondensedEdge>, c: int, k: int) -> int
    decreases c, k,
{
    if k <= 0 || k > edges.len() {
        0
    } else {
        let e = edges[k - 1];
        let rest = best_upto(edges, c, k - 1);
        if e.source == c && e.target < c {
            let v = e.weight + best(edges, e.target as int);
            if v > rest {
                v
            } else {
                rest
            }
        } else {
            rest
        }
    }
}

/// Weight of the heaviest path from group `c` to group `x`, if there is one.
pub open spec fn best_to(edges: Seq<CondensedEdge>, c: int, x: int) -> Option<int>
    decreases c, edges.len() + 1,
{
    if c == x {
        Some(0)
    } else {
        best_to_upto(edges, c, x, edges.len() as int)
    }
}

pub open spec fn max_opt(a: Option<int>, v: int) -> Option<int> {
    match a {
        Some(b) => if b > v {
            Some(b)
        } else {
            Some(v)
        },
        None => Some(v),
    }
}

/// `best_to` over the first `k` edges only.
pub open spec fn best_to_upto(edges: Seq<CondensedEdge>, c: int, x: int, k: int) -> Option<int>
    decreases c, k,
{
    if k <= 0 || k > edges.len() {
        None
    } else {
        let e = edges[k - 1];
        let rest = best_to_upto(edges, c, x, k - 1);
        if e.source == c && e.target < c {
            match best_to(edges, e.target as int, x) {
                Some(b) => max_opt(rest, e.weight + b),
                None => rest,
            }
        } else {
            rest
        }
    }
}

pub(crate) proof fn lemma_best_upto_nonneg(edges: Seq<CondensedEdge>, c: int, k: int)
    ensures
        best_upto(edges, c, k) >= 0,
    decreases c, k,
{
    if k > 0 && k <= edges.len() {
        lemma_best_upto_nonneg(edges, c, k - 1);
    }
}

#[derive(Clone, Copy, Debug, PartialEq, Eq, Structural)]
pub enum PathError {
    /// A path weight does not fit in 64 bits.
    Overflow,
}

/// `best` of every group `0 .. n`.
pub fn longest_paths(edges: &Vec<CondensedEdge>, n: usize) -> (r: Result<Vec<u64>, PathError>)
    ensures
        r matches Ok(v) ==> v@.len() == n && forall|c: int| 0 <= c < n ==> #[trigger] v@[c] == best(edges@, c),
        r is Err ==> exists|c: int| 0 <= c < n && #[trigger] best(edges@, c) > u64::MAX,
{
    let mut vals: Vec<u64> = Vec::new();
    let mut c: usize = 0;
    while c < n
        invariant
            c <= n,
            vals@.len() == c,
            forall|d: int| 0 <= d < c ==> #[trigger] vals@[d] == best(edges@, d),
        decreases n - c,
    {
        let mut acc: u64 = 0;
        let mut k: usize = 0;
        while k < edges.len()
            invariant
                c < n,
                vals@.len() == c,
                forall|d: int| 0 <= d < c ==> #[trigger] vals@[d] == best(edges@, d),
                k <= edges@.len(),
                acc == best_upto(edges@, c as int, k as int),
            decreases edges@.len() - k,
        {
            let e = edges[k];
            if e.source == c && e.target < c {
                let b = vals[e.target];
                match e.weight.checked_add(b) {
                    Some(v) => {
                        if v > acc {
                            acc = v;
                        }
                    },
                    None => {
                        proof {
                            lemma_best_upto_ge(edges@, c as int, k as int + 1, edges@.len() as int);
                            assert(best(edges@, c as int) > u64::MAX);
                        }
                        return Err(PathError::Overflow);
                    },
                }
            }
            k += 1;
        }
        vals.push(acc);
        c += 1;
    }
    Ok(vals)
}

proof fn lemma_best_upto_ge(edges: Seq<CondensedEdge>, c: int, k: int, k2: int)
    requires
        0 <= k <= k2 <= edges.len(),
    ensures
        best_upto(edges, c, k2) >= best_upto(edges, c, k),
    decreases k2 - k,
{
    if k2 > k {
        lemma_best_upto_ge(edges, c, k, k2 - 1);
    }
}

/// `best_to` of every group `0 .. n`, towards group `x`.
pub fn longest_paths_to(edges: &Vec<CondensedEdge>, n: usize, x: usize) -> (r: Result<Vec<Option<u64>>, PathError>)
    ensures
        r matches Ok(v) ==> v@.len() == n && forall|c: int|
            0 <= c < n ==> match (#[trigger] v@[c], best_to(edges@, c, x as int)) {
                (Some(a), Some(b)) => a == b,
                (None, None) => true,
                _ => false,
            },
        r is Err ==> exists|c: int| 0 <= c < n && ((#[trigger] best_to(edges@, c, x as int)) matches Some(b) && b > u64::MAX),
{
    let mut vals: Vec<Option<u64>> = Vec::new();
    let mut c: usize = 0;
    while c < n
        invariant
            c <= n,
            vals@.len() == c,
            forall|d: int|
                0 <= d < c ==> match (#[trigger] vals@[d], best_to(edges@, d, x as int)) {
                    (Some(a), Some(b)) => a == b,
                    (None, None) => true,
                    _ => false,
                },
        decreases n - c,
    {
        if c == x {
            vals.push(Some(0));
        } else {
            let mut acc: Option<u64> = None;
            let mut k: usize = 0;
            while k < edges.len()
                invariant
                    c < n,
                    c != x,
                    vals@.len() == c,
                    forall|d: int|
                        0 <= d < c ==> match (#[trigger] vals@[d], best_to(edges@, d, x as int)) {
                            (Some(a), Some(b)) => a == b,
                            (None, None) => true,
                            _ => false,
                        },
                    k <= edges@.len(),
                    match (acc, best_to_upto(edges@, c as int, x as int, k as int)) {
                        (Some(a), Some(b)) => a == b,
                        (None, None) => true,
                        _ => false,
                    },
                decreases edges@.len() - k,
            {
                let e = edges[k];
                if e.source == c && e.target < c {
                    match vals[e.target] {
                        Some(b) => match e.weight.checked_add(b) {
                            Some(v) => {
                                acc = match acc {
                                    Some(a) => if a > v {
                                        Some(a)
                                    } else {
                                        Some(v)
                                    },
                                    None => Some(v),
                                };
                            },
                            None => {
                                proof {
                                    let u = best_to_upto(edges@, c as int, x as int, k as int + 1);
                                    assert(u matches Some(v2) && v2 > u64::MAX);
                                    lemma_best_to_upto_ge(edges@, c as int, x as int, k as int + 1, edges@.len() as int);
                                    assert(best_to(edges@, c as int, x as int) == best_to_upto(edges@, c as int, x as int, edges@.len() as int));
                                }
                                return Err(PathError::Overflow);
                            },
                        },
                        None => {},
                    }
                }
                k += 1;
            }
            vals.push(acc);
        }
        c += 1;
    }
    Ok(vals)
}

proof fn lemma_best_to_upto_ge(edges: Seq<CondensedEdge>, c: int, x: int, k: int, k2: int)
    requires
        0 <= k <= k2 <= edges.len(),
        best_to_upto(edges, c, x, k) is Some,
    ensures
        (best_to_upto(edges, c, x, k2) matches Some(b2) && b2 >= best_to_upto(edges, c, x, k)->0),
    decreases k2 - k,
{
    if k2 > k {
        lemma_best_to_upto_ge(edges, c, x, k, k2 - 1);
    }
}

/// A path from `from` to `to` along edges of `g` that repeats no node.
pub open spec fn is_simple_path(g: MappedGraph, p: Seq<u64>, from: u64, to: u64) -> bool {
    &&& is_walk(g.edges@, p)
    &&& p[0] == from
    &&& p.last() == to
    &&& p.no_duplicates()
}

/// Relies on petgraph::algo::all_simple_paths, run on a
/// petgraph::graphmap::DiGraphMap holding the same nodes and edges, with no bound
/// on the number of intermediate nodes: it yields every simple path from `from`
/// to `to`.
#[verifier::external_body]
fn simple_paths(g: &MappedGraph, from: u64, to: u64) -> (r: Vec<Vec<u64>>)
    requires
        g.wf(),
        has_node(g.nodes@, from),
        has_node(g.nodes@, to),
        from != to,
    ensures
        forall|i: int| 0 <= i < r@.len() ==> is_simple_path(*g, (#[trigger] r@[i])@, from, to),
        forall|p: Seq<u64>| is_simple_path(*g, p, from, to) ==> exists|i: int| 0 <= i < r@.len() && (#[trigger] r@[i])@ == p,
{
    let mut pg = petgraph::graphmap::DiGraphMap::<u64, u64>::new();
    for n in g.nodes.iter() {
        pg.add_node(n.leader);
    }
    for e in g.edges.iter() {
        pg.add_edge(e.source, e.target, e.weight);
    }
    petgraph::algo::all_simple_paths::<Vec<u64>, _>(&pg, from, to, 0, None).collect()
}

/// The latency of the node led by `leader`.
pub open spec fn node_latency(nodes: Seq<Node>, leader: u64) -> int {
    nodes[node_leaders(nodes).index_of(leader)].latency as int
}

/// Sum of the latencies of the nodes on `p`.
pub open spec fn latency_along(nodes: Seq<Node>, p: Seq<u64>) -> int
    decreases p.len(),
{
    if p.len() == 0 {
        0
    } else {
        latency_along(nodes, p.drop_last()) + node_latency(nodes, p.last())
    }
}

proof fn lemma_latency_along_nonneg(nodes: Seq<Node>, p: Seq<u64>)
    ensures
        latency_along(nodes, p) >= 0,
    decreases p.len(),
{
    if p.len() > 0 {
        lemma_latency_along_nonneg(nodes, p.drop_last());
    }
}

proof fn lemma_latency_along_prefix(nodes: Seq<Node>, p: Seq<u64>, k: int)
    requires
        0 <= k <= p.len(),
    ensures
        latency_along(nodes, p) >= latency_along(nodes, p.subrange(0, k)),
    decreases p.len(),
{
    if k < p.len() {
        lemma_latency_along_prefix(nodes, p.drop_last(), k);
        assert(p.drop_last().subrange(0, k) =~= p.subrange(0, k));
        assert(nodes[node_leaders(nodes).index_of(p.last())].latency >= 0);
    } else {
        assert(p.subrange(0, k) =~= p);
    }
}

/// A path of two nodes or more costs at least its two ends.
pub(crate) proof fn lemma_latency_along_ends(nodes: Seq<Node>, p: Seq<u64>)
    requires
        p.len() >= 2,
    ensures
        latency_along(nodes, p) >= node_latency(nodes, p[0]) + node_latency(nodes, p.last()),
    decreases p.len(),
{
    let q = p.drop_last();
    if q.len() == 1 {
        assert(latency_along(nodes, q.drop_last()) == 0);
    } else {
        lemma_latency_along_ends(nodes, q);
        lemma_latency_along_nonneg(nodes, q.drop_last());
    }
}

/// The latency of the node led by `leader`, which must be a node.
pub fn latency_of(g: &MappedGraph, leader: u64) -> (r: u64)
    requires
        g.wf(),
        has_node(g.nodes@, leader),
    ensures
        r == node_latency(g.nodes@, leader),
{
    let q = g.node_index(leader).unwrap();
    proof {
        let ls = node_leaders(g.nodes@);
        assert(ls[q as int] == leader);
        let i = ls.index_of(leader);
        assert(ls[i] == leader);
    }
    g.nodes[q].latency
}

/// Sum of the node latencies along `p`.
fn path_latency(g: &MappedGraph, p: &Vec<u64>) -> (r: Result<u64, PathError>)
    requires
        g.wf(),
        forall|i: int| 0 <= i < p@.len() ==> has_node(g.nodes@, #[trigger] p@[i]),
    ensures
        r matches Ok(v) ==> v == latency_along(g.nodes@, p@),
        r is Err ==> latency_along(g.nodes@, p@) > u64::MAX,
{
    let mut sum: u64 = 0;
    let mut i: usize = 0;
    while i < p.len()
        invariant
            i <= p@.len(),
            g.wf(),
            forall|k: int| 0 <= k < p@.len() ==> has_node(g.nodes@, #[trigger] p@[k]),
            sum == latency_along(g.nodes@, p@.subrange(0, i as int)),
        decreases p@.len() - i,
    {
        let l = latency_of(g, p[i]);
        proof {
            assert(p@.subrange(0, i as int + 1).drop_last() =~= p@.subrange(0, i as int));
        }
        match sum.checked_add(l) {
            Some(v) => sum = v,
            None => {
                proof {
                    lemma_latency_along_prefix(g.nodes@, p@, i as int + 1);
                }
                return Err(PathError::Overflow);
            },
        }
        i += 1;
    }
    assert(p@.subrange(0, i as int) =~= p@);
    Ok(sum)
}

/// The worst cost of going from `from` to `to` without repeating a node: the
/// largest sum of node latencies over the simple paths, both ends included.
/// `None` when no such path exists.
pub fn overhead(g: &MappedGraph, from: u64, to: u64) -> (r: Result<Option<u64>, PathError>)
    requires
        g.wf(),
        has_node(g.nodes@, from),
        has_node(g.nodes@, to),
        from != to,
    ensures
        r matches Ok(Some(v)) ==> (exists|p: Seq<u64>| is_simple_path(*g, p, from, to) && v == latency_along(g.nodes@, p))
            && (forall|p: Seq<u64>| is_simple_path(*g, p, from, to) ==> v >= latency_along(g.nodes@, p)),
        r matches Ok(None) ==> forall|p: Seq<u64>| !is_simple_path(*g, p, from, to),
        r is Err ==> exists|p: Seq<u64>| is_simple_path(*g, p, from, to) && latency_along(g.nodes@, p) > u64::MAX,
{
    let paths = simple_paths(g, from, to);
    let mut best: Option<u64> = None;
    let mut i: usize = 0;
    while i < paths.len()
        invariant
            i <= paths@.len(),
            g.wf(),
            has_node(g.nodes@, to),
            forall|k: int| 0 <= k < paths@.len() ==> is_simple_path(*g, (#[trigger] paths@[k])@, from, to),
            best is None ==> i == 0,
            best matches Some(v) ==> (exists|k: int| 0 <= k < i && v == latency_along(g.nodes@, (#[trigger] paths@[k])@))
                && forall|k: int| 0 <= k < i ==> v >= latency_along(g.nodes@, (#[trigger] paths@[k])@),
        decreases paths@.len() - i,
    {
        let p = &paths[i];
        proof {
            let ps = paths@[i as int]@;
            assert(p@ == ps);
            assert(is_simple_path(*g, ps, from, to));
            assert forall|k: int| 0 <= k < ps.len() implies has_node(g.nodes@, #[trigger] ps[k]) by {
                if k < ps.len() - 1 {
                    assert(crate::graph::has_edge(g.edges@, ps[k], ps[k + 1]));
                    let j = choose|j: int| #[trigger] crate::graph::edge_at(g.edges@, ps[k], ps[k + 1], j);
                    assert(g.edges@[j].source == ps[k]);
                    assert(has_node(g.nodes@, g.edges@[j].source));
                } else {
                    assert(ps[k] == to);
                }
            }
        }
        let l = path_latency(g, p)?;
        best = match best {
            Some(b) => if b >= l {
                Some(b)
            } else {
                Some(l)
            },
            None => Some(l),
        };
        i += 1;
    }
    proof {
        if let Some(v) = best {
            let k = choose|k: int| 0 <= k < i && v == latency_along(g.nodes@, (#[trigger] paths@[k])@);
            assert(is_simple_path(*g, paths@[k]@, from, to));
            assert forall|p: Seq<u64>| is_simple_path(*g, p, from, to) implies v >= latency_along(g.nodes@, p) by {
                let k2 = choose|k2: int| 0 <= k2 < paths@.len() && (#[trigger] paths@[k2])@ == p;
            }
        } else {
            assert forall|p: Seq<u64>| !is_simple_path(*g, p, from, to) by {
                if is_simple_path(*g, p, from, to) {
                    let k2 = choose|k2: int| 0 <= k2 < paths@.len() && (#[trigger] paths@[k2])@ == p;
                }
            }
        }
    }
    Ok(best)
}

} // verus!
