use vstd::prelude::*;

use std::collections::HashMap;

use crate::block::{Block, Instruction};
use crate::cfg::{block_wf, build_blocks, flatten, leader_set, splits_stream, CfgError, MAX_BLOCK_LEN};
use crate::cycle::{condensate_graph, enters_with_latency, has_cycle, weights_match, Condensation, CycleError};
use crate::duplicate::{
    addresses_below, duplicate_calls, first_block_at, in_some_copy, lemma_pow2_mono, CallCopy, DuplicateError,
};
use crate::graph::{block_latency, build_graph, graph_of, has_node, node_leaders, MappedGraph};
use vstd::arithmetic::power2::pow2;
use crate::jump::FlowDetail;
use crate::paths::{best, longest_paths};

verus! {

broadcast use vstd::std_specs::hash::group_hash_axioms;

/// No edge of the condensed graph enters group `c`.
pub open spec fn is_entry(res: Condensation, c: int) -> bool {
    forall|k: int| 0 <= k < res.graph.edges@.len() ==> (#[trigger] res.graph.edges@[k]).target != c
}

pub open spec fn is_resolved(res: Condensation, c: int) -> bool {
    exists|i: int| 0 <= i < res.cycles@.len() && (#[trigger] res.cycles@[i]).group == c
}

/// The cost of entering group `c`: the folded latency of a cyclic group, or the
/// latency of the group's first block.
pub open spec fn group_cost(res: Condensation, c: int) -> int {
    if is_resolved(res, c) {
        res.cycles@[choose|i: int| 0 <= i < res.cycles@.len() && (#[trigger] res.cycles@[i]).group == c].latency as int
    } else {
        res.graph.groups@[c]@[0].latency as int
    }
}

/// Group `c` starts with a function found to be recursive.
pub open spec fn is_recursive(res: Condensation, rf: Map<u64, u64>, c: int) -> bool {
    rf.contains_key(res.graph.groups@[c]@[0].leader)
}

/// Cost of the heaviest path that starts in group `c`.
pub open spec fn entry_cost(res: Condensation, c: int) -> int {
    group_cost(res, c) + best(res.graph.edges@, c)
}

/// The largest entry cost over the entry groups below `n` that are not recursive.
pub open spec fn plain_max(res: Condensation, rf: Map<u64, u64>, n: int) -> int
    decreases n,
{
    if n <= 0 {
        0
    } else {
        let rest = plain_max(res, rf, n - 1);
        let c = n - 1;
        if is_entry(res, c) && !is_recursive(res, rf, c) && entry_cost(res, c) > rest {
            entry_cost(res, c)
        } else {
            rest
        }
    }
}

/// The sum of the entry costs of the recursive entry groups below `n`.
pub open spec fn recursive_sum(res: Condensation, rf: Map<u64, u64>, n: int) -> int
    decreases n,
{
    if n <= 0 {
        0
    } else {
        let c = n - 1;
        recursive_sum(res, rf, n - 1) + if is_entry(res, c) && is_recursive(res, rf, c) {
            entry_cost(res, c)
        } else {
            0
        }
    }
}

/// The WCET of a folded condensed graph: the heaviest path from an entry group
/// that is not a recursive function, plus once the cost of each entry group that
/// is.
pub open spec fn wcet_spec(res: Condensation, rf: Map<u64, u64>) -> int {
    plain_max(res, rf, res.graph.groups@.len() as int) + recursive_sum(res, rf, res.graph.groups@.len() as int)
}

#[derive(Clone, Copy, Debug, PartialEq, Eq, Structural)]
pub enum WcetError {
    Overflow,
}

/// Whether group `c` has no incoming edge.
fn entry_group(res: &Condensation, c: usize) -> (r: bool)
    ensures
        r == is_entry(*res, c as int),
{
    let mut k: usize = 0;
    while k < res.graph.edges.len()
        invariant
            k <= res.graph.edges@.len(),
            forall|k2: int| 0 <= k2 < k ==> (#[trigger] res.graph.edges@[k2]).target != c,
        decreases res.graph.edges@.len() - k,
    {
        if res.graph.edges[k].target == c {
            return false;
        }
        k += 1;
    }
    true
}

/// The cost of entering group `c`.
fn cost_of_group(res: &Condensation, c: usize) -> (r: u64)
    requires
        c < res.graph.groups@.len(),
        res.graph.groups@[c as int]@.len() > 0,
        forall|i: int, j: int|
            0 <= i < j < res.cycles@.len() ==> (#[trigger] res.cycles@[i]).group > (#[trigger] res.cycles@[j]).group,
    ensures
        r == group_cost(*res, c as int),
{
    let mut i: usize = 0;
    while i < res.cycles.len()
        invariant
            i <= res.cycles@.len(),
            forall|i2: int| 0 <= i2 < i ==> (#[trigger] res.cycles@[i2]).group != c,
            forall|i1: int, j: int|
                0 <= i1 < j < res.cycles@.len() ==> (#[trigger] res.cycles@[i1]).group > (#[trigger] res.cycles@[j]).group,
        decreases res.cycles@.len() - i,
    {
        if res.cycles[i].group == c {
            proof {
                assert(is_resolved(*res, c as int));
                let i2 = choose|i2: int| 0 <= i2 < res.cycles@.len() && (#[trigger] res.cycles@[i2]).group == c;
                if i2 != i {
                    if i2 < i {
                        assert(res.cycles@[i2].group > res.cycles@[i as int].group);
                    } else {
                        assert(res.cycles@[i as int].group > res.cycles@[i2].group);
                    }
                }
            }
            return res.cycles[i].latency;
        }
        i += 1;
    }
    res.graph.groups[c][0].latency
}

/// The WCET of the result of `condensate_graph`, and the part of it that the
/// recursive functions contribute.
pub struct WcetReport {
    pub wcet: u64,
    pub recursive_delay: u64,
    /// Each entry group, in group order, with the cost of entering it and the
    /// heaviest path out of it.
    pub entries: Vec<EntryCost>,
}

#[derive(Clone, Copy, Debug, PartialEq, Eq, Structural)]
pub struct EntryCost {
    pub group: usize,
    pub latency: u64,
    pub path: u64,
}

/// The entry groups below `n`, in order, with their costs.
pub open spec fn entry_list(res: Condensation, n: int) -> Seq<EntryCost>
    decreases n,
{
    if n <= 0 {
        seq![]
    } else {
        let rest = entry_list(res, n - 1);
        let c = n - 1;
        if is_entry(res, c) {
            rest.push(
                EntryCost {
                    group: c as usize,
                    latency: group_cost(res, c) as u64,
                    path: best(res.graph.edges@, c) as u64,
                },
            )
        } else {
            rest
        }
    }
}

/// Sums, over the entry groups, the heaviest path out of each: the largest over
/// those that do not start a recursive function, and once each over those that
/// do.
pub fn compute_wcet(res: &Condensation, recursive_functions: &HashMap<u64, u64>) -> (r: Result<WcetReport, WcetError>)
    requires
        forall|c: int| 0 <= c < res.graph.groups@.len() ==> (#[trigger] res.graph.groups@[c])@.len() > 0,
        forall|i: int, j: int|
            0 <= i < j < res.cycles@.len() ==> (#[trigger] res.cycles@[i]).group > (#[trigger] res.cycles@[j]).group,
    ensures
        r matches Ok(w) ==> w.entries@ == entry_list(*res, res.graph.groups@.len() as int),
        r matches Ok(w) ==> w.wcet == wcet_spec(*res, recursive_functions@) && w.recursive_delay == recursive_sum(
            *res,
            recursive_functions@,
            res.graph.groups@.len() as int,
        ),
        r is Err ==> wcet_spec(*res, recursive_functions@) > u64::MAX || exists|c: int|
            0 <= c < res.graph.groups@.len() && #[trigger] best(res.graph.edges@, c) > u64::MAX,
{
    let n = res.graph.groups.len();
    let ghost rf = recursive_functions@;
    let paths = match longest_paths(&res.graph.edges, n) {
        Ok(v) => v,
        Err(_) => {
            return Err(WcetError::Overflow);
        },
    };
    let mut wcet: u64 = 0;
    let mut delay: u64 = 0;
    let mut entries: Vec<EntryCost> = Vec::new();
    let mut c: usize = 0;
    while c < n
        invariant
            n == res.graph.groups@.len(),
            c <= n,
            rf == recursive_functions@,
            paths@.len() == n,
            forall|d: int| 0 <= d < n ==> #[trigger] paths@[d] == best(res.graph.edges@, d),
            forall|d: int| 0 <= d < res.graph.groups@.len() ==> (#[trigger] res.graph.groups@[d])@.len() > 0,
            forall|i: int, j: int|
                0 <= i < j < res.cycles@.len() ==> (#[trigger] res.cycles@[i]).group > (#[trigger] res.cycles@[j]).group,
            wcet == plain_max(*res, rf, c as int),
            delay == recursive_sum(*res, rf, c as int),
            entries@ == entry_list(*res, c as int),
        decreases n - c,
    {
        if entry_group(res, c) {
            let cost = cost_of_group(res, c);
            let total = match cost.checked_add(paths[c]) {
                Some(t) => t,
                None => {
                    proof {
                        lemma_plain_max_mono(*res, rf, c as int + 1, n as int);
                        lemma_recursive_sum_mono(*res, rf, c as int + 1, n as int);
                        lemma_recursive_sum_mono(*res, rf, 0, n as int);
                        lemma_plain_max_nonneg(*res, rf, n as int);
                    }
                    return Err(WcetError::Overflow);
                },
            };
            entries.push(EntryCost { group: c, latency: cost, path: paths[c] });
            if recursive_functions.contains_key(&res.graph.groups[c][0].leader) {
                delay = match delay.checked_add(total) {
                    Some(d) => d,
                    None => {
                        proof {
                            lemma_recursive_sum_mono(*res, rf, c as int + 1, n as int);
                            lemma_plain_max_nonneg(*res, rf, n as int);
                        }
                        return Err(WcetError::Overflow);
                    },
                };
            } else if total > wcet {
                wcet = total;
            }
        }
        c += 1;
    }
    let total = match wcet.checked_add(delay) {
        Some(t) => t,
        None => {
            return Err(WcetError::Overflow);
        },
    };
    Ok(WcetReport { wcet: total, recursive_delay: delay, entries })
}

proof fn lemma_plain_max_nonneg(res: Condensation, rf: Map<u64, u64>, n: int)
    ensures
        plain_max(res, rf, n) >= 0,
    decreases n,
{
    if n > 0 {
        lemma_plain_max_nonneg(res, rf, n - 1);
    }
}

proof fn lemma_plain_max_mono(res: Condensation, rf: Map<u64, u64>, m: int, n: int)
    requires
        0 <= m <= n,
    ensures
        plain_max(res, rf, n) >= plain_max(res, rf, m),
    decreases n - m,
{
    if n > m {
        lemma_plain_max_mono(res, rf, m, n - 1);
    }
}

proof fn lemma_recursive_sum_mono(res: Condensation, rf: Map<u64, u64>, m: int, n: int)
    requires
        0 <= m <= n,
        forall|c: int| 0 <= c < res.graph.groups@.len() ==> (#[trigger] res.graph.groups@[c])@.len() > 0,
    ensures
        recursive_sum(res, rf, n) >= recursive_sum(res, rf, m),
    decreases n - m,
{
    if n > m {
        lemma_recursive_sum_mono(res, rf, m, n - 1);
        let c = n - 1;
        if is_entry(res, c) && is_recursive(res, rf, c) {
            assert(group_cost(res, c) >= 0);
            assert(best(res.graph.edges@, c) >= 0) by {
                lemma_best_nonneg(res.graph.edges@, c);
            }
        }
    }
}

proof fn lemma_best_nonneg(edges: Seq<crate::scc::CondensedEdge>, c: int)
    ensures
        best(edges, c) >= 0,
{
    crate::paths::lemma_best_upto_nonneg(edges, c, edges.len() as int);
}

/// The built graph weighs each edge with the latency of the node it enters.
proof fn lemma_built_weights(blocks: Seq<Block>, g: MappedGraph)
    requires
        forall|k: int| 0 <= k < blocks.len() ==> has_node(g.nodes@, (#[trigger] blocks[k]).leader),
        forall|q: int|
            0 <= q < g.nodes@.len() ==> block_latency(blocks, (#[trigger] g.nodes@[q]).leader, g.nodes@[q].latency as int),
        forall|k: int|
            0 <= k < g.edges@.len() ==> {
                let e = #[trigger] g.edges@[k];
                &&& crate::duplicate::is_leader(blocks, e.target)
                &&& block_latency(blocks, e.target, e.weight as int)
            },
    ensures
        weights_match(g),
{
    assert forall|k: int| 0 <= k < g.edges@.len() implies enters_with_latency(g.nodes@, #[trigger] g.edges@[k]) by {
        let e = g.edges@[k];
        let b = choose|b: int| 0 <= b < blocks.len() && blocks[b].leader == e.target;
        assert(has_node(g.nodes@, blocks[b].leader));
        let q = choose|q: int| 0 <= q < node_leaders(g.nodes@).len() && node_leaders(g.nodes@)[q] == e.target;
        assert(g.nodes@[q].leader == e.target);
        assert(block_latency(blocks, g.nodes@[q].leader, g.nodes@[q].latency as int));
        let f1 = choose|f: int| first_block_at(blocks, e.target, f) && e.weight == blocks[f].latency_spec();
        let f2 = choose|f: int| first_block_at(blocks, e.target, f) && g.nodes@[q].latency == blocks[f].latency_spec();
        if f1 < f2 {
            assert(blocks[f1].leader == e.target);
        } else if f2 < f1 {
            assert(blocks[f2].leader == e.target);
        }
    }
}

#[derive(Clone, Copy, Debug, PartialEq, Eq, Structural)]
pub enum AnalysisError {
    NoInstructions,
    /// More instructions than a block may hold.
    TooManyInstructions,
    /// The fictitious addresses for the callee copies would not fit in 64 bits.
    AddressSpaceExhausted,
    /// A cycle has no way out.
    NoExit,
    /// A cycle's entry does not reach its exit.
    NoPath,
    /// A cycle's latency does not fit in 64 bits.
    CycleOverflow,
    /// A path latency or the WCET does not fit in 64 bits.
    WcetOverflow,
}

/// `blocks` hold the blocks of the instruction stream, its first `n`, followed by
/// callee copies, and `g` is their CFG.
pub open spec fn built(
    insns: Seq<Instruction>,
    details: Seq<FlowDetail>,
    blocks: Seq<Block>,
    n: int,
    g: MappedGraph,
) -> bool {
    &&& 0 <= n <= blocks.len()
    &&& splits_stream(insns, details, blocks.subrange(0, n))
    &&& graph_of(blocks, g)
}

proof fn lemma_flatten_same(a: Seq<Block>, b: Seq<Block>)
    requires
        a.len() == b.len(),
        forall|k: int| 0 <= k < a.len() ==> (#[trigger] a[k]).instructions@ == b[k].instructions@,
    ensures
        flatten(a) == flatten(b),
    decreases a.len(),
{
    if a.len() > 0 {
        lemma_flatten_same(a.drop_last(), b.drop_last());
        assert(a.last().instructions@ == b.last().instructions@);
    }
}

proof fn lemma_addresses_below_mono(blocks: Seq<Block>, lo: int, hi: int)
    requires
        lo <= hi,
        addresses_below(blocks, lo),
    ensures
        addresses_below(blocks, hi),
{
}

/// Everything the analysis of one instruction stream produces.
pub struct Analysis {
    /// Blocks after duplication, those of the instruction stream first.
    pub blocks: Vec<Block>,
    /// How many of `blocks` come from the instruction stream.
    pub stream_len: usize,
    pub copies: Vec<CallCopy>,
    pub recursive_functions: HashMap<u64, u64>,
    pub graph: MappedGraph,
    pub condensation: Condensation,
    pub wcet: u64,
    pub recursive_delay: u64,
    /// The entry groups of the condensation with their costs.
    pub entries: Vec<EntryCost>,
}

/// Runs the whole analysis: blocks, callee copies, CFG, cycle folding and WCET.
pub fn analyze(insns: &Vec<Instruction>, details: &Vec<FlowDetail>) -> (r: Result<Analysis, AnalysisError>)
    requires
        insns@.len() == details@.len(),
    ensures
        (r == Err::<Analysis, AnalysisError>(AnalysisError::NoInstructions)) <==> insns@.len() == 0,
        (r == Err::<Analysis, AnalysisError>(AnalysisError::TooManyInstructions)) <==> insns@.len() > MAX_BLOCK_LEN,
        r == Err::<Analysis, AnalysisError>(AnalysisError::AddressSpaceExhausted) ==> exists|bs: Seq<Block>|
            #[trigger] splits_stream(insns@, details@, bs) && !addresses_below(
                bs,
                u64::MAX - bs.len() * pow2(insns@.len() as nat),
            ),
        (r == Err::<Analysis, AnalysisError>(AnalysisError::NoExit) || r == Err::<Analysis, AnalysisError>(
            AnalysisError::NoPath,
        ) || r == Err::<Analysis, AnalysisError>(AnalysisError::CycleOverflow)) ==> exists|
            bs: Seq<Block>,
            n: int,
            g: MappedGraph,
        | #[trigger] built(insns@, details@, bs, n, g) && has_cycle(g),
        r == Err::<Analysis, AnalysisError>(AnalysisError::WcetOverflow) ==> exists|
            bs: Seq<Block>,
            n: int,
            g: MappedGraph,
            res: Condensation,
            rf: Map<u64, u64>,
        |
            #[trigger] built(insns@, details@, bs, n, g) && #[trigger] crate::cycle::folded(g, res) && (#[trigger] wcet_spec(
                res,
                rf,
            ) > u64::MAX || exists|c: int|
                0 <= c < res.graph.groups@.len() && #[trigger] best(res.graph.edges@, c) > u64::MAX),
        r matches Ok(a) ==> {
            &&& built(insns@, details@, a.blocks@, a.stream_len as int, a.graph)
            &&& forall|q: int| a.stream_len <= q < a.blocks@.len() ==> in_some_copy(a.copies@, (#[trigger] a.blocks@[q]).leader)
            &&& a.graph.wf()
            &&& crate::cycle::folded(a.graph, a.condensation)
            &&& a.wcet == wcet_spec(a.condensation, a.recursive_functions@)
            &&& a.entries@ == entry_list(a.condensation, a.condensation.graph.groups@.len() as int)
            &&& a.recursive_delay == recursive_sum(
                a.condensation,
                a.recursive_functions@,
                a.condensation.graph.groups@.len() as int,
            )
            &&& forall|k: int| 0 <= k < a.blocks@.len() ==> has_node(a.graph.nodes@, (#[trigger] a.blocks@[k]).leader)
        },
{
    if insns.len() > MAX_BLOCK_LEN {
        return Err(AnalysisError::TooManyInstructions);
    }
    let cfg = match build_blocks(insns, details) {
        Ok(c) => c,
        Err(CfgError::NoInstructions) => {
            return Err(AnalysisError::NoInstructions);
        },
    };
    proof {
        assert forall|q: int| 0 <= q < cfg.blocks@.len() implies (#[trigger] cfg.blocks@[q]).instructions@.len() <= MAX_BLOCK_LEN by {
            assert(block_wf(cfg.blocks@[q]));
        }
    }
    let stream_len = cfg.blocks.len();
    let ghost stream = cfg.blocks@;
    let program = match duplicate_calls(cfg.blocks, &cfg.calls) {
        Ok(p) => p,
        Err(DuplicateError::AddressSpaceExhausted) => {
            proof {
                lemma_pow2_mono(cfg.calls@.len() as nat, insns@.len() as nat);
                assert(stream.len() * pow2(cfg.calls@.len() as nat) <= stream.len() * pow2(insns@.len() as nat))
                    by (nonlinear_arith)
                    requires pow2(cfg.calls@.len() as nat) <= pow2(insns@.len() as nat);
                if addresses_below(stream, u64::MAX - stream.len() * pow2(insns@.len() as nat)) {
                    lemma_addresses_below_mono(
                        stream,
                        u64::MAX - stream.len() * pow2(insns@.len() as nat),
                        u64::MAX - stream.len() * pow2(cfg.calls@.len() as nat),
                    );
                }
                assert(splits_stream(insns@, details@, stream));
            }
            return Err(AnalysisError::AddressSpaceExhausted);
        },
    };
    let graph = build_graph(&program.blocks);
    proof {
        lemma_built_weights(program.blocks@, graph);
        let pre = program.blocks@.subrange(0, stream_len as int);
        assert forall|k: int| 0 <= k < pre.len() implies (#[trigger] pre[k]).instructions@ == stream[k].instructions@ by {
            assert(pre[k] == program.blocks@[k]);
        }
        lemma_flatten_same(pre, stream);
        assert forall|k: int| 0 <= k < pre.len() implies block_wf(#[trigger] pre[k]) by {
            assert(pre[k] == program.blocks@[k]);
            assert(block_wf(stream[k]));
        }
        assert forall|k: int| 0 <= k < pre.len() implies leader_set(insns@, details@).contains(#[trigger] pre[k].leader) by {
            assert(pre[k] == program.blocks@[k]);
            assert(leader_set(insns@, details@).contains(stream[k].leader));
        }
        assert forall|k: int, m: int|
            0 <= k < pre.len() && 0 < m < pre[k].instructions@.len() implies !leader_set(insns@, details@).contains(
                #[trigger] pre[k].instructions@[m].address,
            ) by {
            assert(pre[k] == program.blocks@[k]);
            assert(stream[k].instructions@[m] == pre[k].instructions@[m]);
        }
        assert(built(insns@, details@, program.blocks@, stream_len as int, graph));
    }
    let condensation = match condensate_graph(&graph) {
        Ok(c) => c,
        Err(e) => {
            proof {
                assert(built(insns@, details@, program.blocks@, stream_len as int, graph));
            }
            return Err(
                match e {
                    CycleError::NoExit => AnalysisError::NoExit,
                    CycleError::NoPath => AnalysisError::NoPath,
                    CycleError::Overflow => AnalysisError::CycleOverflow,
                },
            );
        },
    };
    let report = match compute_wcet(&condensation, &program.recursive_functions) {
        Ok(w) => w,
        Err(_) => {
            proof {
                assert(built(insns@, details@, program.blocks@, stream_len as int, graph));
                assert(crate::cycle::folded(graph, condensation));
            }
            return Err(AnalysisError::WcetOverflow);
        },
    };
    Ok(
        Analysis {
            blocks: program.blocks,
            stream_len,
            copies: program.copies,
            recursive_functions: program.recursive_functions,
            graph,
            condensation,
            wcet: report.wcet,
            recursive_delay: report.recursive_delay,
            entries: report.entries,
        },
    )
}

} // verus!
