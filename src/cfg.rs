use vstd::prelude::*;

use std::collections::HashMap;
use std::collections::HashSet;

use crate::block::{latency_sum, lemma_latency_sum_concat, Block, Instruction};
use crate::jump::{classify, classify_spec, ExitJump, FlowDetail};

verus! {

broadcast use vstd::std_specs::hash::group_hash_axioms;

/// A call site whose callee body was already reached from an earlier call site, so
/// the callee must be copied for it.
#[derive(Clone, Copy, Debug, PartialEq, Eq, Structural)]
pub struct CallSite {
    pub target: u64,
    /// Leader of the block that ends with the call.
    pub site_block: u64,
    pub return_address: u64,
}

#[derive(Clone, Copy, Debug, PartialEq, Eq, Structural)]
pub enum CfgError {
    /// There is no instruction to analyse.
    NoInstructions,
}

/// Result of the first pass over the instructions.
pub struct Leaders {
    pub leaders: HashSet<u64>,
    /// The exit jump recorded at each instruction index.
    pub jumps: Vec<Option<ExitJump>>,
    /// Callee entry -> return address of the first call site that reached it.
    pub call_map: HashMap<u64, u64>,
    /// Whether the call at each instruction index reaches an already-called callee.
    pub duplicated: Vec<bool>,
}

/// The classified exit of instruction `i`, which needs a following instruction.
pub open spec fn exit_at(insns: Seq<Instruction>, details: Seq<FlowDetail>, i: int) -> Option<
    ExitJump,
> {
    classify_spec(insns[i + 1].address, details[i])
}

/// Whether the call at index `i` is recorded: a call to the very next
/// instruction is not. A call to its own address is an ordinary call.
pub open spec fn call_recorded(insns: Seq<Instruction>, t: u64, i: int) -> bool {
    insns[i + 1].address != t
}

/// The leaders that the exit of instruction `i` makes.
pub open spec fn leaders_added(insns: Seq<Instruction>, details: Seq<FlowDetail>, i: int) -> Set<u64> {
    match exit_at(insns, details, i) {
        None => Set::empty(),
        Some(ExitJump::Indirect) => Set::empty(),
        Some(ExitJump::Call(t, _)) => if call_recorded(insns, t, i) {
            set![t, insns[i + 1].address]
        } else {
            Set::empty()
        },
        Some(j) => j.targets_spec().to_set().insert(insns[i + 1].address),
    }
}

/// The first address, and the leaders that the exits of the first `k`
/// instructions make.
pub open spec fn leaders_upto(insns: Seq<Instruction>, details: Seq<FlowDetail>, k: int) -> Set<u64>
    decreases k,
{
    if k <= 0 {
        set![insns[0].address]
    } else {
        leaders_upto(insns, details, k - 1).union(leaders_added(insns, details, k - 1))
    }
}

/// All leaders of the instruction stream.
pub open spec fn leader_set(insns: Seq<Instruction>, details: Seq<FlowDetail>) -> Set<u64> {
    leaders_upto(insns, details, insns.len() - 1)
}

/// What the first pass records at instruction `i`.
pub open spec fn leader_facts(
    insns: Seq<Instruction>,
    details: Seq<FlowDetail>,
    i: int,
    jumps: Seq<Option<ExitJump>>,
    leaders: Set<u64>,
    call_map: Map<u64, u64>,
) -> bool {
    match exit_at(insns, details, i) {
        None => jumps[i].is_none(),
        Some(ExitJump::Indirect) => jumps[i].is_none(),
        Some(ExitJump::Call(t, ret)) => if call_recorded(insns, t, i) {
            &&& jumps[i] == Some(ExitJump::Call(t, ret))
            &&& leaders.contains(t)
            &&& leaders.contains(insns[i + 1].address)
            &&& call_map.contains_key(t)
        } else {
            jumps[i].is_none()
        },
        Some(j) => {
            &&& jumps[i] == Some(j)
            &&& leaders.contains(insns[i + 1].address)
            &&& forall|m: int| 0 <= m < j.targets_spec().len() ==> leaders.contains(j.targets_spec()[m])
        },
    }
}

proof fn lemma_leader_facts_grow(
    insns: Seq<Instruction>,
    details: Seq<FlowDetail>,
    i: int,
    jumps: Seq<Option<ExitJump>>,
    leaders: Set<u64>,
    call_map: Map<u64, u64>,
    jumps2: Seq<Option<ExitJump>>,
    leaders2: Set<u64>,
    call_map2: Map<u64, u64>,
)
    requires
        leader_facts(insns, details, i, jumps, leaders, call_map),
        0 <= i < jumps.len() <= jumps2.len(),
        jumps2[i] == jumps[i],
        leaders.subset_of(leaders2),
        call_map.dom().subset_of(call_map2.dom()),
    ensures
        leader_facts(insns, details, i, jumps2, leaders2, call_map2),
{
}

/// Leaders and exit jumps of a sequence of instructions.
///
/// The first address is a leader; so are the targets of direct branches and of
/// recorded calls, and the address after any branch, recorded call or return.
/// An indirect branch records no jump and makes no leader.
pub fn compute_leaders(insns: &Vec<Instruction>, details: &Vec<FlowDetail>) -> (r: Leaders)
    requires
        insns.len() == details.len(),
        insns.len() > 0,
    ensures
        r.jumps@.len() == insns@.len(),
        r.duplicated@.len() == insns@.len(),
        forall|i: int| 0 <= i < insns@.len() - 1 ==> r.duplicated@[i] == #[trigger] repeated_call(insns@, details@, i),
        r.leaders@.contains(insns@[0].address),
        r.leaders@ == leader_set(insns@, details@),
        forall|i: int|
            0 <= i < insns@.len() - 1 ==> #[trigger] leader_facts(
                insns@,
                details@,
                i,
                r.jumps@,
                r.leaders@,
                r.call_map@,
            ),
        r.jumps@[insns@.len() - 1].is_none(),
{
    let n = insns.len();
    let mut leaders: HashSet<u64> = HashSet::new();
    let mut jumps: Vec<Option<ExitJump>> = Vec::new();
    let mut call_map: HashMap<u64, u64> = HashMap::new();
    let mut duplicated: Vec<bool> = Vec::new();
    leaders.insert(insns[0].address);
    let mut i: usize = 0;
    while i + 1 < n
        invariant
            n == insns.len() == details.len(),
            0 <= i < n,
            jumps@.len() == i,
            duplicated@.len() == i,
            forall|k: int| 0 <= k < i ==> duplicated@[k] == #[trigger] repeated_call(insns@, details@, k),
            forall|t: u64| call_map@.contains_key(t) <==> exists|i2: int| 0 <= i2 < i && #[trigger] calls_at(insns@, details@, i2, t),
            leaders@.contains(insns@[0].address),
            leaders@ == leaders_upto(insns@, details@, i as int),
            forall|k: int|
                0 <= k < i ==> #[trigger] leader_facts(
                    insns@,
                    details@,
                    k,
                    jumps@,
                    leaders@,
                    call_map@,
                ),
        decreases n - i,
    {
        let ghost leaders0 = leaders@;
        let ghost call_map0 = call_map@;
        let ghost jumps0 = jumps@;
        let next = insns[i + 1].address;
        let exit = classify(next, details[i]);
        assert(exit == exit_at(insns@, details@, i as int));
        let mut recorded: Option<ExitJump> = None;
        let mut dup = false;
        match exit {
            None => {},
            Some(ExitJump::Indirect) => {},
            Some(ExitJump::Call(t, ret)) => {
                if next != t {
                    leaders.insert(t);
                    leaders.insert(next);
                    assert(leaders@ =~= leaders0.union(set![t, next]));
                    if call_map.contains_key(&t) {
                        dup = true;
                    } else {
                        call_map.insert(t, next);
                    }
                    recorded = exit;
                }
            },
            Some(j) => {
                leaders.insert(next);
                let ts = j.targets();
                let mut k: usize = 0;
                while k < ts.len()
                    invariant
                        k <= ts@.len(),
                        ts@ == j.targets_spec(),
                        leaders@.contains(next),
                        leaders0.subset_of(leaders@),
                        forall|m: int| 0 <= m < k ==> leaders@.contains(ts@[m]),
                        forall|x: u64|
                            leaders@.contains(x) ==> leaders0.contains(x) || x == next || exists|m: int|
                                0 <= m < k && ts@[m] == x,
                    decreases ts@.len() - k,
                {
                    leaders.insert(ts[k]);
                    k += 1;
                }
                proof {
                    let added = j.targets_spec().to_set().insert(next);
                    assert forall|x: u64| leaders@.contains(x) <==> leaders0.union(added).contains(x) by {
                        if leaders@.contains(x) && !leaders0.contains(x) && x != next {
                            let m = choose|m: int| 0 <= m < k && ts@[m] == x;
                            assert(j.targets_spec().contains(x));
                        }
                        if j.targets_spec().to_set().contains(x) {
                            assert(j.targets_spec().contains(x));
                            let m = choose|m: int| 0 <= m < j.targets_spec().len() && j.targets_spec()[m] == x;
                            assert(leaders@.contains(ts@[m]));
                        }
                    }
                    assert(leaders@ =~= leaders0.union(added));
                }
                recorded = exit;
            },
        }
        jumps.push(recorded);
        duplicated.push(dup);
        proof {
            assert(leaders@ =~= leaders_upto(insns@, details@, i as int + 1));
            assert forall|k: int| 0 <= k < i + 1 implies #[trigger] leader_facts(
                insns@,
                details@,
                k,
                jumps@,
                leaders@,
                call_map@,
            ) by {
                if k < i {
                    lemma_leader_facts_grow(
                        insns@,
                        details@,
                        k,
                        jumps0,
                        leaders0,
                        call_map0,
                        jumps@,
                        leaders@,
                        call_map@,
                    );
                }
            }
            assert(leader_facts(insns@, details@, i as int, jumps@, leaders@, call_map@));
            lemma_jump_recorded(insns@, details@, i as int, jumps@, leaders@, call_map@);
            assert(jumps@[i as int] == recorded);
            assert forall|t: u64|
                call_map@.contains_key(t) <==> exists|i2: int| 0 <= i2 < i + 1 && #[trigger] calls_at(insns@, details@, i2, t) by {
                if calls_at(insns@, details@, i as int, t) {
                    assert(0 <= i < i + 1);
                }
                if exists|i2: int| 0 <= i2 < i + 1 && #[trigger] calls_at(insns@, details@, i2, t) {
                    let i2 = choose|i2: int| 0 <= i2 < i + 1 && #[trigger] calls_at(insns@, details@, i2, t);
                    if i2 < i {
                        assert(call_map0.contains_key(t));
                    }
                }
                if call_map@.contains_key(t) && !call_map0.contains_key(t) {
                    assert(calls_at(insns@, details@, i as int, t));
                }
            }
            assert forall|k: int| 0 <= k < i + 1 implies duplicated@[k] == #[trigger] repeated_call(insns@, details@, k) by {
                if k == i {
                    match recorded {
                        Some(ExitJump::Call(t, _)) => {
                            if dup {
                                assert(call_map0.contains_key(t));
                                let i2 = choose|i2: int| 0 <= i2 < i && #[trigger] calls_at(insns@, details@, i2, t);
                            } else {
                                assert(!call_map0.contains_key(t));
                            }
                        },
                        _ => {},
                    }
                } else {
                    assert(duplicated@[k] == duplicated@.drop_last()[k]);
                }
            }
        }
        i += 1;
    }
    let ghost jumps_before = jumps@;
    let ghost dup_before = duplicated@;
    jumps.push(None);
    duplicated.push(false);
    proof {
        assert forall|k: int| 0 <= k < n - 1 implies duplicated@[k] == #[trigger] repeated_call(insns@, details@, k) by {
            assert(duplicated@[k] == dup_before[k]);
        }
        assert forall|k: int| 0 <= k < n - 1 implies #[trigger] leader_facts(
            insns@,
            details@,
            k,
            jumps@,
            leaders@,
            call_map@,
        ) by {
            lemma_leader_facts_grow(
                insns@,
                details@,
                k,
                jumps_before,
                leaders@,
                call_map@,
                jumps@,
                leaders@,
                call_map@,
            );
        }
    }
    Leaders { leaders, jumps, call_map, duplicated }
}

/// The jump that the first pass records at instruction `i`.
pub open spec fn jump_at(insns: Seq<Instruction>, details: Seq<FlowDetail>, i: int) -> Option<ExitJump> {
    match exit_at(insns, details, i) {
        None => None,
        Some(ExitJump::Indirect) => None,
        Some(ExitJump::Call(t, ret)) => if call_recorded(insns, t, i) {
            Some(ExitJump::Call(t, ret))
        } else {
            None
        },
        Some(j) => Some(j),
    }
}

/// The exit of block `b`, which ends at instruction `i`, short of the last one:
/// the recorded jump, `Next` of the following address when there is none, and
/// for a return either a resolved `Ret` or no exit at all.
pub open spec fn exit_fits(insns: Seq<Instruction>, details: Seq<FlowDetail>, i: int, b: Block) -> bool {
    match jump_at(insns, details, i) {
        None => b.exit_jump == Some(ExitJump::Next(insns[i + 1].address)),
        Some(ExitJump::Ret(_)) => b.exit_jump is None || b.exit_jump matches Some(ExitJump::Ret(_)),
        Some(j) => b.exit_jump == Some(j),
    }
}

/// Instruction `i` records a call to `t`.
pub open spec fn calls_at(insns: Seq<Instruction>, details: Seq<FlowDetail>, i: int, t: u64) -> bool {
    match jump_at(insns, details, i) {
        Some(ExitJump::Call(t2, _)) => t2 == t,
        _ => false,
    }
}

/// Instruction `i` records a call to a callee that an earlier call reached.
pub open spec fn repeated_call(insns: Seq<Instruction>, details: Seq<FlowDetail>, i: int) -> bool {
    match jump_at(insns, details, i) {
        Some(ExitJump::Call(t, _)) => exists|i2: int| 0 <= i2 < i && #[trigger] calls_at(insns, details, i2, t),
        _ => false,
    }
}

proof fn lemma_jump_recorded(
    insns: Seq<Instruction>,
    details: Seq<FlowDetail>,
    i: int,
    jumps: Seq<Option<ExitJump>>,
    leaders: Set<u64>,
    call_map: Map<u64, u64>,
)
    requires
        leader_facts(insns, details, i, jumps, leaders, call_map),
    ensures
        jumps[i] == jump_at(insns, details, i),
{
}

/// Basic blocks in address order, and the call sites that need a copy of their callee.
pub struct Cfg {
    pub blocks: Vec<Block>,
    pub calls: Vec<CallSite>,
}

/// The call sites to copy a callee for: each block, short of the last, whose last
/// instruction repeats a call to a callee that an earlier call reached, with its
/// target, its leader and its return address, in block order.
pub open spec fn listed_calls(insns: Seq<Instruction>, details: Seq<FlowDetail>, blocks: Seq<Block>) -> Seq<CallSite>
    decreases blocks.len(),
{
    if blocks.len() == 0 {
        seq![]
    } else {
        let rest = listed_calls(insns, details, blocks.drop_last());
        let e = flatten(blocks).len() - 1;
        if e < insns.len() - 1 && repeated_call(insns, details, e) {
            match jump_at(insns, details, e) {
                Some(ExitJump::Call(t, r)) => rest.push(
                    CallSite { target: t, site_block: blocks.last().leader, return_address: r },
                ),
                _ => rest,
            }
        } else {
            rest
        }
    }
}

/// The instructions of a sequence of blocks, one block after the other.
pub open spec fn flatten(blocks: Seq<Block>) -> Seq<Instruction>
    decreases blocks.len(),
{
    if blocks.len() == 0 {
        seq![]
    } else {
        flatten(blocks.drop_last()) + blocks.last().instructions@
    }
}

/// `blocks` split the instruction stream into basic blocks: read in order they
/// give back the instructions, each is led by its first instruction, which is a
/// leader, and no other instruction of a block is a leader.
pub open spec fn splits_stream(insns: Seq<Instruction>, details: Seq<FlowDetail>, blocks: Seq<Block>) -> bool {
    &&& flatten(blocks) == insns
    &&& forall|k: int| 0 <= k < blocks.len() ==> block_wf(#[trigger] blocks[k])
    &&& forall|k: int| 0 <= k < blocks.len() ==> leader_set(insns, details).contains(#[trigger] blocks[k].leader)
    &&& forall|k: int, m: int|
        0 <= k < blocks.len() && 0 < m < blocks[k].instructions@.len() ==> !leader_set(insns, details).contains(
            #[trigger] blocks[k].instructions@[m].address,
        )
}

/// Largest number of instructions that a block may hold.
pub const MAX_BLOCK_LEN: usize = 0xffff_ffff;

/// A block is well formed when it is led by its first instruction.
pub open spec fn block_wf(b: Block) -> bool {
    &&& 0 < b.instructions@.len() <= MAX_BLOCK_LEN
    &&& b.leader == b.instructions@[0].address
}

proof fn lemma_flatten_push(blocks: Seq<Block>, b: Block)
    ensures
        flatten(blocks.push(b)) == flatten(blocks) + b.instructions@,
{
    assert(blocks.push(b).drop_last() =~= blocks);
}

/// Splits the instructions into basic blocks.
///
/// A block ends before each leader. Its exit is the jump recorded at its last
/// instruction, or `Next` of the following address. A `Ret` is resolved from the
/// call map: entering a block led by a callee entry pushes that entry on a stack
/// of open calls; a `Ret` in such a block returns to the entry's own return
/// address and closes it, and any other `Ret` closes the most recently opened call
/// and returns to its return address. With no open call the `Ret` stays
/// unresolved and the block has no exit. A call that reaches an already-called callee is listed in
/// `calls`. The last block has no exit.
pub fn build_blocks(insns: &Vec<Instruction>, details: &Vec<FlowDetail>) -> (r: Result<Cfg, CfgError>)
    requires
        insns.len() == details.len(),
        insns.len() <= MAX_BLOCK_LEN,
    ensures
        r is Err <==> insns@.len() == 0,
        r matches Ok(cfg) ==> splits_stream(insns@, details@, cfg.blocks@) && cfg.calls@.len() < insns@.len(),
        r matches Ok(cfg) ==> cfg.calls@ == listed_calls(insns@, details@, cfg.blocks@),
        r matches Ok(cfg) ==> {
            &&& flatten(cfg.blocks@) == insns@
            &&& forall|k: int| 0 <= k < cfg.blocks@.len() ==> block_wf(#[trigger] cfg.blocks@[k])
            &&& forall|k: int|
                0 <= k < cfg.blocks@.len() - 1 ==> exit_fits(
                    insns@,
                    details@,
                    flatten(cfg.blocks@.subrange(0, k + 1)).len() - 1,
                    #[trigger] cfg.blocks@[k],
                )
            &&& cfg.blocks@.last().exit_jump is None
            &&& forall|k: int| 0 <= k < cfg.blocks@.len() ==> leader_set(insns@, details@).contains(#[trigger] cfg.blocks@[k].leader)
            &&& forall|k: int, m: int|
                0 <= k < cfg.blocks@.len() && 0 < m < cfg.blocks@[k].instructions@.len() ==> !leader_set(insns@, details@).contains(
                    #[trigger] cfg.blocks@[k].instructions@[m].address,
                )
        },
{
    if insns.len() == 0 {
        return Err(CfgError::NoInstructions);
    }
    let n = insns.len();
    let first_pass = compute_leaders(insns, details);
    let mut blocks: Vec<Block> = Vec::new();
    let mut calls: Vec<CallSite> = Vec::new();
    let mut vacant_ret: Vec<u64> = Vec::new();
    let mut current = Block::new(insns[0].copy());
    if first_pass.call_map.contains_key(&current.leader) {
        vacant_ret.push(current.leader);
    }
    let mut i: usize = 0;
    while i + 1 < n
        invariant
            n == insns.len() == details.len() <= MAX_BLOCK_LEN,
            0 <= i < n,
            first_pass.jumps@.len() == n,
            first_pass.duplicated@.len() == n,
            flatten(blocks@) + current.instructions@ == insns@.subrange(0, i + 1),
            current.instructions@.len() > 0,
            current.leader == current.instructions@[0].address,
            forall|k: int| 0 <= k < blocks@.len() ==> block_wf(#[trigger] blocks@[k]),
            forall|k: int|
                0 <= k < blocks@.len() ==> exit_fits(
                    insns@,
                    details@,
                    flatten(blocks@.subrange(0, k + 1)).len() - 1,
                    #[trigger] blocks@[k],
                ),
            current.exit_jump is None,
            calls@.len() <= i,
            calls@ == listed_calls(insns@, details@, blocks@),
            forall|q: int| 0 <= q < n - 1 ==> first_pass.duplicated@[q] == #[trigger] repeated_call(insns@, details@, q),
            first_pass.leaders@ == leader_set(insns@, details@),
            leader_set(insns@, details@).contains(current.leader),
            forall|m: int|
                0 < m < current.instructions@.len() ==> !leader_set(insns@, details@).contains(
                    #[trigger] current.instructions@[m].address,
                ),
            forall|k: int| 0 <= k < blocks@.len() ==> leader_set(insns@, details@).contains(#[trigger] blocks@[k].leader),
            forall|k: int, m: int|
                0 <= k < blocks@.len() && 0 < m < blocks@[k].instructions@.len() ==> !leader_set(insns@, details@).contains(
                    #[trigger] blocks@[k].instructions@[m].address,
                ),
            forall|q: int|
                0 <= q < n - 1 ==> #[trigger] leader_facts(
                    insns@,
                    details@,
                    q,
                    first_pass.jumps@,
                    first_pass.leaders@,
                    first_pass.call_map@,
                ),
        decreases n - i,
    {
        let next = insns[i + 1].address;
        proof {
            assert(leader_facts(insns@, details@, i as int, first_pass.jumps@, first_pass.leaders@, first_pass.call_map@));
            lemma_jump_recorded(insns@, details@, i as int, first_pass.jumps@, first_pass.leaders@, first_pass.call_map@);
        }
        proof {
            assert(current.instructions@.len() <= i + 1) by {
                assert((flatten(blocks@) + current.instructions@).len() == i + 1);
            }
        }
        if first_pass.leaders.contains(&next) {
            match first_pass.jumps[i] {
                Some(exit) => {
                    let entered_callee = first_pass.call_map.contains_key(&current.leader);
                    match exit {
                        ExitJump::Ret(_) => {
                            if entered_callee {
                                vacant_ret.pop();
                                match first_pass.call_map.get(&current.leader) {
                                    Some(ret) => current.set_exit_jump(ExitJump::Ret(*ret)),
                                    None => {},
                                }
                            } else {
                                match vacant_ret.pop() {
                                    Some(open) => match first_pass.call_map.get(&open) {
                                        Some(ret) => current.set_exit_jump(ExitJump::Ret(*ret)),
                                        None => {},
                                    },
                                    None => {},
                                }
                            }
                        },
                        ExitJump::Call(t, ret) => {
                            if first_pass.duplicated[i] {
                                calls.push(
                                    CallSite { target: t, site_block: current.leader, return_address: ret },
                                );
                            }
                            current.set_exit_jump(exit);
                        },
                        _ => current.set_exit_jump(exit),
                    }
                },
                None => current.set_exit_jump(ExitJump::Next(next)),
            }
            let ghost before = blocks@;
            let sealed = current;
            current = Block::new(insns[i + 1].copy());
            if first_pass.call_map.contains_key(&current.leader) {
                vacant_ret.push(current.leader);
            }
            blocks.push(sealed);
            proof {
                lemma_flatten_push(before, sealed);
                assert(insns@.subrange(0, i + 2) =~= insns@.subrange(0, i + 1).push(insns@[i + 1]));
                assert(flatten(blocks@) + current.instructions@ =~= insns@.subrange(0, i + 2));
                assert(blocks@.drop_last() =~= before);
                assert(flatten(blocks@).len() - 1 == i);
                assert(calls@ == listed_calls(insns@, details@, blocks@));
                assert forall|k: int, m: int|
                    0 <= k < blocks@.len() && 0 < m < blocks@[k].instructions@.len() implies !leader_set(insns@, details@).contains(
                        #[trigger] blocks@[k].instructions@[m].address,
                    ) by {
                    if k < before.len() {
                        assert(blocks@[k] == before[k]);
                    }
                }
                assert forall|k: int| 0 <= k < blocks@.len() implies leader_set(insns@, details@).contains(#[trigger] blocks@[k].leader) by {
                    if k < before.len() {
                        assert(blocks@[k] == before[k]);
                    }
                }
                assert forall|k: int|
                    0 <= k < blocks@.len() implies exit_fits(
                        insns@,
                        details@,
                        flatten(blocks@.subrange(0, k + 1)).len() - 1,
                        #[trigger] blocks@[k],
                    ) by {
                    if k < before.len() {
                        assert(blocks@.subrange(0, k + 1) =~= before.subrange(0, k + 1));
                        assert(blocks@[k] == before[k]);
                    } else {
                        assert(blocks@.subrange(0, k + 1) =~= blocks@);
                        assert((flatten(before) + sealed.instructions@).len() == i + 1);
                    }
                }
            }
        } else {
            let ghost cur0 = current.instructions@;
            current.add_instruction(insns[i + 1].copy());
            proof {
                assert forall|m: int|
                    0 < m < current.instructions@.len() implies !leader_set(insns@, details@).contains(
                        #[trigger] current.instructions@[m].address,
                    ) by {
                    if m < cur0.len() {
                        assert(current.instructions@[m] == cur0[m]);
                    }
                }
                assert(insns@.subrange(0, i + 2) =~= insns@.subrange(0, i + 1).push(insns@[i + 1]));
                assert(flatten(blocks@) + current.instructions@ =~= insns@.subrange(0, i + 2));
            }
        }
        i += 1;
    }
    let ghost before = blocks@;
    proof {
        assert((flatten(blocks@) + current.instructions@).len() == n);
    }
    blocks.push(current);
    proof {
        lemma_flatten_push(before, current);
        assert(blocks@.drop_last() =~= before);
        assert(insns@.subrange(0, n as int) =~= insns@);
        assert forall|k: int, m: int|
            0 <= k < blocks@.len() && 0 < m < blocks@[k].instructions@.len() implies !leader_set(insns@, details@).contains(
                #[trigger] blocks@[k].instructions@[m].address,
            ) by {
            if k < before.len() {
                assert(blocks@[k] == before[k]);
            }
        }
        assert forall|k: int| 0 <= k < blocks@.len() implies leader_set(insns@, details@).contains(#[trigger] blocks@[k].leader) by {
            if k < before.len() {
                assert(blocks@[k] == before[k]);
            }
        }
        assert forall|k: int|
            0 <= k < blocks@.len() - 1 implies exit_fits(
                insns@,
                details@,
                flatten(blocks@.subrange(0, k + 1)).len() - 1,
                #[trigger] blocks@[k],
            ) by {
            assert(blocks@.subrange(0, k + 1) =~= before.subrange(0, k + 1));
            assert(blocks@[k] == before[k]);
        }
    }
    Ok(Cfg { blocks, calls })
}

/// Sum of the latencies of a sequence of blocks.
pub open spec fn blocks_latency(blocks: Seq<Block>) -> int
    decreases blocks.len(),
{
    if blocks.len() == 0 {
        0
    } else {
        blocks_latency(blocks.drop_last()) + blocks.last().latency_spec()
    }
}

/// Along a straight-line trace of blocks, the block latencies add up to the
/// latencies of the instructions on the trace.
pub proof fn lemma_trace_latency(blocks: Seq<Block>)
    ensures
        blocks_latency(blocks) == latency_sum(flatten(blocks)),
    decreases blocks.len(),
{
    if blocks.len() > 0 {
        lemma_trace_latency(blocks.drop_last());
        lemma_latency_sum_concat(flatten(blocks.drop_last()), blocks.last().instructions@);
    }
}

} // verus!
