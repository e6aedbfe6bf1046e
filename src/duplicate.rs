use vstd::prelude::*;

use std::collections::HashMap;

use crate::block::{copy_instructions, Block};
use crate::cfg::{CallSite, MAX_BLOCK_LEN};
use crate::jump::ExitJump;
use vstd::arithmetic::power2::{lemma_pow2_strictly_increases, lemma_pow2_unfold, pow2};

verus! {

broadcast use vstd::std_specs::hash::group_hash_axioms;

/// Index of the first block led by `leader`.
pub open spec fn first_block_at(blocks: Seq<Block>, leader: u64, k: int) -> bool {
    &&& 0 <= k < blocks.len()
    &&& blocks[k].leader == leader
    &&& forall|q: int| 0 <= q < k ==> blocks[q].leader != leader
}

pub open spec fn is_leader(blocks: Seq<Block>, t: u64) -> bool {
    exists|q: int| 0 <= q < blocks.len() && blocks[q].leader == t
}

/// Finds the first block led by `leader`.
pub fn find_block(blocks: &Vec<Block>, leader: u64) -> (r: Option<usize>)
    ensures
        r matches Some(k) ==> first_block_at(blocks@, leader, k as int),
        r is None <==> !is_leader(blocks@, leader),
{
    let mut k: usize = 0;
    while k < blocks.len()
        invariant
            k <= blocks@.len(),
            forall|q: int| 0 <= q < k ==> blocks@[q].leader != leader,
        decreases blocks@.len() - k,
    {
        if blocks[k].leader == leader {
            return Some(k);
        }
        k += 1;
    }
    None
}

/// A walk of the copy goes on through a block unless it returns.
pub open spec fn walks_on(b: Block) -> bool {
    !(b.exit_jump matches Some(ExitJump::Ret(_)))
}

pub open spec fn origin_leaders(blocks: Seq<Block>, origins: Seq<usize>) -> Seq<u64> {
    origins.map_values(|o: usize| blocks[o as int].leader)
}

/// The fictitious leader that stands for `t` in a copy whose blocks come from the
/// blocks led by `ls`, numbered from `base`; other addresses stay.
pub open spec fn rename(ls: Seq<u64>, base: u64, t: u64) -> u64 {
    if ls.contains(t) {
        (base + ls.index_of(t)) as u64
    } else {
        t
    }
}

/// The exit of the copy of `b`: a return goes back to `ret_address`, any other
/// jump is renamed into the copy.
pub open spec fn copy_exit(b: Block, ls: Seq<u64>, base: u64, ret_address: u64) -> Option<ExitJump> {
    match b.exit_jump {
        None => None,
        Some(ExitJump::Ret(_)) => Some(ExitJump::Ret(ret_address)),
        Some(j) => Some(j.with_targets_spec(j.targets_spec().map_values(|t: u64| rename(ls, base, t)))),
    }
}

/// An edge out of copied block `k`, at target position `m`.
pub open spec fn occurrence(blocks: Seq<Block>, origins: Seq<usize>, k: int, m: int) -> bool {
    &&& 0 <= k < origins.len()
    &&& walks_on(blocks[origins[k] as int])
    &&& 0 <= m < blocks[origins[k] as int].targets_spec().len()
}

pub open spec fn occ_target(blocks: Seq<Block>, origins: Seq<usize>, k: int, m: int) -> u64 {
    blocks[origins[k] as int].targets_spec()[m]
}

/// Whether the edge `e` was examined before position `(i, m)` of the walk.
pub open spec fn examined_before(e: (usize, usize), i: int, m: int) -> bool {
    e.0 < i || (e.0 == i && e.1 < m)
}

/// A copy of a callee body under fictitious leaders.
pub struct CalleeCopy {
    /// Copy `i` is led by `base + i`; copy 0 is the entry.
    pub blocks: Vec<Block>,
    /// Index, among the given blocks, of the block that each copy was made from.
    pub origins: Vec<usize>,
    /// For copy `j >= 1`: the edge `(copy, target position)` through which the walk
    /// first reached it, stored at `j - 1`.
    pub discovered_by: Vec<(usize, usize)>,
    /// The edges through which the walk came back to a block already in the copy.
    pub back_edges: Vec<(usize, usize)>,
}

/// The state of the walk when it is about to examine edge `(i, m)`.
pub open spec fn walk_inv(
    blocks: Seq<Block>,
    base: u64,
    ret_address: u64,
    copies: Seq<Block>,
    origins: Seq<usize>,
    disc: Seq<(usize, usize)>,
    back: Seq<(usize, usize)>,
    i: int,
    m: int,
) -> bool {
    let ls = origin_leaders(blocks, origins);
    &&& 0 <= i <= origins.len() <= blocks.len() <= usize::MAX
    &&& base + blocks.len() <= u64::MAX
    &&& copies.len() == i
    &&& disc.len() + 1 == origins.len()
    &&& ls.no_duplicates()
    &&& forall|j: int| 0 <= j < origins.len() ==> #[trigger] origins[j] < blocks.len()
    &&& forall|j: int| 0 <= j < origins.len() ==> first_block_at(blocks, #[trigger] ls[j], origins[j] as int)
    &&& forall|k: int|
        0 <= k < i ==> {
            &&& (#[trigger] copies[k]).leader == base + k
            &&& copies[k].instructions@ == blocks[origins[k] as int].instructions@
            &&& copies[k].exit_jump == copy_exit(blocks[origins[k] as int], ls, base, ret_address)
        }
    &&& forall|k: int, mm: int|
        #![trigger occ_target(blocks, origins, k, mm)]
        occurrence(blocks, origins, k, mm) && examined_before((k as usize, mm as usize), i, m) ==> {
            let t = occ_target(blocks, origins, k, mm);
            &&& ls.contains(t) || !is_leader(blocks, t)
            &&& ls.contains(t) ==> (back.contains((k as usize, mm as usize)) || (ls.index_of(t) >= 1
                && disc[ls.index_of(t) - 1] == (k as usize, mm as usize)))
        }
    &&& forall|j: int|
        1 <= j < origins.len() ==> {
            let e = #[trigger] disc[j - 1];
            &&& occurrence(blocks, origins, e.0 as int, e.1 as int)
            &&& examined_before(e, i, m)
            &&& occ_target(blocks, origins, e.0 as int, e.1 as int) == ls[j]
            &&& e.0 < j
        }
    &&& forall|j1: int, j2: int|
        1 <= j1 < j2 < origins.len() ==> examined_before(#[trigger] disc[j1 - 1], (#[trigger] disc[j2 - 1]).0 as int, disc[j2 - 1].1 as int)
    &&& forall|b: int|
        0 <= b < back.len() ==> {
            let e = #[trigger] back[b];
            let t = occ_target(blocks, origins, e.0 as int, e.1 as int);
            &&& occurrence(blocks, origins, e.0 as int, e.1 as int)
            &&& examined_before(e, i, m)
            &&& ls.contains(t)
            &&& (ls.index_of(t) == 0 || disc[ls.index_of(t) - 1] != e)
        }
}

proof fn lemma_rename_push(ls: Seq<u64>, x: u64, base: u64, t: u64)
    requires
        ls.push(x).no_duplicates(),
        ls.contains(t) || t != x,
    ensures
        rename(ls.push(x), base, t) == rename(ls, base, t),
{
    let ls2 = ls.push(x);
    if ls.contains(t) {
        let j = ls.index_of(t);
        assert(ls2[j] == t);
        assert(ls2.contains(t));
        let j2 = ls2.index_of(t);
        assert(ls2[j2] == t);
    } else {
        assert(!ls2.contains(t)) by {
            if ls2.contains(t) {
                let j2 = ls2.index_of(t);
                assert(ls2[j2] == t);
                if j2 < ls.len() {
                    assert(ls[j2] == t);
                }
            }
        }
    }
}

proof fn lemma_copy_exit_push(b: Block, ls: Seq<u64>, x: u64, base: u64, ret_address: u64)
    requires
        ls.push(x).no_duplicates(),
        walks_on(b) ==> forall|m: int|
            0 <= m < b.targets_spec().len() ==> ls.contains(#[trigger] b.targets_spec()[m]) || b.targets_spec()[m] != x,
    ensures
        copy_exit(b, ls.push(x), base, ret_address) == copy_exit(b, ls, base, ret_address),
{
    match b.exit_jump {
        None => {},
        Some(ExitJump::Ret(_)) => {},
        Some(j) => {
            let ts = j.targets_spec();
            assert forall|m: int| 0 <= m < ts.len() implies rename(ls.push(x), base, ts[m]) == rename(ls, base, ts[m]) by {
                assert(b.targets_spec()[m] == ts[m]);
                lemma_rename_push(ls, x, base, ts[m]);
            }
            assert(ts.map_values(|t: u64| rename(ls.push(x), base, t)) =~= ts.map_values(
                |t: u64| rename(ls, base, t),
            ));
        },
    }
}

proof fn lemma_leaders_bound(blocks: Seq<Block>, ls: Seq<u64>)
    requires
        ls.no_duplicates(),
        forall|j: int| 0 <= j < ls.len() ==> is_leader(blocks, #[trigger] ls[j]),
    ensures
        ls.len() <= blocks.len(),
{
    let all = blocks.map_values(|b: Block| b.leader);
    ls.unique_seq_to_set();
    all.lemma_cardinality_of_set();
    assert(ls.to_set().subset_of(all.to_set())) by {
        assert forall|t: u64| ls.to_set().contains(t) implies all.to_set().contains(t) by {
            let j = choose|j: int| 0 <= j < ls.len() && ls[j] == t;
            assert(is_leader(blocks, ls[j]));
            let q = choose|q: int| 0 <= q < blocks.len() && blocks[q].leader == ls[j];
            assert(all[q] == t);
        }
    }
    vstd::set_lib::lemma_len_subset(ls.to_set(), all.to_set());
}

/// Number of edges that the walk examines out of block `b`.
pub open spec fn walked_edges(b: Block) -> int {
    if walks_on(b) {
        b.targets_spec().len() as int
    } else {
        0
    }
}

proof fn lemma_walk_advance(
    blocks: Seq<Block>,
    base: u64,
    ret_address: u64,
    copies: Seq<Block>,
    origins: Seq<usize>,
    disc: Seq<(usize, usize)>,
    back: Seq<(usize, usize)>,
    i: int,
    copy: Block,
)
    requires
        0 <= i < origins.len(),
        walk_inv(blocks, base, ret_address, copies, origins, disc, back, i, walked_edges(blocks[origins[i] as int])),
        copy.leader == base + i,
        copy.instructions@ == blocks[origins[i] as int].instructions@,
        copy.exit_jump == copy_exit(blocks[origins[i] as int], origin_leaders(blocks, origins), base, ret_address),
    ensures
        walk_inv(blocks, base, ret_address, copies.push(copy), origins, disc, back, i + 1, 0),
{
    let n = walked_edges(blocks[origins[i] as int]);
    let copies2 = copies.push(copy);
    assert forall|k: int| 0 <= k < i + 1 implies {
        &&& (#[trigger] copies2[k]).leader == base + k
        &&& copies2[k].instructions@ == blocks[origins[k] as int].instructions@
        &&& copies2[k].exit_jump == copy_exit(blocks[origins[k] as int], origin_leaders(blocks, origins), base, ret_address)
    } by {
        if k < i {
            assert(copies2[k] == copies[k]);
        }
    }
    assert forall|k: int, mm: int|
        occurrence(blocks, origins, k, mm) && examined_before((k as usize, mm as usize), i + 1, 0)
        implies examined_before((k as usize, mm as usize), i, n) by {
    }
    assert forall|j: int| 1 <= j < origins.len() implies examined_before(#[trigger] disc[j - 1], i + 1, 0) by {
        let e = disc[j - 1];
        assert(occurrence(blocks, origins, e.0 as int, e.1 as int));
    }
    assert forall|b: int| 0 <= b < back.len() implies examined_before(#[trigger] back[b], i + 1, 0) by {
        let e = back[b];
        assert(occurrence(blocks, origins, e.0 as int, e.1 as int));
    }
}

/// Position, among the blocks copied so far, of the one made from the block led by `t`.
fn position_in(blocks: &Vec<Block>, origins: &Vec<usize>, t: u64) -> (r: Option<usize>)
    requires
        forall|j: int| 0 <= j < origins@.len() ==> origins@[j] < blocks@.len(),
    ensures
        r matches Some(q) ==> q < origins@.len() && origin_leaders(blocks@, origins@)[q as int] == t,
        r is None ==> !origin_leaders(blocks@, origins@).contains(t),
{
    let mut j: usize = 0;
    while j < origins.len()
        invariant
            j <= origins@.len(),
            forall|q: int| 0 <= q < origins@.len() ==> origins@[q] < blocks@.len(),
            forall|q: int| 0 <= q < j ==> origin_leaders(blocks@, origins@)[q] != t,
        decreases origins@.len() - j,
    {
        if blocks[origins[j]].leader == t {
            return Some(j);
        }
        j += 1;
    }
    None
}

/// Copies the callee body entered at `call_target_address` for one call site.
///
/// The walk starts at the callee entry and follows the targets of each copied
/// block that lead to existing blocks, but goes no further than a block that
/// returns; that block's copy returns to `ret_address`. Copy `i` is led by the
/// fictitious address `base + i`, and every edge to a copied block is renamed to
/// its copy. An edge that reaches a block already in the copy is a back-edge, which
/// marks a recursion; every other edge into the copy is the one that first
/// reached its target.
pub fn duplicate(blocks: &Vec<Block>, call_target_address: u64, ret_address: u64, base: u64) -> (r:
    Option<CalleeCopy>)
    requires
        base + blocks@.len() <= u64::MAX,
    ensures
        r is None <==> !is_leader(blocks@, call_target_address),
        r matches Some(c) ==> {
            &&& c.origins@.len() == c.blocks@.len()
            &&& first_block_at(blocks@, call_target_address, c.origins@[0] as int)
            &&& walk_inv(
                blocks@,
                base,
                ret_address,
                c.blocks@,
                c.origins@,
                c.discovered_by@,
                c.back_edges@,
                c.blocks@.len() as int,
                0,
            )
        },
{
    let entry = match find_block(blocks, call_target_address) {
        Some(k) => k,
        None => {
            return None;
        },
    };
    let nb = blocks.len();
    let mut copies: Vec<Block> = Vec::new();
    let mut origins: Vec<usize> = vec![entry];
    let mut disc: Vec<(usize, usize)> = Vec::new();
    let mut back: Vec<(usize, usize)> = Vec::new();
    proof {
        let ls = origin_leaders(blocks@, origins@);
        assert(ls =~= seq![call_target_address]);
    }
    let mut i: usize = 0;
    while i < origins.len()
        invariant
            walk_inv(blocks@, base, ret_address, copies@, origins@, disc@, back@, i as int, 0),
            origins@[0] == entry,
            first_block_at(blocks@, call_target_address, entry as int),
        decreases blocks@.len() - i,
    {
        let src = &blocks[origins[i]];
        let exit = match src.exit_jump {
            None => None,
            Some(ExitJump::Ret(_)) => Some(ExitJump::Ret(ret_address)),
            Some(j) => {
                let ts = j.targets();
                let mut nts: Vec<u64> = Vec::new();
                let mut m: usize = 0;
                while m < ts.len()
                    invariant
                        walk_inv(blocks@, base, ret_address, copies@, origins@, disc@, back@, i as int, m as int),
                        origins@[0] == entry,
                        first_block_at(blocks@, call_target_address, entry as int),
                        i < origins@.len(),
                        *src == blocks@[origins@[i as int] as int],
                        src.exit_jump == Some(j),
                        walks_on(*src),
                        ts@ == j.targets_spec(),
                        m <= ts@.len(),
                        nts@.len() == m,
                        forall|mm: int| 0 <= mm < m ==> nts@[mm] == rename(origin_leaders(blocks@, origins@), base, #[trigger] ts@[mm]),
                    decreases ts@.len() - m,
                {
                    let t = ts[m];
                    let ghost ls0 = origin_leaders(blocks@, origins@);
                    assert(occurrence(blocks@, origins@, i as int, m as int));
                    assert(occ_target(blocks@, origins@, i as int, m as int) == t);
                    match position_in(blocks, &origins, t) {
                        Some(q) => {
                            proof {
                                assert(ls0[q as int] == t);
                                assert(ls0.contains(t));
                                let idx = ls0.index_of(t);
                                assert(ls0[idx] == t);
                            }
                            let ghost back0 = back@;
                            back.push((i, m));
                            nts.push(base + q as u64);
                            proof {
                                assert(back@[back@.len() - 1] == (i, m));
                                assert forall|e: (usize, usize)| back0.contains(e) implies back@.contains(e) by {
                                    let b = choose|b: int| 0 <= b < back0.len() && back0[b] == e;
                                    assert(back@[b] == e);
                                }
                                assert forall|b: int| 0 <= b < back@.len() implies #[trigger] back@[b] == back0[b] || b == back0.len() by {}
                            }
                            assert(walk_inv(blocks@, base, ret_address, copies@, origins@, disc@, back@, i as int, m as int + 1));
                        },
                        None => {
                            match find_block(blocks, t) {
                                Some(k) => {
                                    let ghost old_len = origins@.len();
                                    let ghost disc0 = disc@;
                                    let ghost origins0 = origins@;
                                    origins.push(k);
                                    disc.push((i, m));
                                    proof {
                                        let ls = origin_leaders(blocks@, origins@);
                                        assert(ls =~= ls0.push(t));
                                        assert(ls.no_duplicates());
                                        assert forall|j: int| 0 <= j < ls.len() implies is_leader(blocks@, #[trigger] ls[j]) by {
                                            assert(first_block_at(blocks@, ls[j], origins@[j] as int));
                                        }
                                        lemma_leaders_bound(blocks@, ls);
                                    }
                                    nts.push(base + (origins.len() - 1) as u64);
                                    proof {
                                        let ls = origin_leaders(blocks@, origins@);
                                        assert(ls[old_len as int] == t);
                                        assert(ls.contains(t));
                                        let idx = ls.index_of(t);
                                        assert(ls[idx] == t);
                                        assert(idx == old_len);
                                        // earlier copies keep their exits
                                        assert forall|kk: int| 0 <= kk < i implies copies@[kk].exit_jump == copy_exit(blocks@[origins@[kk] as int], ls, base, ret_address) by {
                                            let b = blocks@[origins@[kk] as int];
                                            assert(origins@[kk] == origins0[kk]);
                                            assert forall|mm: int| 0 <= mm < b.targets_spec().len() && walks_on(b) implies ls0.contains(#[trigger] b.targets_spec()[mm]) || b.targets_spec()[mm] != t by {
                                                assert(occ_target(blocks@, origins0, kk, mm) == b.targets_spec()[mm]);
                                                assert(occurrence(blocks@, origins0, kk, mm));
                                            }
                                            lemma_copy_exit_push(b, ls0, t, base, ret_address);
                                        }
                                        assert forall|mm: int| 0 <= mm < m + 1 implies nts@[mm] == rename(ls, base, #[trigger] ts@[mm]) by {
                                            if mm < m {
                                                assert(occ_target(blocks@, origins0, i as int, mm) == ts@[mm]);
                                                assert(occurrence(blocks@, origins0, i as int, mm));
                                                lemma_rename_push(ls0, t, base, ts@[mm]);
                                            }
                                        }
                                        assert(walk_inv(blocks@, base, ret_address, copies@, origins@, disc@, back@, i as int, m as int + 1)) by {
                                            assert forall|kk: int, mm: int|
                                                occurrence(blocks@, origins@, kk, mm) && examined_before((kk as usize, mm as usize), i as int, m as int + 1)
                                                implies {
                                                    let t2 = #[trigger] occ_target(blocks@, origins@, kk, mm);
                                                    &&& ls.contains(t2) || !is_leader(blocks@, t2)
                                                    &&& ls.contains(t2) ==> (back@.contains((kk as usize, mm as usize)) || (ls.index_of(t2) >= 1
                                                        && disc@[ls.index_of(t2) - 1] == (kk as usize, mm as usize)))
                                                } by {
                                                assert(origins@[kk] == origins0[kk]);
                                                assert(occurrence(blocks@, origins0, kk, mm));
                                                let t2 = occ_target(blocks@, origins@, kk, mm);
                                                assert(t2 == occ_target(blocks@, origins0, kk, mm));
                                                if kk == i && mm == m {
                                                } else if ls0.contains(t2) {
                                                    let i0 = ls0.index_of(t2);
                                                    assert(ls0[i0] == t2);
                                                    assert(ls[i0] == t2);
                                                    let i1 = ls.index_of(t2);
                                                    assert(ls[i1] == t2);
                                                    assert(i0 == i1);
                                                    assert(ls.contains(t2));
                                                }
                                            }
                                            assert forall|j2: int| 1 <= j2 < origins@.len() implies {
                                                let e = #[trigger] disc@[j2 - 1];
                                                &&& occurrence(blocks@, origins@, e.0 as int, e.1 as int)
                                                &&& examined_before(e, i as int, m as int + 1)
                                                &&& occ_target(blocks@, origins@, e.0 as int, e.1 as int) == ls[j2]
                                            } by {
                                                if j2 < old_len {
                                                    assert(disc@[j2 - 1] == disc0[j2 - 1]);
                                                    let e = disc0[j2 - 1];
                                                    assert(origins@[e.0 as int] == origins0[e.0 as int]);
                                                }
                                            }
                                            assert forall|b: int| 0 <= b < back@.len() implies {
                                                let e = #[trigger] back@[b];
                                                let t2 = occ_target(blocks@, origins@, e.0 as int, e.1 as int);
                                                &&& occurrence(blocks@, origins@, e.0 as int, e.1 as int)
                                                &&& examined_before(e, i as int, m as int + 1)
                                                &&& ls.contains(t2)
                                                &&& (ls.index_of(t2) == 0 || disc@[ls.index_of(t2) - 1] != e)
                                            } by {
                                                let e = back@[b];
                                                assert(origins@[e.0 as int] == origins0[e.0 as int]);
                                                let t2 = occ_target(blocks@, origins@, e.0 as int, e.1 as int);
                                                assert(t2 == occ_target(blocks@, origins0, e.0 as int, e.1 as int));
                                                let i0 = ls0.index_of(t2);
                                                assert(ls0[i0] == t2);
                                                assert(ls[i0] == t2);
                                                let i1 = ls.index_of(t2);
                                                assert(ls[i1] == t2);
                                                assert(i0 == i1);
                                                assert(ls.contains(t2));
                                                if i0 >= 1 {
                                                    assert(disc@[i0 - 1] == disc0[i0 - 1]);
                                                }
                                            }
                                            assert forall|kk: int| 0 <= kk < i implies {
                                                &&& (#[trigger] copies@[kk]).leader == base + kk
                                                &&& copies@[kk].instructions@ == blocks@[origins@[kk] as int].instructions@
                                            } by {
                                                assert(origins@[kk] == origins0[kk]);
                                            }
                                            assert forall|j2: int| 0 <= j2 < origins@.len() implies first_block_at(blocks@, #[trigger] ls[j2], origins@[j2] as int) by {
                                                if j2 < old_len {
                                                    assert(ls[j2] == ls0[j2]);
                                                }
                                            }
                                        }
                                    }
                                },
                                None => {
                                    nts.push(t);
                                },
                            }
                        },
                    }
                    m += 1;
                }
                proof {
                    let ls = origin_leaders(blocks@, origins@);
                    assert(nts@ =~= ts@.map_values(|t: u64| rename(ls, base, t)));
                }
                Some(j.with_targets(&nts))
            },
        };
        let copy = Block { leader: base + i as u64, instructions: copy_instructions(&src.instructions), exit_jump: exit };
        proof {
            lemma_walk_advance(blocks@, base, ret_address, copies@, origins@, disc@, back@, i as int, copy);
        }
        copies.push(copy);
        i += 1;
    }
    Some(CalleeCopy { blocks: copies, origins, discovered_by: disc, back_edges: back })
}

/// Where the copy made for one call site landed.
#[derive(Clone, Copy, Debug, PartialEq, Eq, Structural)]
pub struct CallCopy {
    pub target: u64,
    pub site_block: u64,
    pub return_address: u64,
    /// The copy's blocks are led by the fictitious addresses `first .. end`.
    pub first: u64,
    pub end: u64,
    /// The walk found a back-edge.
    pub recursive: bool,
}

#[derive(Clone, Copy, Debug, PartialEq, Eq, Structural)]
pub enum DuplicateError {
    /// The fictitious addresses would not fit in 64 bits.
    AddressSpaceExhausted,
}

/// Every leader and every target of the blocks is below `bound`.
pub open spec fn addresses_below(blocks: Seq<Block>, bound: int) -> bool {
    forall|k: int|
        0 <= k < blocks.len() ==> {
            &&& (#[trigger] blocks[k]).leader < bound
            &&& forall|m: int| 0 <= m < blocks[k].targets_spec().len() ==> blocks[k].targets_spec()[m] < bound
        }
}

/// Some block is led by `a` or targets `a`.
pub open spec fn attained(blocks: Seq<Block>, a: u64) -> bool {
    exists|q: int|
        0 <= q < blocks.len() && (blocks[q].leader == a || blocks[q].targets_spec().contains(a))
}

/// One more than the largest leader or target of the blocks.
pub fn first_free_address(blocks: &Vec<Block>) -> (r: Option<u64>)
    ensures
        r matches Some(a) ==> addresses_below(blocks@, a as int),
        r matches Some(a) ==> blocks@.len() > 0 ==> !addresses_below(blocks@, a - 1),
        r is None ==> !addresses_below(blocks@, u64::MAX as int),
{
    let mut top: u64 = 0;
    let mut k: usize = 0;
    while k < blocks.len()
        invariant
            k <= blocks@.len(),
            addresses_below(blocks@.subrange(0, k as int), top as int + 1),
            top == 0 || attained(blocks@, top),
        decreases blocks@.len() - k,
    {
        let b = &blocks[k];
        if b.leader > top {
            top = b.leader;
            assert(blocks@[k as int].leader == top);
        }
        let ts = b.get_targets();
        let mut m: usize = 0;
        while m < ts.len()
            invariant
                k < blocks@.len(),
                *b == blocks@[k as int],
                ts@ == b.targets_spec(),
                m <= ts@.len(),
                b.leader <= top,
                forall|mm: int| 0 <= mm < m ==> ts@[mm] <= top,
                addresses_below(blocks@.subrange(0, k as int), top as int + 1),
                top == 0 || attained(blocks@, top),
            decreases ts@.len() - m,
        {
            if ts[m] > top {
                top = ts[m];
                assert(blocks@[k as int].targets_spec()[m as int] == top);
                assert(blocks@[k as int].targets_spec().contains(top));
            }
            m += 1;
        }
        proof {
            let sub = blocks@.subrange(0, k as int + 1);
            assert forall|q: int| 0 <= q < sub.len() implies {
                &&& (#[trigger] sub[q]).leader < top + 1
                &&& forall|mm: int| 0 <= mm < sub[q].targets_spec().len() ==> sub[q].targets_spec()[mm] < top + 1
            } by {
                if q < k {
                    assert(sub[q] == blocks@.subrange(0, k as int)[q]);
                }
            }
        }
        k += 1;
    }
    assert(blocks@.subrange(0, k as int) =~= blocks@);
    if top == u64::MAX {
        proof {
            let q = choose|q: int|
                0 <= q < blocks@.len() && (blocks@[q].leader == top || blocks@[q].targets_spec().contains(top));
            if blocks@[q].leader != top {
                let mm = choose|mm: int| 0 <= mm < blocks@[q].targets_spec().len() && blocks@[q].targets_spec()[mm] == top;
                assert(blocks@[q].targets_spec()[mm] == top);
            }
        }
        None
    } else {
        proof {
            if blocks@.len() > 0 {
                assert(blocks@[0].leader <= top) by {
                    assert(blocks@.subrange(0, k as int)[0] == blocks@[0]);
                }
                if top == 0 {
                    assert(blocks@[0].leader == top);
                }
                let q = choose|q: int|
                    0 <= q < blocks@.len() && (blocks@[q].leader == top || blocks@[q].targets_spec().contains(top));
                if blocks@[q].leader != top {
                    let mm = choose|mm: int| 0 <= mm < blocks@[q].targets_spec().len() && blocks@[q].targets_spec()[mm] == top;
                    assert(blocks@[q].targets_spec()[mm] == top);
                }
            }
        }
        Some(top + 1)
    }
}

/// Powers of two grow with the exponent.
pub proof fn lemma_pow2_mono(a: nat, b: nat)
    requires
        a <= b,
    ensures
        pow2(a) <= pow2(b),
{
    if a < b {
        lemma_pow2_strictly_increases(a, b);
    }
}

/// The blocks after every call site that needs one has its own copy of the callee.
pub struct Program {
    pub blocks: Vec<Block>,
    pub copies: Vec<CallCopy>,
    /// Callee entry -> return address of a call site whose copy found a recursion.
    pub recursive_functions: HashMap<u64, u64>,
}

/// The address ranges of the copies are non-empty, in increasing order, and start
/// at or above `free`.
pub open spec fn copies_ordered(copies: Seq<CallCopy>, free: int) -> bool {
    &&& forall|k: int| 0 <= k < copies.len() ==> free <= (#[trigger] copies[k]).first < copies[k].end
    &&& forall|k1: int, k2: int|
        0 <= k1 < k2 < copies.len() ==> (#[trigger] copies[k1]).end <= (#[trigger] copies[k2]).first
}

/// Some copy was made for call site `call`.
pub open spec fn copied_for(copies: Seq<CallCopy>, call: CallSite) -> bool {
    exists|k: int|
        0 <= k < copies.len() && (#[trigger] copies[k]).target == call.target && copies[k].site_block == call.site_block
            && copies[k].return_address == call.return_address
}

/// Block `q` is led by an address that lies in the range of one of the copies.
pub open spec fn in_some_copy(copies: Seq<CallCopy>, leader: u64) -> bool {
    exists|k: int| 0 <= k < copies.len() && (#[trigger] copies[k]).first <= leader < copies[k].end
}

/// Copy `k`'s call-site block, when it is one of `given` and no later copy is
/// made for the same block, now calls the copy's entry.
pub open spec fn site_rewired(given: Seq<Block>, blocks: Seq<Block>, copies: Seq<CallCopy>, k: int) -> bool {
    ((forall|k2: int| k < k2 < copies.len() ==> (#[trigger] copies[k2]).site_block != copies[k].site_block)
        && is_leader(given, copies[k].site_block)) ==> exists|q: int|
        first_block_at(blocks, copies[k].site_block, q) && blocks[q].exit_jump == Some(
            ExitJump::Call(copies[k].first, copies[k].return_address),
        )
}

/// Makes a copy of the callee for each listed call site, in order.
///
/// The fictitious addresses are handed out from one counter that starts above
/// every leader and target of the given blocks, so each copy owns a range of
/// addresses of its own. The call-site block then calls the copy's entry. A call
/// site whose target leads no block is left as it is. A copy whose walk found a
/// back-edge records its callee in `recursive_functions`.
#[verifier::rlimit(40)]
pub fn duplicate_calls(blocks: Vec<Block>, calls: &Vec<CallSite>) -> (r: Result<Program, DuplicateError>)
    requires
        forall|q: int| 0 <= q < blocks@.len() ==> (#[trigger] blocks@[q]).instructions@.len() <= MAX_BLOCK_LEN,
    ensures
        r matches Ok(p) ==> forall|q: int| 0 <= q < p.blocks@.len() ==> (#[trigger] p.blocks@[q]).instructions@.len() <= MAX_BLOCK_LEN,
        r is Err ==> !addresses_below(blocks@, u64::MAX - blocks@.len() * pow2(calls@.len() as nat)),
        r matches Ok(p) ==> forall|k: int| 0 <= k < p.copies@.len() ==> #[trigger] site_rewired(blocks@, p.blocks@, p.copies@, k),
        r matches Ok(p) ==> {
            &&& p.copies@.len() <= calls@.len()
            &&& exists|free: int| addresses_below(blocks@, free) && copies_ordered(p.copies@, free)
            &&& p.blocks@.len() >= blocks@.len()
            &&& forall|q: int|
                0 <= q < blocks@.len() ==> {
                    &&& (#[trigger] p.blocks@[q]).leader == blocks@[q].leader
                    &&& p.blocks@[q].instructions@ == blocks@[q].instructions@
                }
            &&& forall|q: int| blocks@.len() <= q < p.blocks@.len() ==> in_some_copy(p.copies@, (#[trigger] p.blocks@[q]).leader)
            &&& forall|a: u64|
                p.recursive_functions@.contains_key(a) <==> exists|k: int|
                    0 <= k < p.copies@.len() && (#[trigger] p.copies@[k]).recursive && p.copies@[k].target == a
            &&& forall|i: int|
                0 <= i < calls@.len() && is_leader(blocks@, (#[trigger] calls@[i]).target) ==> copied_for(p.copies@, calls@[i])
        },
{
    let free = match first_free_address(&blocks) {
        Some(a) => a,
        None => {
            return Err(DuplicateError::AddressSpaceExhausted);
        },
    };
    let ghost given = blocks@;
    proof {
        reveal(vstd::arithmetic::power::pow);
        assert(pow2(0) == 1);
    }
    let mut work = blocks;
    let mut copies: Vec<CallCopy> = Vec::new();
    let mut recursive_functions: HashMap<u64, u64> = HashMap::new();
    let mut next = free;
    let mut i: usize = 0;
    while i < calls.len()
        invariant
            i <= calls@.len(),
            copies@.len() <= i,
            given == blocks@,
            addresses_below(given, free as int),
            copies_ordered(copies@, free as int),
            free <= next,
            forall|k: int| 0 <= k < copies@.len() ==> (#[trigger] copies@[k]).end <= next,
            work@.len() >= given.len(),
            forall|q: int|
                0 <= q < given.len() ==> {
                    &&& (#[trigger] work@[q]).leader == given[q].leader
                    &&& work@[q].instructions@ == given[q].instructions@
                },
            forall|q: int| given.len() <= q < work@.len() ==> in_some_copy(copies@, (#[trigger] work@[q]).leader),
            forall|q: int| 0 <= q < work@.len() ==> (#[trigger] work@[q]).instructions@.len() <= MAX_BLOCK_LEN,
            forall|a: u64|
                recursive_functions@.contains_key(a) <==> exists|k: int|
                    0 <= k < copies@.len() && (#[trigger] copies@[k]).recursive && copies@[k].target == a,
            forall|i2: int|
                0 <= i2 < i && is_leader(given, (#[trigger] calls@[i2]).target) ==> copied_for(copies@, calls@[i2]),
            next as int == free + work@.len() - given.len(),
            forall|k: int| 0 <= k < copies@.len() ==> #[trigger] site_rewired(given, work@, copies@, k),
            work@.len() <= given.len() * pow2(i as nat),
            given.len() > 0 ==> !addresses_below(given, free - 1),
        decreases calls@.len() - i,
    {
        let call = calls[i];
        if next as u128 + work.len() as u128 > u64::MAX as u128 {
            proof {
                let n0 = given.len() as int;
                let bound = u64::MAX - n0 * pow2(calls@.len() as nat);
                lemma_pow2_unfold((i + 1) as nat);
                lemma_pow2_mono((i + 1) as nat, calls@.len() as nat);
                assert(n0 > 0) by {
                    if n0 == 0 {
                        assert(work@.len() <= 0) by (nonlinear_arith)
                            requires work@.len() <= n0 * pow2(i as nat), n0 == 0;
                    }
                }
                assert(n0 * pow2((i + 1) as nat) <= n0 * pow2(calls@.len() as nat)) by (nonlinear_arith)
                    requires pow2((i + 1) as nat) <= pow2(calls@.len() as nat), n0 > 0;
                assert(free - 1 >= bound) by (nonlinear_arith)
                    requires
                        next + work@.len() > u64::MAX,
                        next == free + work@.len() - n0,
                        work@.len() <= n0 * pow2(i as nat),
                        pow2((i + 1) as nat) == 2 * pow2(i as nat),
                        n0 * pow2((i + 1) as nat) <= n0 * pow2(calls@.len() as nat),
                        bound == u64::MAX - n0 * pow2(calls@.len() as nat),
                        n0 > 0;
                assert(!addresses_below(given, free - 1));
                let w = choose|k: int|
                    !(0 <= k < given.len() ==> {
                        &&& (#[trigger] given[k]).leader < free - 1
                        &&& forall|m: int| 0 <= m < given[k].targets_spec().len() ==> given[k].targets_spec()[m] < free - 1
                    });
                assert(!addresses_below(given, bound)) by {
                    if given[w].leader >= free - 1 {
                    } else {
                        let m = choose|m: int| !(0 <= m < given[w].targets_spec().len() ==> given[w].targets_spec()[m] < free - 1);
                    }
                }
                assert(bound == u64::MAX - given.len() * pow2(calls@.len() as nat));
                assert(!addresses_below(given, u64::MAX - given.len() * pow2(calls@.len() as nat)));
            }
            return Err(DuplicateError::AddressSpaceExhausted);
        }
        let base = next;
        proof {
            if is_leader(given, call.target) {
                let q = choose|q: int| 0 <= q < given.len() && given[q].leader == call.target;
                assert(work@[q].leader == call.target);
            }
        }
        let ghost copies_before = copies@;
        match duplicate(&work, call.target, call.return_address, base) {
            None => {
                proof {
                    lemma_pow2_mono(i as nat, (i + 1) as nat);
                    assert(given.len() * pow2(i as nat) <= given.len() * pow2((i + 1) as nat)) by (nonlinear_arith)
                        requires pow2(i as nat) <= pow2((i + 1) as nat);
                }
            },
            Some(c) => {
                let n = c.blocks.len();
                let recursive = c.back_edges.len() > 0;
                let ghost blocks0 = work@;
                let ghost copies0 = copies@;
                let copy = CallCopy {
                    target: call.target,
                    site_block: call.site_block,
                    return_address: call.return_address,
                    first: base,
                    end: base + n as u64,
                    recursive,
                };
                assert(n >= 1) by {
                    assert(c.origins@.len() >= 1);
                }
                let mut cb = c.blocks;
                let ghost cbv = cb@;
                work.append(&mut cb);
                copies.push(copy);
                if recursive {
                    recursive_functions.insert(call.target, call.return_address);
                }
                proof {
                    assert(copies@[copies@.len() - 1] == copy);
                    assert forall|q: int| given.len() <= q < work@.len() implies in_some_copy(copies@, (#[trigger] work@[q]).leader) by {
                        if q < blocks0.len() {
                            let k = choose|k: int| 0 <= k < copies0.len() && (#[trigger] copies0[k]).first <= blocks0[q].leader < copies0[k].end;
                            assert(copies@[k] == copies0[k]);
                        } else {
                            assert(work@[q] == cbv[q - blocks0.len()]);
                            assert(copies@[copies@.len() - 1] == copy);
                        }
                    }
                    assert forall|q: int| 0 <= q < work@.len() implies (#[trigger] work@[q]).instructions@.len() <= MAX_BLOCK_LEN by {
                        if q >= blocks0.len() {
                            let qq = q - blocks0.len();
                            assert(work@[q] == cbv[qq]);
                            assert(cbv[qq].instructions@ == blocks0[c.origins@[qq] as int].instructions@);
                        }
                    }
                    assert forall|a: u64|
                        recursive_functions@.contains_key(a) <==> exists|k: int|
                            0 <= k < copies@.len() && (#[trigger] copies@[k]).recursive && copies@[k].target == a by {
                        if exists|k: int| 0 <= k < copies0.len() && (#[trigger] copies0[k]).recursive && copies0[k].target == a {
                            let k = choose|k: int| 0 <= k < copies0.len() && (#[trigger] copies0[k]).recursive && copies0[k].target == a;
                            assert(copies@[k] == copies0[k]);
                        }
                        if exists|k: int| 0 <= k < copies@.len() && (#[trigger] copies@[k]).recursive && copies@[k].target == a {
                            let k = choose|k: int| 0 <= k < copies@.len() && (#[trigger] copies@[k]).recursive && copies@[k].target == a;
                            if k < copies0.len() {
                                assert(copies@[k] == copies0[k]);
                            }
                        }
                    }
                }
                let ghost work_app = work@;
                proof {
                    if is_leader(given, call.site_block) {
                        let q = choose|q: int| 0 <= q < given.len() && given[q].leader == call.site_block;
                        assert(work@[q].leader == call.site_block);
                    }
                }
                match find_block(&work, call.site_block) {
                    Some(k) => {
                        let rewired = Block {
                            leader: work[k].leader,
                            instructions: copy_instructions(&work[k].instructions),
                            exit_jump: Some(ExitJump::Call(base, call.return_address)),
                        };
                        work.set(k, rewired);
                    },
                    None => {},
                }
                next = base + n as u64;
                proof {
                    assert forall|k: int| 0 <= k < copies@.len() implies #[trigger] site_rewired(given, work@, copies@, k) by {
                        if k < copies@.len() - 1 {
                            assert(copies@[k] == copies0[k]);
                            let s_k = copies0[k].site_block;
                            if (forall|k2: int| k < k2 < copies@.len() ==> (#[trigger] copies@[k2]).site_block != s_k)
                                && is_leader(given, s_k) {
                                assert forall|k2: int| k < k2 < copies0.len() implies (#[trigger] copies0[k2]).site_block != s_k by {
                                    assert(copies@[k2] == copies0[k2]);
                                }
                                assert(site_rewired(given, blocks0, copies0, k));
                                let q = choose|q: int|
                                    first_block_at(blocks0, s_k, q) && blocks0[q].exit_jump == Some(
                                        ExitJump::Call(copies0[k].first, copies0[k].return_address),
                                    );
                                assert(copies@[copies@.len() - 1].site_block != s_k);
                                assert(work_app[q] == blocks0[q]);
                                assert(work@[q] == work_app[q]);
                                assert forall|q2: int| 0 <= q2 < q implies work@[q2].leader != s_k by {
                                    assert(work_app[q2] == blocks0[q2]);
                                }
                                assert(first_block_at(work@, s_k, q));
                            }
                        } else {
                            if is_leader(given, call.site_block) {
                                let kk = choose|kk: int| first_block_at(work_app, call.site_block, kk);
                                assert(first_block_at(work@, call.site_block, kk));
                            }
                        }
                    }
                    lemma_pow2_unfold((i + 1) as nat);
                    assert(n <= blocks0.len());
                    assert(work@.len() <= given.len() * pow2((i + 1) as nat)) by (nonlinear_arith)
                        requires
                            work@.len() == blocks0.len() + n,
                            n <= blocks0.len(),
                            blocks0.len() <= given.len() * pow2(i as nat),
                            pow2((i + 1) as nat) == 2 * pow2(i as nat);
                    assert(copies@[copies@.len() - 1] == copy);
                    assert forall|i2: int|
                        0 <= i2 < i + 1 && is_leader(given, (#[trigger] calls@[i2]).target) implies copied_for(copies@, calls@[i2]) by {
                        if i2 < i {
                            let k = choose|k: int|
                                0 <= k < copies_before.len() && (#[trigger] copies_before[k]).target == calls@[i2].target
                                    && copies_before[k].site_block == calls@[i2].site_block
                                    && copies_before[k].return_address == calls@[i2].return_address;
                            assert(copies@[k] == copies_before[k]);
                        } else {
                            assert(copies@[copies@.len() - 1].target == calls@[i2].target);
                        }
                    }
                }
            },
        }
        i += 1;
    }
    assert(copies_ordered(copies@, free as int));
    assert(addresses_below(blocks@, free as int));
    assert(forall|i2: int|
        0 <= i2 < calls@.len() && is_leader(blocks@, (#[trigger] calls@[i2]).target) ==> copied_for(copies@, calls@[i2]));
    assert(forall|q: int| blocks@.len() <= q < work@.len() ==> in_some_copy(copies@, (#[trigger] work@[q]).leader));
    assert(exists|f: int| addresses_below(blocks@, f) && copies_ordered(copies@, f));
    assert(forall|q: int|
        0 <= q < blocks@.len() ==> {
            &&& (#[trigger] work@[q]).leader == blocks@[q].leader
            &&& work@[q].instructions@ == blocks@[q].instructions@
        });
    assert(copies@.len() <= calls@.len());
    assert(work@.len() >= blocks@.len());
    assert(forall|a: u64|
        recursive_functions@.contains_key(a) <==> exists|k: int|
            0 <= k < copies@.len() && (#[trigger] copies@[k]).recursive && copies@[k].target == a);
    let ghost wv = work@;
    let ghost cv = copies@;
    let p = Program { blocks: work, copies, recursive_functions };
    assert(p.blocks@ == wv && p.copies@ == cv);
    Ok(p)
}

/// Copies made for different call sites own disjoint sets of fictitious
/// addresses, none of which is a leader or a target of the blocks the copies were
/// made from.
pub proof fn lemma_copies_disjoint(blocks: Seq<Block>, copies: Seq<CallCopy>, free: int, k1: int, k2: int, a: u64)
    requires
        addresses_below(blocks, free),
        copies_ordered(copies, free),
        0 <= k1 < copies.len(),
        0 <= k2 < copies.len(),
        k1 != k2,
        copies[k1].first <= a < copies[k1].end,
    ensures
        !(copies[k2].first <= a < copies[k2].end),
        forall|q: int| 0 <= q < blocks.len() ==> (#[trigger] blocks[q]).leader != a,
        forall|q: int, m: int|
            0 <= q < blocks.len() && 0 <= m < blocks[q].targets_spec().len() ==> #[trigger] blocks[q].targets_spec()[m] != a,
{
    if k1 < k2 {
        assert(copies[k1].end <= copies[k2].first);
    } else {
        assert(copies[k2].end <= copies[k1].first);
    }
    assert forall|q: int| 0 <= q < blocks.len() implies (#[trigger] blocks[q]).leader != a by {
        assert(blocks[q].leader < free);
    }
    assert forall|q: int, m: int|
        0 <= q < blocks.len() && 0 <= m < blocks[q].targets_spec().len() implies #[trigger] blocks[q].targets_spec()[m] != a by {
        assert(blocks[q].leader < free);
    }
}

/// An edge out of a copied block, into the copy, that did not first reach its target.
pub open spec fn revisit(blocks: Seq<Block>, c: CalleeCopy, k: int, m: int) -> bool {
    let ls = origin_leaders(blocks, c.origins@);
    let t = occ_target(blocks, c.origins@, k, m);
    &&& occurrence(blocks, c.origins@, k, m)
    &&& ls.contains(t)
    &&& !(ls.index_of(t) >= 1 && c.discovered_by@[ls.index_of(t) - 1] == (k as usize, m as usize))
}

/// A finished walk records a back-edge, which marks a recursion, exactly when
/// it came back to a block already in the copy.
pub proof fn lemma_back_edges_are_revisits(blocks: Seq<Block>, base: u64, ret_address: u64, c: CalleeCopy)
    requires
        walk_inv(
            blocks,
            base,
            ret_address,
            c.blocks@,
            c.origins@,
            c.discovered_by@,
            c.back_edges@,
            c.blocks@.len() as int,
            0,
        ),
        c.origins@.len() == c.blocks@.len(),
    ensures
        c.back_edges@.len() > 0 <==> exists|k: int, m: int| revisit(blocks, c, k, m),
{
    if c.back_edges@.len() > 0 {
        let e = c.back_edges@[0];
        assert(revisit(blocks, c, e.0 as int, e.1 as int));
    }
    if exists|k: int, m: int| revisit(blocks, c, k, m) {
        let (k, m) = choose|k: int, m: int| revisit(blocks, c, k, m);
        let t = occ_target(blocks, c.origins@, k, m);
        assert(examined_before((k as usize, m as usize), c.blocks@.len() as int, 0));
        assert(c.back_edges@.contains((k as usize, m as usize)));
    }
}

} // verus!
