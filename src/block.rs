use vstd::prelude::*;

use crate::jump::ExitJump;

verus! {

/// One decoded instruction with its latency estimate in clock cycles.
pub struct Instruction {
    pub address: u64,
    pub mnemonic: String,
    pub op_str: String,
    pub latency: u32,
}

impl Instruction {
    pub fn new(address: u64, mnemonic: String, op_str: String, latency: u32) -> (r: Instruction)
        ensures
            r.address == address,
            r.mnemonic == mnemonic,
            r.op_str == op_str,
            r.latency == latency,
    {
        Instruction { address, mnemonic, op_str, latency }
    }

    pub fn copy(&self) -> (r: Instruction)
        ensures
            r == *self,
    {
        Instruction {
            address: self.address,
            mnemonic: self.mnemonic.clone(),
            op_str: self.op_str.clone(),
            latency: self.latency,
        }
    }
}

/// Sum of the latencies of a sequence of instructions.
pub open spec fn latency_sum(insns: Seq<Instruction>) -> int
    decreases insns.len(),
{
    if insns.len() == 0 {
        0
    } else {
        latency_sum(insns.drop_last()) + insns.last().latency
    }
}

/// The latency of a trace is the sum of the latencies of its parts.
pub proof fn lemma_latency_sum_concat(a: Seq<Instruction>, b: Seq<Instruction>)
    ensures
        latency_sum(a + b) == latency_sum(a) + latency_sum(b),
    decreases b.len(),
{
    if b.len() == 0 {
        assert(a + b =~= a);
    } else {
        lemma_latency_sum_concat(a, b.drop_last());
        assert((a + b).drop_last() =~= a + b.drop_last());
    }
}

pub proof fn lemma_latency_sum_bound(insns: Seq<Instruction>)
    ensures
        0 <= latency_sum(insns) <= insns.len() * 0xffff_ffff,
    decreases insns.len(),
{
    if insns.len() > 0 {
        lemma_latency_sum_bound(insns.drop_last());
    }
}

/// A basic block: straight-line instructions entered at `leader`.
pub struct Block {
    pub leader: u64,
    pub instructions: Vec<Instruction>,
    pub exit_jump: Option<ExitJump>,
}

/// Copies a sequence of instructions one by one.
pub fn copy_instructions(v: &Vec<Instruction>) -> (r: Vec<Instruction>)
    ensures
        r@ == v@,
{
    let mut r: Vec<Instruction> = Vec::new();
    let mut i: usize = 0;
    while i < v.len()
        invariant
            i <= v.len(),
            r@ == v@.subrange(0, i as int),
        decreases v.len() - i,
    {
        r.push(v[i].copy());
        i += 1;
    }
    assert(r@ =~= v@);
    r
}

impl Block {
    /// A block holding the single instruction `first`, led by its address.
    pub fn new(first: Instruction) -> (r: Block)
        ensures
            r.leader == first.address,
            r.instructions@ == seq![first],
            r.exit_jump.is_none(),
    {
        let leader = first.address;
        Block { leader, instructions: vec![first], exit_jump: None }
    }

    pub fn add_instruction(&mut self, insn: Instruction)
        ensures
            final(self).leader == old(self).leader,
            final(self).instructions@ == old(self).instructions@.push(insn),
            final(self).exit_jump == old(self).exit_jump,
    {
        self.instructions.push(insn);
    }

    pub fn set_exit_jump(&mut self, jump: ExitJump)
        ensures
            final(self).leader == old(self).leader,
            final(self).instructions@ == old(self).instructions@,
            final(self).exit_jump == Some(jump),
    {
        self.exit_jump = Some(jump);
    }

    pub open spec fn latency_spec(&self) -> int {
        latency_sum(self.instructions@)
    }

    /// Sum of the latencies of the block's instructions.
    pub fn latency(&self) -> (r: u64)
        requires
            self.instructions@.len() <= 0xffff_ffff,
        ensures
            r == self.latency_spec(),
    {
        let mut sum: u64 = 0;
        let mut i: usize = 0;
        while i < self.instructions.len()
            invariant
                i <= self.instructions@.len() <= 0xffff_ffff,
                sum == latency_sum(self.instructions@.subrange(0, i as int)),
            decreases self.instructions@.len() - i,
        {
            proof {
                let s = self.instructions@.subrange(0, i as int + 1);
                assert(s.drop_last() =~= self.instructions@.subrange(0, i as int));
                lemma_latency_sum_bound(self.instructions@.subrange(0, i as int));
                assert(i * 0xffff_ffff <= 0xffff_ffff * 0xffff_ffff) by (nonlinear_arith)
                    requires i <= 0xffff_ffff;
            }
            sum = sum + self.instructions[i].latency as u64;
            i += 1;
        }
        assert(self.instructions@.subrange(0, i as int) =~= self.instructions@);
        sum
    }

    pub open spec fn targets_spec(&self) -> Seq<u64> {
        match self.exit_jump {
            Some(j) => j.targets_spec(),
            None => seq![],
        }
    }

    /// The addresses reachable through the block's exit jump.
    pub fn get_targets(&self) -> (r: Vec<u64>)
        ensures
            r@ == self.targets_spec(),
    {
        match &self.exit_jump {
            Some(j) => j.targets(),
            None => Vec::new(),
        }
    }
}

} // verus!
