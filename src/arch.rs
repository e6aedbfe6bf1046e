use vstd::prelude::*;

use crate::block::Instruction;
use crate::jump::{FlowDetail, FlowKind};

verus! {

/// The architecture that an object file declares, as far as the analysis cares.
#[derive(Clone, Copy, Debug, PartialEq, Eq, Structural)]
pub enum ObjectArch {
    X86_64,
    X86_64X32,
    Aarch64,
    Arm,
    LoongArch64,
    Unsupported,
}

/// Disassembler architecture.
#[derive(Clone, Copy, Debug, PartialEq, Eq, Structural)]
pub enum CsArch {
    X86,
    Arm64,
    Arm,
}

/// Disassembler mode.
#[derive(Clone, Copy, Debug, PartialEq, Eq, Structural)]
pub enum CsMode {
    Mode64,
    Mode32,
    Arm,
}

/// The disassembler configuration for an architecture.
#[derive(Clone, Copy, Debug, PartialEq, Eq, Structural)]
pub struct ArchMode {
    pub arch: CsArch,
    pub mode: CsMode,
}

pub open spec fn arch_mode_spec(a: ObjectArch) -> Option<ArchMode> {
    match a {
        ObjectArch::X86_64 => Some(ArchMode { arch: CsArch::X86, mode: CsMode::Mode64 }),
        ObjectArch::X86_64X32 => Some(ArchMode { arch: CsArch::X86, mode: CsMode::Mode32 }),
        ObjectArch::Aarch64 => Some(ArchMode { arch: CsArch::Arm64, mode: CsMode::Arm }),
        ObjectArch::Arm => Some(ArchMode { arch: CsArch::Arm, mode: CsMode::Arm }),
        ObjectArch::LoongArch64 => Some(ArchMode { arch: CsArch::Arm64, mode: CsMode::Arm }),
        ObjectArch::Unsupported => None,
    }
}

impl ArchMode {
    /// The disassembler configuration for an object architecture. x86_64 x32 is
    /// read as 32-bit x86; LoongArch64 has no disassembler of its own here and is
    /// read in the 64-bit ARM configuration.
    pub fn from_object(a: ObjectArch) -> (r: Option<ArchMode>)
        ensures
            r == arch_mode_spec(a),
    {
        match a {
            ObjectArch::X86_64 => Some(ArchMode { arch: CsArch::X86, mode: CsMode::Mode64 }),
            ObjectArch::X86_64X32 => Some(ArchMode { arch: CsArch::X86, mode: CsMode::Mode32 }),
            ObjectArch::Aarch64 => Some(ArchMode { arch: CsArch::Arm64, mode: CsMode::Arm }),
            ObjectArch::Arm => Some(ArchMode { arch: CsArch::Arm, mode: CsMode::Arm }),
            ObjectArch::LoongArch64 => Some(ArchMode { arch: CsArch::Arm64, mode: CsMode::Arm }),
            ObjectArch::Unsupported => None,
        }
    }
}

/// Disassembler instruction groups.
pub const GROUP_JUMP: u8 = 1;
pub const GROUP_CALL: u8 = 2;
pub const GROUP_RET: u8 = 3;
pub const GROUP_IRET: u8 = 5;
pub const GROUP_BRANCH_RELATIVE: u8 = 7;

/// Decoded facts about one instruction, as the disassembler gives them.
pub struct RawInsn {
    pub address: u64,
    pub mnemonic: String,
    pub op_str: String,
    pub groups: Vec<u8>,
    /// Each operand in order: its value when it is an immediate.
    pub operands: Vec<Option<i64>>,
    /// Latency estimate in clock cycles.
    pub latency: u32,
}

/// The first immediate operand.
pub open spec fn first_imm(ops: Seq<Option<i64>>) -> Option<i64>
    decreases ops.len(),
{
    if ops.len() == 0 {
        None
    } else if ops[0] is Some {
        ops[0]
    } else {
        first_imm(ops.drop_first())
    }
}

fn first_immediate(ops: &Vec<Option<i64>>) -> (r: Option<i64>)
    ensures
        r == first_imm(ops@),
{
    let mut i: usize = 0;
    assert(ops@.subrange(0, ops@.len() as int) =~= ops@);
    while i < ops.len()
        invariant
            i <= ops@.len(),
            first_imm(ops@) == first_imm(ops@.subrange(i as int, ops@.len() as int)),
        decreases ops@.len() - i,
    {
        let ghost rest = ops@.subrange(i as int, ops@.len() as int);
        assert(rest[0] == ops@[i as int]);
        if ops[i].is_some() {
            return ops[i];
        }
        assert(rest.drop_first() =~= ops@.subrange(i as int + 1, ops@.len() as int));
        i += 1;
    }
    None
}

pub open spec fn flow_kind_spec(groups: Seq<u8>) -> FlowKind {
    if groups.contains(GROUP_CALL) {
        FlowKind::Call
    } else if groups.contains(GROUP_RET) || groups.contains(GROUP_IRET) {
        FlowKind::Ret
    } else if groups.contains(GROUP_JUMP) {
        FlowKind::Jump
    } else {
        FlowKind::Sequential
    }
}

/// The branch mnemonics that take no condition.
pub open spec fn unconditional_spec(arch: CsArch, m: Seq<char>) -> bool {
    match arch {
        CsArch::X86 => m == "jmp"@ || m == "ljmp"@,
        CsArch::Arm64 => m == "b"@ || m == "br"@,
        CsArch::Arm => m == "b"@ || m == "bx"@,
    }
}

pub open spec fn flow_detail_spec(arch: CsArch, insn: RawInsn) -> FlowDetail {
    FlowDetail {
        kind: flow_kind_spec(insn.groups@),
        relative: insn.groups@.contains(GROUP_BRANCH_RELATIVE),
        conditional: !unconditional_spec(arch, insn.mnemonic@),
        target: match first_imm(insn.operands@) {
            Some(v) => Some(v as u64),
            None => None,
        },
    }
}

fn has_group(groups: &Vec<u8>, g: u8) -> (r: bool)
    ensures
        r == groups@.contains(g),
{
    let mut i: usize = 0;
    while i < groups.len()
        invariant
            i <= groups@.len(),
            forall|j: int| 0 <= j < i ==> groups@[j] != g,
        decreases groups@.len() - i,
    {
        if groups[i] == g {
            assert(groups@[i as int] == g);
            return true;
        }
        i += 1;
    }
    false
}

fn same_text(s: &String, lit: &str) -> (r: bool)
    ensures
        r == (s@ == lit@),
{
    let owned = lit.to_owned();
    *s == owned
}

/// Whether the branch mnemonic `m` takes no condition.
pub fn is_unconditional(arch: CsArch, m: &String) -> (r: bool)
    ensures
        r == unconditional_spec(arch, m@),
{
    match arch {
        CsArch::X86 => same_text(m, "jmp") || same_text(m, "ljmp"),
        CsArch::Arm64 => same_text(m, "b") || same_text(m, "br"),
        CsArch::Arm => same_text(m, "b") || same_text(m, "bx"),
    }
}

/// The control-flow details of a decoded instruction: its kind from its groups,
/// whether it is relative, whether its mnemonic takes a condition, and its first
/// immediate operand as a target address.
pub fn flow_detail(arch: CsArch, insn: &RawInsn) -> (r: FlowDetail)
    ensures
        r == flow_detail_spec(arch, *insn),
{
    let kind = if has_group(&insn.groups, GROUP_CALL) {
        FlowKind::Call
    } else if has_group(&insn.groups, GROUP_RET) || has_group(&insn.groups, GROUP_IRET) {
        FlowKind::Ret
    } else if has_group(&insn.groups, GROUP_JUMP) {
        FlowKind::Jump
    } else {
        FlowKind::Sequential
    };
    let target = match first_immediate(&insn.operands) {
        Some(v) => Some(v as u64),
        None => None,
    };
    FlowDetail {
        kind,
        relative: has_group(&insn.groups, GROUP_BRANCH_RELATIVE),
        conditional: !is_unconditional(arch, &insn.mnemonic),
        target,
    }
}

/// Turns decoded instructions into the instructions and control-flow details
/// that the analysis takes, in the same order.
pub fn prepare(raw: Vec<RawInsn>, arch: CsArch) -> (r: (Vec<Instruction>, Vec<FlowDetail>))
    ensures
        r.0@.len() == raw@.len(),
        r.1@.len() == raw@.len(),
        forall|i: int|
            0 <= i < raw@.len() ==> {
                &&& (#[trigger] r.0@[i]).address == raw@[i].address
                &&& r.0@[i].mnemonic == raw@[i].mnemonic
                &&& r.0@[i].op_str == raw@[i].op_str
                &&& r.0@[i].latency == raw@[i].latency
                &&& r.1@[i] == flow_detail_spec(arch, raw@[i])
            },
{
    let ghost raw0 = raw@;
    let mut insns: Vec<Instruction> = Vec::new();
    let mut details: Vec<FlowDetail> = Vec::new();
    let mut rest = raw;
    let mut i: usize = 0;
    while i < rest.len()
        invariant
            rest@ == raw0,
            i <= raw0.len(),
            insns@.len() == i,
            details@.len() == i,
            forall|k: int|
                0 <= k < i ==> {
                    &&& (#[trigger] insns@[k]).address == raw0[k].address
                    &&& insns@[k].mnemonic == raw0[k].mnemonic
                    &&& insns@[k].op_str == raw0[k].op_str
                    &&& insns@[k].latency == raw0[k].latency
                    &&& details@[k] == flow_detail_spec(arch, raw0[k])
                },
        decreases raw0.len() - i,
    {
        let d = flow_detail(arch, &rest[i]);
        let insn = Instruction::new(
            rest[i].address,
            rest[i].mnemonic.clone(),
            rest[i].op_str.clone(),
            rest[i].latency,
        );
        insns.push(insn);
        details.push(d);
        i += 1;
    }
    (insns, details)
}

} // verus!
