use vstd::prelude::*;

verus! {

/// The control-flow terminator of a basic block.
#[derive(Clone, Copy, Debug, PartialEq, Eq, Structural)]
pub enum ExitJump {
    UnconditionalAbsolute(u64),
    UnconditionalRelative(u64),
    ConditionalAbsolute { taken: u64, not_taken: u64 },
    ConditionalRelative { taken: u64, not_taken: u64 },
    /// A branch through a register: the block becomes a dead end.
    Indirect,
    /// `Call(target, return_address)`.
    Call(u64, u64),
    /// `Ret(return_address)`, resolved from the matching call site.
    Ret(u64),
    /// Fall-through into the next block.
    Next(u64),
}

/// What the disassembler reports about an instruction's effect on control flow.
#[derive(Clone, Copy, Debug, PartialEq, Eq, Structural)]
pub enum FlowKind {
    Sequential,
    Jump,
    Call,
    Ret,
}

/// Control-flow details of one decoded instruction, as plain values.
#[derive(Clone, Copy, Debug, PartialEq, Eq, Structural)]
pub struct FlowDetail {
    pub kind: FlowKind,
    /// The branch is encoded relative to the program counter.
    pub relative: bool,
    /// The branch depends on a condition.
    pub conditional: bool,
    /// The immediate target operand, when there is one.
    pub target: Option<u64>,
}

/// Placeholder return address of a `Ret` before it is resolved.
pub const UNRESOLVED_RET: u64 = 0;

impl ExitJump {
    /// The addresses that control may reach through this jump.
    pub open spec fn targets_spec(self) -> Seq<u64> {
        match self {
            ExitJump::UnconditionalAbsolute(t) => seq![t],
            ExitJump::UnconditionalRelative(t) => seq![t],
            ExitJump::ConditionalAbsolute { taken, not_taken } => seq![taken, not_taken],
            ExitJump::ConditionalRelative { taken, not_taken } => seq![taken, not_taken],
            ExitJump::Indirect => seq![],
            ExitJump::Call(t, _) => seq![t],
            ExitJump::Ret(r) => seq![r],
            ExitJump::Next(n) => seq![n],
        }
    }

    pub fn targets(&self) -> (r: Vec<u64>)
        ensures
            r@ == self.targets_spec(),
    {
        match *self {
            ExitJump::UnconditionalAbsolute(t) => vec![t],
            ExitJump::UnconditionalRelative(t) => vec![t],
            ExitJump::ConditionalAbsolute { taken, not_taken } => vec![taken, not_taken],
            ExitJump::ConditionalRelative { taken, not_taken } => vec![taken, not_taken],
            ExitJump::Indirect => vec![],
            ExitJump::Call(t, _) => vec![t],
            ExitJump::Ret(r) => vec![r],
            ExitJump::Next(n) => vec![n],
        }
    }

    /// The same jump with its targets, in the order of `targets_spec`, replaced by `ts`.
    pub open spec fn with_targets_spec(self, ts: Seq<u64>) -> ExitJump {
        match self {
            ExitJump::UnconditionalAbsolute(_) => ExitJump::UnconditionalAbsolute(ts[0]),
            ExitJump::UnconditionalRelative(_) => ExitJump::UnconditionalRelative(ts[0]),
            ExitJump::ConditionalAbsolute { .. } => ExitJump::ConditionalAbsolute {
                taken: ts[0],
                not_taken: ts[1],
            },
            ExitJump::ConditionalRelative { .. } => ExitJump::ConditionalRelative {
                taken: ts[0],
                not_taken: ts[1],
            },
            ExitJump::Indirect => ExitJump::Indirect,
            ExitJump::Call(_, r) => ExitJump::Call(ts[0], r),
            ExitJump::Ret(_) => ExitJump::Ret(ts[0]),
            ExitJump::Next(_) => ExitJump::Next(ts[0]),
        }
    }

    pub fn with_targets(&self, ts: &Vec<u64>) -> (r: ExitJump)
        requires
            ts@.len() == self.targets_spec().len(),
        ensures
            r == self.with_targets_spec(ts@),
    {
        match *self {
            ExitJump::UnconditionalAbsolute(_) => ExitJump::UnconditionalAbsolute(ts[0]),
            ExitJump::UnconditionalRelative(_) => ExitJump::UnconditionalRelative(ts[0]),
            ExitJump::ConditionalAbsolute { .. } => ExitJump::ConditionalAbsolute {
                taken: ts[0],
                not_taken: ts[1],
            },
            ExitJump::ConditionalRelative { .. } => ExitJump::ConditionalRelative {
                taken: ts[0],
                not_taken: ts[1],
            },
            ExitJump::Indirect => ExitJump::Indirect,
            ExitJump::Call(_, r) => ExitJump::Call(ts[0], r),
            ExitJump::Ret(_) => ExitJump::Ret(ts[0]),
            ExitJump::Next(_) => ExitJump::Next(ts[0]),
        }
    }

}

/// The exit jump that an instruction at `address`, followed by an instruction at
/// `next_address`, makes according to its control-flow details.
pub open spec fn classify_spec(next_address: u64, detail: FlowDetail) -> Option<ExitJump> {
    match detail.kind {
        FlowKind::Sequential => None,
        FlowKind::Jump => match detail.target {
            None => Some(ExitJump::Indirect),
            Some(t) => if detail.conditional {
                if detail.relative {
                    Some(ExitJump::ConditionalRelative { taken: t, not_taken: next_address })
                } else {
                    Some(ExitJump::ConditionalAbsolute { taken: t, not_taken: next_address })
                }
            } else {
                if detail.relative {
                    Some(ExitJump::UnconditionalRelative(t))
                } else {
                    Some(ExitJump::UnconditionalAbsolute(t))
                }
            },
        },
        FlowKind::Call => match detail.target {
            None => None,
            Some(t) => Some(ExitJump::Call(t, next_address)),
        },
        FlowKind::Ret => Some(ExitJump::Ret(UNRESOLVED_RET)),
    }
}

/// Classifies an instruction as a control-flow exit. A call whose target is not an
/// immediate is not an exit: control resumes after it. The classifier never
/// produces `Next`; fall-through is added when blocks are formed.
pub fn classify(next_address: u64, detail: FlowDetail) -> (r: Option<ExitJump>)
    ensures
        r == classify_spec(next_address, detail),
{
    match detail.kind {
        FlowKind::Sequential => None,
        FlowKind::Jump => match detail.target {
            None => Some(ExitJump::Indirect),
            Some(t) => if detail.conditional {
                if detail.relative {
                    Some(ExitJump::ConditionalRelative { taken: t, not_taken: next_address })
                } else {
                    Some(ExitJump::ConditionalAbsolute { taken: t, not_taken: next_address })
                }
            } else {
                if detail.relative {
                    Some(ExitJump::UnconditionalRelative(t))
                } else {
                    Some(ExitJump::UnconditionalAbsolute(t))
                }
            },
        },
        FlowKind::Call => match detail.target {
            None => None,
            Some(t) => Some(ExitJump::Call(t, next_address)),
        },
        FlowKind::Ret => Some(ExitJump::Ret(UNRESOLVED_RET)),
    }
}

} // verus!
