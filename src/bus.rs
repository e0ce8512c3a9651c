//! Bus operations: what a machine asks for, and what was performed.
use vstd::prelude::*;

verus! {

/// The next thing a machine needs done on the bus.
#[derive(Clone, Copy, Debug, PartialEq, Eq, Structural)]
pub enum Action {
    /// Store `value` in the register at offset `reg`.
    Write { reg: u32, value: u32 },
    /// Load the register at offset `reg` and hand the value back.
    Read { reg: u32 },
    /// Spin for `cycles` loop iterations.
    Delay { cycles: u32 },
    /// Store `value` as word `index` of the mailbox request buffer.
    Store { index: u32, value: u32 },
    /// Nothing is left to do.
    Done,
}

/// One bus operation as it was performed, with the value a read returned.
pub enum BusOp {
    Write { reg: u32, value: u32 },
    Read { reg: u32, value: u32 },
    Delay { cycles: u32 },
    Store { index: u32, value: u32 },
}

impl Action {
    /// The operation that performing `self` amounts to, where a read
    /// returned `input`. Only meaningful for an action other than `Done`.
    pub open spec fn performed(self, input: u32) -> BusOp {
        match self {
            Action::Write { reg, value } => BusOp::Write { reg, value },
            Action::Read { reg } => BusOp::Read { reg, value: input },
            Action::Delay { cycles } => BusOp::Delay { cycles },
            Action::Store { index, value } => BusOp::Store { index, value },
            Action::Done => BusOp::Delay { cycles: 0 },
        }
    }
}

impl BusOp {
    /// The action whose performance is this operation.
    pub open spec fn action(self) -> Action {
        match self {
            BusOp::Write { reg, value } => Action::Write { reg, value },
            BusOp::Read { reg, .. } => Action::Read { reg },
            BusOp::Delay { cycles } => Action::Delay { cycles },
            BusOp::Store { index, value } => Action::Store { index, value },
        }
    }
}

/// Whether `a` reads or writes `reg`.
pub open spec fn touches(a: Action, reg: u32) -> bool {
    match a {
        Action::Write { reg: r, .. } => r == reg,
        Action::Read { reg: r } => r == reg,
        _ => false,
    }
}

/// Whether `op` is a read of `reg`.
pub open spec fn is_read_of(op: BusOp, reg: u32) -> bool {
    op matches BusOp::Read { reg: r, .. } && r == reg
}

/// Whether `op` is a write to `reg`.
pub open spec fn is_write_to(op: BusOp, reg: u32) -> bool {
    op matches BusOp::Write { reg: r, .. } && r == reg
}

/// The value `op` moved (zero for a delay).
pub open spec fn op_value(op: BusOp) -> u32 {
    match op {
        BusOp::Write { value, .. } => value,
        BusOp::Read { value, .. } => value,
        BusOp::Delay { .. } => 0,
        BusOp::Store { value, .. } => value,
    }
}

/// Every operation of `t` is a read of `reg` that found a bit of `mask` set:
/// the polls of a wait that has not ended yet.
pub open spec fn polled_while_set(t: Seq<BusOp>, reg: u32, mask: u32) -> bool {
    forall|i: int|
        0 <= i < t.len() ==> #[trigger] is_read_of(t[i], reg) && op_value(t[i]) & mask != 0
}

/// `op` is a read of `reg` that found every bit of `mask` clear: the poll
/// that ends a wait.
pub open spec fn clear_poll(op: BusOp, reg: u32, mask: u32) -> bool {
    is_read_of(op, reg) && op_value(op) & mask == 0
}

/// `t` is a whole wait on `reg`: polls that found a bit of `mask` set, then
/// one that found them all clear.
pub open spec fn wait_run(t: Seq<BusOp>, reg: u32, mask: u32) -> bool {
    t.len() >= 1 && polled_while_set(t.drop_last(), reg, mask) && clear_poll(t.last(), reg, mask)
}

/// The register contents after the writes of `ops`, in order, starting from
/// `regs`. Reads and delays leave the contents as they are.
pub open spec fn apply_writes(regs: Map<u32, u32>, ops: Seq<BusOp>) -> Map<u32, u32>
    decreases ops.len(),
{
    if ops.len() == 0 {
        regs
    } else {
        let before = apply_writes(regs, ops.drop_last());
        match ops.last() {
            BusOp::Write { reg, value } => before.insert(reg, value),
            _ => before,
        }
    }
}

/// The writes of `ops`, in order.
pub open spec fn writes_of(ops: Seq<BusOp>) -> Seq<BusOp>
    decreases ops.len(),
{
    if ops.len() == 0 {
        Seq::empty()
    } else if ops.last() is Write {
        writes_of(ops.drop_last()).push(ops.last())
    } else {
        writes_of(ops.drop_last())
    }
}

pub proof fn lemma_writes_concat(a: Seq<BusOp>, b: Seq<BusOp>)
    ensures
        writes_of(a + b) == writes_of(a) + writes_of(b),
    decreases b.len(),
{
    if b.len() == 0 {
        assert(a + b =~= a);
        assert(writes_of(a) + writes_of(b) =~= writes_of(a));
    } else {
        assert((a + b).drop_last() =~= a + b.drop_last());
        lemma_writes_concat(a, b.drop_last());
        assert(writes_of(a + b) =~= writes_of(a) + writes_of(b));
    }
}

pub proof fn lemma_writes_none(s: Seq<BusOp>)
    requires
        forall|i: int| 0 <= i < s.len() ==> !(#[trigger] s[i] is Write),
    ensures
        writes_of(s) == Seq::<BusOp>::empty(),
    decreases s.len(),
{
    if s.len() > 0 {
        assert(!(s[s.len() - 1] is Write));
        lemma_writes_none(s.drop_last());
    }
}

/// Applying `a` then `b` is applying `a + b`.
pub proof fn lemma_apply_concat(regs: Map<u32, u32>, a: Seq<BusOp>, b: Seq<BusOp>)
    ensures
        apply_writes(regs, a + b) == apply_writes(apply_writes(regs, a), b),
    decreases b.len(),
{
    if b.len() == 0 {
        assert(a + b =~= a);
    } else {
        assert((a + b).drop_last() =~= a + b.drop_last());
        lemma_apply_concat(regs, a, b.drop_last());
    }
}

/// Operations with no write leave the register contents as they are.
pub proof fn lemma_apply_no_writes(regs: Map<u32, u32>, s: Seq<BusOp>)
    requires
        forall|i: int| 0 <= i < s.len() ==> !(#[trigger] s[i] is Write),
    ensures
        apply_writes(regs, s) == regs,
    decreases s.len(),
{
    if s.len() > 0 {
        assert(!(s[s.len() - 1] is Write));
        lemma_apply_no_writes(regs, s.drop_last());
    }
}

} // verus!
