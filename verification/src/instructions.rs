//! The storage locations and operations shared by every stage.

use vstd::prelude::*;

verus! {

/// An abstract storage location or a literal.
///
/// `Temp`, `Var` and `Ptr` name locations by a dense id; `Reg` names a
/// physical register and appears only after register allocation.
#[derive(Debug, Copy, Clone, PartialEq, Eq, Structural)]
pub enum Value {
    Temp(u32),
    Var(u32),
    Ptr(u32),
    Const(i32),
    Reg(u8),
}

/// A jump target.
#[derive(Debug, Copy, Clone, PartialEq, Eq, Hash, Structural)]
pub struct Label(pub u32);

/// One operation of the flat instruction stream.
#[derive(Debug, Copy, Clone, PartialEq, Eq, Structural)]
pub enum Instr {
    Immediate { dst: Value, value: Value },
    Move { dst: Value, src: Value },
    Load { dst: Value, src: Value },
    Store { dst: Value, src: Value },
    Add { dst: Value, lhs: Value, rhs: Value },
    Sub { dst: Value, lhs: Value, rhs: Value },
    AddImmediate { dst: Value, lhs: Value, imm: i32 },
    Mul { dst: Value, lhs: Value, rhs: Value },
    CmpGt { dst: Value, lhs: Value, rhs: Value },
    Jump(Label),
    JumpIfFalse { cond: Value, target: Label },
    Label(Label),
}

impl Value {
    /// The raw id under which a location is kept track of, whatever its
    /// kind; a literal has none.
    pub open spec fn location_id(self) -> Option<u32> {
        match self {
            Value::Temp(id) => Some(id),
            Value::Var(id) => Some(id),
            Value::Ptr(id) => Some(id),
            Value::Reg(id) => Some(id as u32),
            Value::Const(_) => None,
        }
    }
}

/// The operands of an instruction that are values, destination first.
pub open spec fn operands(instr: Instr) -> Seq<Value> {
    match instr {
        Instr::Immediate { dst, value } => seq![dst, value],
        Instr::Move { dst, src } => seq![dst, src],
        Instr::Load { dst, src } => seq![dst, src],
        Instr::Store { dst, src } => seq![dst, src],
        Instr::Add { dst, lhs, rhs } => seq![dst, lhs, rhs],
        Instr::Sub { dst, lhs, rhs } => seq![dst, lhs, rhs],
        Instr::AddImmediate { dst, lhs, imm } => seq![dst, lhs],
        Instr::Mul { dst, lhs, rhs } => seq![dst, lhs, rhs],
        Instr::CmpGt { dst, lhs, rhs } => seq![dst, lhs, rhs],
        Instr::Jump(_) => seq![],
        Instr::JumpIfFalse { cond, target } => seq![cond],
        Instr::Label(_) => seq![],
    }
}

/// Whether the temporary with this id is an operand of `instr`.
pub open spec fn mentions_temp(instr: Instr, id: u32) -> bool {
    operands(instr).contains(Value::Temp(id))
}

/// Whether `instr` shapes the control flow: it marks a jump target, or
/// jumps.
pub open spec fn is_control(instr: Instr) -> bool {
    instr is Label || instr is Jump || instr is JumpIfFalse
}

/// The instructions of `instrs` that shape the control flow, in their
/// order.
pub open spec fn control_flow(instrs: Seq<Instr>) -> Seq<Instr> {
    instrs.filter(|instr: Instr| is_control(instr))
}

/// The control flow of a sequence with one more instruction.
pub proof fn lemma_control_flow_push(instrs: Seq<Instr>, instr: Instr)
    ensures
        control_flow(instrs.push(instr)) == if is_control(instr) {
            control_flow(instrs).push(instr)
        } else {
            control_flow(instrs)
        },
{
    reveal(Seq::filter);
    assert(instrs.push(instr).drop_last() =~= instrs);
}

/// A sequence without instructions has no control flow.
pub proof fn lemma_control_flow_empty()
    ensures
        control_flow(Seq::empty()) == Seq::<Instr>::empty(),
{
    reveal(Seq::filter);
}

/// The control flow of two sequences joined.
pub proof fn lemma_control_flow_add(first: Seq<Instr>, second: Seq<Instr>)
    ensures
        control_flow(first + second) == control_flow(first) + control_flow(second),
{
    Seq::filter_distributes_over_add(first, second, |instr: Instr| is_control(instr));
}

/// Whether every temporary that an instruction of `instrs` names has an id
/// from `lo` up to, but not including, `hi`.
pub open spec fn temps_within(instrs: Seq<Instr>, lo: nat, hi: nat) -> bool {
    forall|i: int, id: u32|
        0 <= i < instrs.len() && #[trigger] mentions_temp(instrs[i], id) ==> lo <= id < hi
}

/// Whether `value`, if it is a temporary, has an id from `lo` up to, but
/// not including, `hi`.
pub open spec fn value_within(value: Value, lo: nat, hi: nat) -> bool {
    value matches Value::Temp(id) ==> lo <= id < hi
}

/// Whether every operand of `instr` that is a temporary has an id from `lo`
/// up to, but not including, `hi`.
pub open spec fn operands_within(instr: Instr, lo: nat, hi: nat) -> bool {
    forall|k: int| 0 <= k < operands(instr).len() ==> value_within(#[trigger] operands(instr)[k], lo, hi)
}

/// Appending an instruction whose temporaries lie in a range to a sequence
/// whose temporaries lie in it gives such a sequence.
pub proof fn lemma_push_within(instrs: Seq<Instr>, instr: Instr, lo: nat, hi: nat)
    requires
        temps_within(instrs, lo, hi),
        operands_within(instr, lo, hi),
    ensures
        temps_within(instrs.push(instr), lo, hi),
{
    let pushed = instrs.push(instr);
    assert forall|i: int, id: u32|
        0 <= i < pushed.len() && #[trigger] mentions_temp(pushed[i], id) implies lo <= id < hi by {
        if i == instrs.len() {
            let k = choose|k: int| 0 <= k < operands(instr).len() && operands(instr)[k] == Value::Temp(id);
            assert(value_within(operands(instr)[k], lo, hi));
        } else {
            assert(mentions_temp(instrs[i], id));
        }
    }
}

/// A range of temporaries can be widened.
pub proof fn lemma_widen_within(instrs: Seq<Instr>, lo: nat, hi: nat, more: nat)
    requires
        temps_within(instrs, lo, hi),
        hi <= more,
    ensures
        temps_within(instrs, lo, more),
{
    assert forall|i: int, id: u32|
        0 <= i < instrs.len() && #[trigger] mentions_temp(instrs[i], id) implies lo <= id < more by {
        assert(lo <= id < hi);
    }
}

} // verus!
