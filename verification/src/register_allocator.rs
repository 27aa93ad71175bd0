//! Register allocation: one forward pass over a legalized instruction
//! sequence, with no lookahead and no liveness analysis.
//!
//! Every location named by an arithmetic or move instruction is mapped to a
//! physical register. When no register is free, one is evicted. A register
//! that was not written since it last matched memory is evicted for free; for
//! a dirty one a `Store` of what it held is emitted. A location that is
//! needed again and is no longer resident is brought back by a `Load`.

use vstd::prelude::*;
use crate::errors::Fault;
use crate::instructions::{
    control_flow, is_control, lemma_control_flow_empty, lemma_control_flow_push, Instr, Value,
};
use crate::search::{first_index, lemma_first_index, lemma_first_index_found, lemma_first_index_none};

verus! {

/// The size of the register file that [`Allocator::new`] assumes.
pub const NUM_REGISTERS: u8 = 7;

/// What the allocator keeps track of, as plain mathematical data.
pub struct AllocState {
    /// For each register, the location it holds, if any.
    pub regs: Seq<Option<Value>>,
    /// For each register, whether it was written since it last matched memory.
    pub dirty: Seq<bool>,
    /// The locations that were spilled, in the order of their eviction.
    pub ram: Seq<Value>,
    /// The instructions emitted so far.
    pub instrs: Seq<Instr>,
}

/// The outcome of resolving one operand: the state afterwards, and the
/// register that was chosen or the fault that stopped the resolution.
pub struct Allocation {
    pub state: AllocState,
    pub outcome: Result<u8, Fault>,
}

/// The outcome of resolving all operands of one instruction: the state
/// afterwards, and the registers in the order destination, first source,
/// second source. An instruction with one source repeats it.
pub struct Resolution {
    pub state: AllocState,
    pub outcome: Result<(u8, u8, u8), Fault>,
}

/// The outcome of processing instructions: the state when processing
/// stopped, and the fault that stopped it, if one did.
pub struct Run {
    pub state: AllocState,
    pub fault: Option<Fault>,
}

/// What a search of the register file for a location finds.
pub enum Lookup {
    /// The location is held by this register, and by none before it.
    Found(int),
    /// No register holds the location.
    Missing,
    /// The search met a literal before it met the location.
    Faulted,
}

/// Searches the registers from `from` on for one that holds the location
/// of `value`. Locations are compared by their raw id alone.
pub open spec fn find_resident(regs: Seq<Option<Value>>, value: Value, from: int) -> Lookup
    decreases regs.len() - from,
{
    if from < 0 || from >= regs.len() {
        Lookup::Missing
    } else {
        match regs[from] {
            None => find_resident(regs, value, from + 1),
            Some(held) => if held.location_id() is None || value.location_id() is None {
                Lookup::Faulted
            } else if held.location_id() == value.location_id() {
                Lookup::Found(from)
            } else {
                find_resident(regs, value, from + 1)
            },
        }
    }
}

impl AllocState {
    /// The state of a fresh allocator with `count` registers.
    pub open spec fn empty(count: nat) -> AllocState {
        AllocState {
            regs: Seq::new(count, |r: int| None::<Value>),
            dirty: Seq::new(count, |r: int| false),
            ram: Seq::empty(),
            instrs: Seq::empty(),
        }
    }

    /// There is one dirty flag for each register, and a register's index
    /// fits in a byte.
    pub open spec fn wf(self) -> bool {
        self.regs.len() == self.dirty.len() && self.regs.len() <= 256
    }

    /// Whether a register is empty and not locked.
    pub open spec fn is_free(self, locked: Seq<u8>) -> spec_fn(int) -> bool {
        |r: int| self.regs[r] is None && !locked.contains(r as u8)
    }

    /// Whether a register is neither locked nor dirty.
    pub open spec fn is_clean(self, locked: Seq<u8>) -> spec_fn(int) -> bool {
        |r: int| !locked.contains(r as u8) && !self.dirty[r]
    }

    /// Whether a register is not locked.
    pub open spec fn is_unlocked(locked: Seq<u8>) -> spec_fn(int) -> bool {
        |r: int| !locked.contains(r as u8)
    }

    /// The first register that is empty and not locked.
    pub open spec fn free_register(self, locked: Seq<u8>) -> Option<int> {
        first_index(self.is_free(locked), 0, self.regs.len() as int)
    }

    /// The register to evict: the first that is neither locked nor dirty,
    /// or else the first that is not locked.
    pub open spec fn spill_candidate(self, locked: Seq<u8>) -> Option<int> {
        match first_index(self.is_clean(locked), 0, self.regs.len() as int) {
            Some(r) => Some(r),
            None => first_index(Self::is_unlocked(locked), 0, self.regs.len() as int),
        }
    }

    /// The state after `instr` was emitted.
    pub open spec fn emit(self, instr: Instr) -> AllocState {
        AllocState { instrs: self.instrs.push(instr), ..self }
    }

    /// The state after `instr`, which writes register `dst`, was emitted.
    pub open spec fn finish(self, instr: Instr, dst: u8) -> AllocState {
        AllocState {
            instrs: self.instrs.push(instr),
            dirty: self.dirty.update(dst as int, true),
            ..self
        }
    }

    /// Gives `value` a register of its own that is not in `locked`.
    ///
    /// The first empty unlocked register is taken if there is one. If not,
    /// the spill candidate is evicted: what it held is recorded as spilled,
    /// and the value takes its place in the same register. If the candidate
    /// is dirty, a `Store` from it is emitted for what it held; the eviction
    /// of a clean register emits nothing, as memory holds its content
    /// already. No other register is touched.
    pub open spec fn allocate_register(self, value: Value, locked: Seq<u8>) -> Allocation {
        match self.free_register(locked) {
            Some(r) => Allocation {
                state: AllocState { regs: self.regs.update(r, Some(value)), ..self },
                outcome: Ok(r as u8),
            },
            None => match self.spill_candidate(locked) {
                None => Allocation { state: self, outcome: Err(Fault::NoSpillCandidate) },
                Some(p) => {
                    let spilled = self.regs[p]->0;
                    Allocation {
                        state: AllocState {
                            regs: self.regs.update(p, Some(value)),
                            dirty: self.dirty,
                            ram: self.ram.push(spilled),
                            instrs: if self.dirty[p] {
                                self.instrs.push(
                                    Instr::Store { dst: spilled, src: Value::Reg(p as u8) },
                                )
                            } else {
                                self.instrs
                            },
                        },
                        outcome: Ok(p as u8),
                    }
                },
            },
        }
    }

    /// The register that holds `value`: the one it occupies already, or a
    /// newly allocated one, into which a `Load` then brings it.
    pub open spec fn get_or_load(self, value: Value, locked: Seq<u8>) -> Allocation {
        match find_resident(self.regs, value, 0) {
            Lookup::Found(r) => Allocation { state: self, outcome: Ok(r as u8) },
            Lookup::Faulted => Allocation { state: self, outcome: Err(Fault::NoLocation) },
            Lookup::Missing => {
                let fresh = self.allocate_register(value, locked);
                match fresh.outcome {
                    Ok(r) => Allocation {
                        state: fresh.state.emit(Instr::Load { dst: Value::Reg(r), src: value }),
                        outcome: Ok(r),
                    },
                    Err(_) => fresh,
                }
            },
        }
    }

    /// Resolves an instruction with one source: the source first, then the
    /// destination with the source's register locked.
    pub open spec fn resolve_unary(self, dst: Value, src: Value) -> Resolution {
        let s = self.get_or_load(src, Seq::empty());
        match s.outcome {
            Err(f) => Resolution { state: s.state, outcome: Err(f) },
            Ok(rs) => {
                let d = s.state.allocate_register(dst, seq![rs]);
                match d.outcome {
                    Err(f) => Resolution { state: d.state, outcome: Err(f) },
                    Ok(rd) => Resolution { state: d.state, outcome: Ok((rd, rs, rs)) },
                }
            },
        }
    }

    /// Resolves an instruction with two sources: the left one with nothing
    /// locked, the right one with the left one's register locked, then the
    /// destination with both locked.
    pub open spec fn resolve_binary(self, dst: Value, lhs: Value, rhs: Value) -> Resolution {
        let l = self.get_or_load(lhs, Seq::empty());
        match l.outcome {
            Err(f) => Resolution { state: l.state, outcome: Err(f) },
            Ok(rl) => {
                let r = l.state.get_or_load(rhs, seq![rl]);
                match r.outcome {
                    Err(f) => Resolution { state: r.state, outcome: Err(f) },
                    Ok(rr) => {
                        let d = r.state.allocate_register(dst, seq![rl, rr]);
                        match d.outcome {
                            Err(f) => Resolution { state: d.state, outcome: Err(f) },
                            Ok(rd) => Resolution { state: d.state, outcome: Ok((rd, rl, rr)) },
                        }
                    },
                }
            },
        }
    }

    /// The state after the operands were resolved: `make` builds the
    /// instruction to emit from the registers, and the destination register
    /// becomes dirty. A fault leaves the state where the resolution stopped.
    pub open spec fn conclude(
        resolved: Resolution,
        make: spec_fn(Value, Value, Value) -> Instr,
    ) -> Run {
        match resolved.outcome {
            Err(f) => Run { state: resolved.state, fault: Some(f) },
            Ok((rd, ra, rb)) => Run {
                state: resolved.state.finish(
                    make(Value::Reg(rd), Value::Reg(ra), Value::Reg(rb)),
                    rd,
                ),
                fault: None,
            },
        }
    }

    /// Processes one instruction.
    ///
    /// `Move`, `Immediate`, `Add`, `Sub` and `AddImmediate` have their
    /// locations replaced by registers. Every other instruction is emitted
    /// as it stands.
    pub open spec fn step(self, instr: Instr) -> Run {
        match instr {
            Instr::Move { dst, src } => Self::conclude(
                self.resolve_unary(dst, src),
                |d: Value, a: Value, b: Value| Instr::Move { dst: d, src: a },
            ),
            Instr::Immediate { dst, value } => {
                let d = self.allocate_register(dst, Seq::empty());
                match d.outcome {
                    Err(f) => Run { state: d.state, fault: Some(f) },
                    Ok(rd) => Run {
                        state: d.state.finish(
                            Instr::Immediate { dst: Value::Reg(rd), value: value },
                            rd,
                        ),
                        fault: None,
                    },
                }
            },
            Instr::Add { dst, lhs, rhs } => Self::conclude(
                self.resolve_binary(dst, lhs, rhs),
                |d: Value, a: Value, b: Value| Instr::Add { dst: d, lhs: a, rhs: b },
            ),
            Instr::AddImmediate { dst, lhs, imm } => Self::conclude(
                self.resolve_unary(dst, lhs),
                |d: Value, a: Value, b: Value| Instr::AddImmediate { dst: d, lhs: a, imm: imm },
            ),
            Instr::Sub { dst, lhs, rhs } => Self::conclude(
                self.resolve_binary(dst, lhs, rhs),
                |d: Value, a: Value, b: Value| Instr::Sub { dst: d, lhs: a, rhs: b },
            ),
            _ => Run { state: self.emit(instr), fault: None },
        }
    }

    /// Processes the first `count` instructions of `instrs` in order, and
    /// stops at the first fault.
    pub open spec fn run(self, instrs: Seq<Instr>, count: nat) -> Run
        decreases count,
    {
        if count == 0 {
            Run { state: self, fault: None }
        } else {
            let before = self.run(instrs, (count - 1) as nat);
            if before.fault is Some {
                before
            } else {
                before.state.step(instrs[count - 1])
            }
        }
    }
}

/// The register allocator.
pub struct Allocator {
    instrs: Vec<Instr>,
    regs: Vec<Option<Value>>,
    ram: Vec<Value>,
    dirty: Vec<bool>,
}

impl View for Allocator {
    type V = AllocState;

    closed spec fn view(&self) -> AllocState {
        AllocState { regs: self.regs@, dirty: self.dirty@, ram: self.ram@, instrs: self.instrs@ }
    }
}

/// Whether `reg` is one of the locked registers.
fn is_locked(locked: &[u8], reg: u8) -> (found: bool)
    ensures
        found == locked@.contains(reg),
{
    let mut k: usize = 0;
    while k < locked.len()
        invariant
            k <= locked@.len(),
            forall|j: int| 0 <= j < k ==> locked@[j] != reg,
        decreases locked@.len() - k,
    {
        if locked[k] == reg {
            return true;
        }
        k += 1;
    }
    false
}

impl Allocator {
    /// An allocator for a register file of [`NUM_REGISTERS`] registers.
    pub fn new() -> (allocator: Self)
        ensures
            allocator@ == AllocState::empty(NUM_REGISTERS as nat),
            allocator@.wf(),
    {
        Self::with_registers(NUM_REGISTERS)
    }

    /// An allocator for a register file of `count` registers, all of them
    /// empty and clean.
    pub fn with_registers(count: u8) -> (allocator: Self)
        ensures
            allocator@ == AllocState::empty(count as nat),
            allocator@.wf(),
    {
        let mut regs: Vec<Option<Value>> = Vec::new();
        let mut dirty: Vec<bool> = Vec::new();
        let mut r: u8 = 0;
        while r < count
            invariant
                r <= count,
                regs@.len() == r,
                dirty@.len() == r,
                forall|j: int| 0 <= j < r ==> regs@[j] is None,
                forall|j: int| 0 <= j < r ==> !dirty@[j],
            decreases count - r,
        {
            regs.push(None);
            dirty.push(false);
            r += 1;
        }
        let allocator = Allocator { instrs: Vec::new(), regs, ram: Vec::new(), dirty };
        assert(allocator@.regs =~= AllocState::empty(count as nat).regs);
        assert(allocator@.dirty =~= AllocState::empty(count as nat).dirty);
        allocator
    }

    /// The raw id of a location, whatever its kind. A literal has none.
    pub fn get_id_of(value: &Value) -> (id: Option<u32>)
        ensures
            id == value.location_id(),
    {
        match value {
            Value::Temp(id) => Some(*id),
            Value::Var(id) => Some(*id),
            Value::Ptr(id) => Some(*id),
            Value::Reg(id) => Some(*id as u32),
            Value::Const(_) => None,
        }
    }

    /// The register to evict while the registers in `locked_regs` must stay
    /// as they are. With every register locked there is none.
    pub fn pick_spill_register(&self, locked_regs: &[u8]) -> (picked: Result<usize, Fault>)
        requires
            self@.wf(),
        ensures
            match picked {
                Ok(reg) => self@.spill_candidate(locked_regs@) == Some(reg as int),
                Err(fault) => fault == Fault::NoSpillCandidate && self@.spill_candidate(
                    locked_regs@,
                ) is None,
            },
    {
        let ghost clean = self@.is_clean(locked_regs@);
        let ghost unlocked = AllocState::is_unlocked(locked_regs@);
        let count = self.regs.len();
        let mut reg: usize = 0;
        while reg < count
            invariant
                count == self.regs@.len(),
                self@.wf(),
                reg <= count,
                forall|j: int| 0 <= j < reg ==> !#[trigger] clean(j),
                clean == self@.is_clean(locked_regs@),
            decreases count - reg,
        {
            if !is_locked(locked_regs, reg as u8) && !self.dirty[reg] {
                proof {
                    lemma_first_index_found(clean, 0, count as int, reg as int);
                }
                return Ok(reg);
            }
            reg += 1;
        }
        proof {
            lemma_first_index_none(clean, 0, count as int);
        }
        let mut reg: usize = 0;
        while reg < count
            invariant
                count == self.regs@.len(),
                self@.wf(),
                reg <= count,
                forall|j: int| 0 <= j < reg ==> !#[trigger] unlocked(j),
                unlocked == AllocState::is_unlocked(locked_regs@),
                first_index(clean, 0, count as int) is None,
                clean == self@.is_clean(locked_regs@),
            decreases count - reg,
        {
            if !is_locked(locked_regs, reg as u8) {
                proof {
                    lemma_first_index_found(unlocked, 0, count as int, reg as int);
                }
                return Ok(reg);
            }
            reg += 1;
        }
        proof {
            lemma_first_index_none(unlocked, 0, count as int);
        }
        Err(Fault::NoSpillCandidate)
    }

    /// Gives `value` a register that is not in `locked_regs`, evicting the
    /// occupant of another register where none is empty. The occupant of a
    /// dirty register is stored first; that of a clean one leaves without a
    /// `Store`.
    ///
    /// It fails only if every register is locked. The register returned is
    /// never a locked one: it holds the value afterwards, and every other
    /// register holds what it held.
    pub fn allocate_register(&mut self, value: &Value, locked_regs: &[u8]) -> (reg: Result<
        u8,
        Fault,
    >)
        requires
            old(self)@.wf(),
        ensures
            final(self)@.wf(),
            final(self)@ == old(self)@.allocate_register(*value, locked_regs@).state,
            reg == old(self)@.allocate_register(*value, locked_regs@).outcome,
            reg is Err <==> forall|r: u8|
                r < old(self)@.regs.len() ==> #[trigger] locked_regs@.contains(r),
            reg is Err ==> final(self)@ == old(self)@,
            reg matches Ok(r) ==> r < old(self)@.regs.len() && !locked_regs@.contains(r)
                && final(self)@.regs == old(self)@.regs.update(r as int, Some(*value))
                && final(self)@.dirty == old(self)@.dirty,
    {
        let ghost before = self@;
        let ghost free = before.is_free(locked_regs@);
        let count = self.regs.len();
        let mut reg: usize = 0;
        while reg < count
            invariant
                count == self.regs@.len(),
                self@ == before,
                before == old(self)@,
                before.wf(),
                reg <= count,
                forall|j: int| 0 <= j < reg ==> !#[trigger] free(j),
                free == before.is_free(locked_regs@),
            decreases count - reg,
        {
            if self.regs[reg].is_none() && !is_locked(locked_regs, reg as u8) {
                proof {
                    lemma_first_index_found(free, 0, count as int, reg as int);
                }
                self.regs.set(reg, Some(*value));
                return Ok(reg as u8);
            }
            reg += 1;
        }
        proof {
            lemma_first_index_none(free, 0, count as int);
            lemma_first_index(before.is_clean(locked_regs@), 0, count as int);
            lemma_first_index(AllocState::is_unlocked(locked_regs@), 0, count as int);
        }
        let picked = match self.pick_spill_register(locked_regs) {
            Ok(picked) => picked,
            Err(fault) => {
                assert forall|r: u8| r < before.regs.len() implies #[trigger] locked_regs@.contains(
                    r,
                ) by {
                    assert(!AllocState::is_unlocked(locked_regs@)(r as int));
                }
                return Err(fault);
            },
        };
        assert(!free(picked as int));
        let spilled = self.regs[picked].unwrap();
        self.ram.push(spilled);
        if self.dirty[picked] {
            self.instrs.push(Instr::Store { dst: spilled, src: Value::Reg(picked as u8) });
        }
        self.regs.set(picked, Some(*value));
        Ok(picked as u8)
    }

    /// The register that holds `value`: the first one whose occupant has
    /// the same raw id, or else a newly allocated one, for which a `Load`
    /// is emitted.
    ///
    /// The search fails on a literal: on `value` itself once it meets an
    /// occupied register, and on an occupant that is one.
    pub fn get_or_load(&mut self, value: &Value, locked_regs: &[u8]) -> (reg: Result<u8, Fault>)
        requires
            old(self)@.wf(),
        ensures
            final(self)@.wf(),
            final(self)@ == old(self)@.get_or_load(*value, locked_regs@).state,
            reg == old(self)@.get_or_load(*value, locked_regs@).outcome,
            reg matches Ok(r) ==> r < old(self)@.regs.len() && final(self)@.dirty
                == old(self)@.dirty && match find_resident(old(self)@.regs, *value, 0) {
                Lookup::Found(at) => at == r && final(self)@ == old(self)@,
                _ => !locked_regs@.contains(r) && final(self)@.regs == old(self)@.regs.update(
                    r as int,
                    Some(*value),
                ) && final(self)@.instrs.len() > 0 && final(self)@.instrs.last() == (Instr::Load {
                    dst: Value::Reg(r),
                    src: *value,
                }),
            },
    {
        proof {
            if old(self)@.get_or_load(*value, locked_regs@).outcome is Ok {
                lemma_load_keeps_locks(old(self)@, *value, locked_regs@);
            }
        }
        let count = self.regs.len();
        let mut reg: usize = 0;
        while reg < count
            invariant
                count == self.regs@.len(),
                self@ == old(self)@,
                self@.wf(),
                reg <= count,
                find_resident(self@.regs, *value, 0) == find_resident(
                    self@.regs,
                    *value,
                    reg as int,
                ),
            decreases count - reg,
        {
            if let Some(held) = self.regs[reg] {
                let held_id = match Self::get_id_of(&held) {
                    Some(id) => id,
                    None => {
                        return Err(Fault::NoLocation);
                    },
                };
                let wanted_id = match Self::get_id_of(value) {
                    Some(id) => id,
                    None => {
                        return Err(Fault::NoLocation);
                    },
                };
                if held_id == wanted_id {
                    return Ok(reg as u8);
                }
            }
            reg += 1;
        }
        let reg = self.allocate_register(value, locked_regs)?;
        self.instrs.push(Instr::Load { dst: Value::Reg(reg), src: *value });
        Ok(reg)
    }

    /// Resolves the operands of an instruction with one source.
    fn resolve_unary(&mut self, dst: &Value, src: &Value) -> (regs: Result<(u8, u8, u8), Fault>)
        requires
            old(self)@.wf(),
        ensures
            final(self)@.wf(),
            final(self)@ == old(self)@.resolve_unary(*dst, *src).state,
            regs == old(self)@.resolve_unary(*dst, *src).outcome,
            regs matches Ok((rd, _, _)) ==> rd < final(self)@.regs.len(),
    {
        let none: [u8; 0] = [];
        assert(none@ =~= Seq::<u8>::empty());
        let src_reg = self.get_or_load(src, &none)?;
        let locks: [u8; 1] = [src_reg];
        assert(locks@ =~= seq![src_reg]);
        let dst_reg = self.allocate_register(dst, &locks)?;
        Ok((dst_reg, src_reg, src_reg))
    }

    /// Resolves the operands of an instruction with two sources.
    fn resolve_binary(&mut self, dst: &Value, lhs: &Value, rhs: &Value) -> (regs: Result<
        (u8, u8, u8),
        Fault,
    >)
        requires
            old(self)@.wf(),
        ensures
            final(self)@.wf(),
            final(self)@ == old(self)@.resolve_binary(*dst, *lhs, *rhs).state,
            regs == old(self)@.resolve_binary(*dst, *lhs, *rhs).outcome,
            regs matches Ok((rd, _, _)) ==> rd < final(self)@.regs.len(),
    {
        let none: [u8; 0] = [];
        assert(none@ =~= Seq::<u8>::empty());
        let lhs_reg = self.get_or_load(lhs, &none)?;
        let left: [u8; 1] = [lhs_reg];
        assert(left@ =~= seq![lhs_reg]);
        let rhs_reg = self.get_or_load(rhs, &left)?;
        let both: [u8; 2] = [lhs_reg, rhs_reg];
        assert(both@ =~= seq![lhs_reg, rhs_reg]);
        let dst_reg = self.allocate_register(dst, &both)?;
        Ok((dst_reg, lhs_reg, rhs_reg))
    }

    /// Emits an instruction that writes register `dst`.
    fn finish(&mut self, instr: Instr, dst: u8)
        requires
            old(self)@.wf(),
            dst < old(self)@.regs.len(),
        ensures
            final(self)@.wf(),
            final(self)@ == old(self)@.finish(instr, dst),
    {
        self.instrs.push(instr);
        self.dirty.set(dst as usize, true);
    }

    /// Processes one instruction.
    fn step(&mut self, instr: &Instr) -> (done: Result<(), Fault>)
        requires
            old(self)@.wf(),
        ensures
            final(self)@.wf(),
            final(self)@ == old(self)@.step(*instr).state,
            match done {
                Ok(_) => old(self)@.step(*instr).fault is None,
                Err(fault) => old(self)@.step(*instr).fault == Some(fault),
            },
    {
        match instr {
            Instr::Move { dst, src } => {
                let (rd, rs, _) = self.resolve_unary(dst, src)?;
                self.finish(Instr::Move { dst: Value::Reg(rd), src: Value::Reg(rs) }, rd);
            },
            Instr::Immediate { dst, value } => {
                let none: [u8; 0] = [];
                assert(none@ =~= Seq::<u8>::empty());
                let rd = self.allocate_register(dst, &none)?;
                self.finish(Instr::Immediate { dst: Value::Reg(rd), value: *value }, rd);
            },
            Instr::Add { dst, lhs, rhs } => {
                let (rd, rl, rr) = self.resolve_binary(dst, lhs, rhs)?;
                self.finish(
                    Instr::Add { dst: Value::Reg(rd), lhs: Value::Reg(rl), rhs: Value::Reg(rr) },
                    rd,
                );
            },
            Instr::AddImmediate { dst, lhs, imm } => {
                let (rd, rl, _) = self.resolve_unary(dst, lhs)?;
                self.finish(
                    Instr::AddImmediate { dst: Value::Reg(rd), lhs: Value::Reg(rl), imm: *imm },
                    rd,
                );
            },
            Instr::Sub { dst, lhs, rhs } => {
                let (rd, rl, rr) = self.resolve_binary(dst, lhs, rhs)?;
                self.finish(
                    Instr::Sub { dst: Value::Reg(rd), lhs: Value::Reg(rl), rhs: Value::Reg(rr) },
                    rd,
                );
            },
            _ => {
                self.instrs.push(*instr);
            },
        }
        Ok(())
    }

    /// Allocates registers for `instrs`, in order, and returns everything
    /// emitted so far: the instructions of earlier calls, then for each
    /// instruction of `instrs` the spill code it needed and the instruction
    /// itself.
    ///
    /// Processing stops at the first fault, which is then returned; the
    /// allocator keeps what it had emitted up to there.
    ///
    /// No instruction that comes out writes a register that it reads.
    pub fn allocate(&mut self, instrs: &Vec<Instr>) -> (emitted: Result<Vec<Instr>, Fault>)
        requires
            old(self)@.wf(),
        ensures
            final(self)@.wf(),
            final(self)@ == old(self)@.run(instrs@, instrs@.len()).state,
            match emitted {
                Ok(all) => old(self)@.run(instrs@, instrs@.len()).fault is None && all@
                    == final(self)@.instrs,
                Err(fault) => old(self)@.run(instrs@, instrs@.len()).fault == Some(fault),
            },
            all_write_apart(old(self)@.instrs) ==> all_write_apart(final(self)@.instrs),
    {
        proof {
            if all_write_apart(old(self)@.instrs) {
                lemma_run_keeps_operands_apart(old(self)@, instrs@, instrs@.len());
            }
        }
        let mut i: usize = 0;
        while i < instrs.len()
            invariant
                i <= instrs@.len(),
                self@.wf(),
                old(self)@.run(instrs@, i as nat) == (Run { state: self@, fault: None }),
                all_write_apart(old(self)@.instrs) ==> all_write_apart(
                    old(self)@.run(instrs@, instrs@.len() as nat).state.instrs,
                ),
            decreases instrs@.len() - i,
        {
            match self.step(&instrs[i]) {
                Ok(_) => {},
                Err(fault) => {
                    proof {
                        lemma_run_stops(old(self)@, instrs@, (i + 1) as nat, instrs@.len());
                    }
                    return Err(fault);
                },
            }
            i += 1;
        }
        Ok(self.emitted())
    }

    /// The number of registers.
    pub fn register_count(&self) -> (count: usize)
        requires
            self@.wf(),
        ensures
            count == self@.regs.len(),
    {
        self.regs.len()
    }

    /// What register `reg` holds, if it holds anything.
    pub fn register(&self, reg: u8) -> (held: Option<Value>)
        requires
            self@.wf(),
        ensures
            held == if reg < self@.regs.len() {
                self@.regs[reg as int]
            } else {
                None
            },
    {
        if (reg as usize) < self.regs.len() {
            self.regs[reg as usize]
        } else {
            None
        }
    }

    /// Whether register `reg` was written since it last matched memory.
    pub fn is_dirty(&self, reg: u8) -> (dirty: bool)
        requires
            self@.wf(),
        ensures
            dirty == (reg < self@.regs.len() && self@.dirty[reg as int]),
    {
        (reg as usize) < self.dirty.len() && self.dirty[reg as usize]
    }

    /// The locations that were spilled so far, in the order of their
    /// eviction.
    pub fn spilled(&self) -> (all: Vec<Value>)
        ensures
            all@ == self@.ram,
    {
        let mut all: Vec<Value> = Vec::new();
        let mut i: usize = 0;
        while i < self.ram.len()
            invariant
                i <= self.ram@.len(),
                all@ == self.ram@.subrange(0, i as int),
            decreases self.ram@.len() - i,
        {
            all.push(self.ram[i]);
            assert(self.ram@.subrange(0, i as int).push(self.ram@[i as int]) =~= self.ram@.subrange(
                0,
                i + 1,
            ));
            i += 1;
        }
        assert(self.ram@.subrange(0, i as int) =~= self.ram@);
        all
    }

    /// A copy of everything emitted so far.
    pub fn emitted(&self) -> (all: Vec<Instr>)
        ensures
            all@ == self@.instrs,
    {
        let mut all: Vec<Instr> = Vec::new();
        let mut i: usize = 0;
        while i < self.instrs.len()
            invariant
                i <= self.instrs@.len(),
                all@ == self.instrs@.subrange(0, i as int),
            decreases self.instrs@.len() - i,
        {
            all.push(self.instrs[i]);
            assert(self.instrs@.subrange(0, i as int).push(self.instrs@[i as int])
                =~= self.instrs@.subrange(0, i + 1));
            i += 1;
        }
        assert(self.instrs@.subrange(0, i as int) =~= self.instrs@);
        all
    }
}

/// Once a run has met a fault, it stays where it stopped.
pub proof fn lemma_run_stops(state: AllocState, instrs: Seq<Instr>, count: nat, more: nat)
    requires
        count <= more,
        state.run(instrs, count).fault is Some,
    ensures
        state.run(instrs, more) == state.run(instrs, count),
    decreases more,
{
    if count < more {
        lemma_run_stops(state, instrs, count, (more - 1) as nat);
    }
}

/// Allocation stops for two reasons only: no register can be spilled, or
/// a literal stands where a location is needed.
pub proof fn lemma_run_faults(state: AllocState, instrs: Seq<Instr>, count: nat)
    ensures
        state.run(instrs, count).fault matches Some(fault) ==> fault == Fault::NoSpillCandidate
            || fault == Fault::NoLocation,
    decreases count,
{
    if count > 0 {
        lemma_run_faults(state, instrs, (count - 1) as nat);
    }
}

/// An allocation fails only if every register is locked, and then evicts
/// nothing and changes nothing.
pub proof fn lemma_allocation_fails_when_all_locked(
    state: AllocState,
    value: Value,
    locked: Seq<u8>,
)
    requires
        state.wf(),
    ensures
        state.allocate_register(value, locked).outcome is Err <==> forall|r: u8|
            r < state.regs.len() ==> #[trigger] locked.contains(r),
        state.allocate_register(value, locked).outcome is Err ==> state.allocate_register(
            value,
            locked,
        ).outcome == Err::<u8, Fault>(Fault::NoSpillCandidate) && state.allocate_register(
            value,
            locked,
        ).state == state,
{
    let count = state.regs.len() as int;
    lemma_first_index(state.is_free(locked), 0, count);
    lemma_first_index(state.is_clean(locked), 0, count);
    lemma_first_index(AllocState::is_unlocked(locked), 0, count);
    if state.allocate_register(value, locked).outcome is Err {
        assert forall|r: u8| r < state.regs.len() implies #[trigger] locked.contains(r) by {
            assert(!AllocState::is_unlocked(locked)(r as int));
        }
    }
    if forall|r: u8| r < state.regs.len() ==> #[trigger] locked.contains(r) {
        assert forall|j: int| 0 <= j < count implies !#[trigger] state.is_free(locked)(j) by {
            assert(locked.contains(j as u8));
        }
        assert forall|j: int| 0 <= j < count implies !#[trigger] state.is_clean(locked)(j) by {
            assert(locked.contains(j as u8));
        }
        assert forall|j: int| 0 <= j < count implies !#[trigger] AllocState::is_unlocked(locked)(
            j,
        ) by {
            assert(locked.contains(j as u8));
        }
    }
}

/// Lock safety of an allocation: the register that it hands out is not
/// locked. That register holds the value afterwards; every other register,
/// and so every locked one, holds what it held, and no dirty flag changes.
pub proof fn lemma_allocation_keeps_locks(state: AllocState, value: Value, locked: Seq<u8>)
    requires
        state.wf(),
        state.allocate_register(value, locked).outcome is Ok,
    ensures
        ({
            let done = state.allocate_register(value, locked);
            let r = done.outcome->Ok_0;
            &&& r < state.regs.len()
            &&& !locked.contains(r)
            &&& done.state.regs == state.regs.update(r as int, Some(value))
            &&& done.state.dirty == state.dirty
            &&& forall|l: u8|
                l < state.regs.len() && #[trigger] locked.contains(l) ==> done.state.regs[l as int]
                    == state.regs[l as int]
        }),
{
    let count = state.regs.len() as int;
    lemma_first_index(state.is_free(locked), 0, count);
    lemma_first_index(state.is_clean(locked), 0, count);
    lemma_first_index(AllocState::is_unlocked(locked), 0, count);
}

/// An eviction reuses the register that it evicts. With no register free,
/// an allocation evicts the spill candidate, which is occupied and not
/// locked, records what it held as spilled, and hands out that register.
/// If the register is dirty, just a `Store` from it of what it held is
/// emitted; if it is clean, nothing is emitted. A dirty register is evicted
/// only if no unlocked register is clean.
pub proof fn lemma_eviction_reuses_the_register(state: AllocState, value: Value, locked: Seq<u8>)
    requires
        state.wf(),
        state.free_register(locked) is None,
        state.allocate_register(value, locked).outcome is Ok,
    ensures
        ({
            let done = state.allocate_register(value, locked);
            &&& state.spill_candidate(locked) matches Some(p)
            &&& 0 <= p < state.regs.len()
            &&& state.regs[p] matches Some(held)
            &&& !locked.contains(p as u8)
            &&& done.outcome == Ok::<u8, Fault>(p as u8)
            &&& done.state.regs == state.regs.update(p, Some(value))
            &&& done.state.ram == state.ram.push(held)
            &&& done.state.instrs == if state.dirty[p] {
                state.instrs.push(Instr::Store { dst: held, src: Value::Reg(p as u8) })
            } else {
                state.instrs
            }
            &&& state.dirty[p] ==> forall|r: u8|
                r < state.regs.len() && !#[trigger] locked.contains(r) ==> state.dirty[r as int]
        }),
{
    let count = state.regs.len() as int;
    lemma_first_index(state.is_free(locked), 0, count);
    lemma_first_index(state.is_clean(locked), 0, count);
    lemma_first_index(AllocState::is_unlocked(locked), 0, count);
    let p = state.spill_candidate(locked)->0;
    assert(!state.is_free(locked)(p));
    if state.dirty[p] {
        assert forall|r: u8|
            r < state.regs.len() && !#[trigger] locked.contains(r) implies state.dirty[r as int] by {
            assert(!state.is_clean(locked)(r as int));
        }
    }
}

/// Lock safety of a load: a location that no register holds is brought into
/// a register that is not locked, by a `Load` that is the last instruction
/// emitted; every other register holds what it held, and no dirty flag
/// changes. A location that a register holds is found there, and nothing
/// changes. Either way the register then holds a location with the id of
/// `value`.
pub proof fn lemma_load_keeps_locks(state: AllocState, value: Value, locked: Seq<u8>)
    requires
        state.wf(),
        state.get_or_load(value, locked).outcome is Ok,
    ensures
        ({
            let done = state.get_or_load(value, locked);
            let r = done.outcome->Ok_0;
            &&& r < state.regs.len()
            &&& done.state.wf()
            &&& done.state.regs.len() == state.regs.len()
            &&& done.state.dirty == state.dirty
            &&& done.state.regs[r as int] matches Some(held) && held.location_id()
                == value.location_id()
            &&& match find_resident(state.regs, value, 0) {
                Lookup::Found(at) => at == r && done.state == state,
                _ => !locked.contains(r) && done.state.regs == state.regs.update(
                    r as int,
                    Some(value),
                ) && done.state.instrs.len() > 0 && done.state.instrs.last() == (Instr::Load {
                    dst: Value::Reg(r),
                    src: value,
                }),
            }
        }),
{
    lemma_find_resident(state.regs, value, 0);
    if find_resident(state.regs, value, 0) is Missing {
        lemma_allocation_keeps_locks(state, value, locked);
    }
}

/// Lock safety of an instruction with one source: the destination gets a
/// register of its own, and the source is still in its register when the
/// instruction is emitted.
pub proof fn lemma_unary_operands_keep_apart(state: AllocState, dst: Value, src: Value)
    requires
        state.wf(),
        state.resolve_unary(dst, src).outcome is Ok,
    ensures
        ({
            let done = state.resolve_unary(dst, src);
            let (rd, rs, _) = done.outcome->Ok_0;
            &&& rd != rs
            &&& rd < state.regs.len() && rs < state.regs.len()
            &&& done.state.regs[rd as int] == Some(dst)
            &&& done.state.regs[rs as int] matches Some(held) && held.location_id()
                == src.location_id()
        }),
{
    let s = state.get_or_load(src, Seq::empty());
    let rs = s.outcome->Ok_0;
    lemma_load_keeps_locks(state, src, Seq::empty());
    lemma_allocation_keeps_locks(s.state, dst, seq![rs]);
    assert(seq![rs][0] == rs);
}

/// Lock safety of an instruction with two sources: the destination gets a
/// register of its own, the right operand shares the left operand's
/// register only if it was found there, and both operands are still in
/// their registers when the instruction is emitted.
pub proof fn lemma_binary_operands_keep_apart(
    state: AllocState,
    dst: Value,
    lhs: Value,
    rhs: Value,
)
    requires
        state.wf(),
        state.resolve_binary(dst, lhs, rhs).outcome is Ok,
    ensures
        ({
            let l = state.get_or_load(lhs, Seq::empty());
            let done = state.resolve_binary(dst, lhs, rhs);
            let (rd, rl, rr) = done.outcome->Ok_0;
            &&& rd != rl
            &&& rd != rr
            &&& rr == rl ==> find_resident(l.state.regs, rhs, 0) == Lookup::Found(rl as int)
                && lhs.location_id() == rhs.location_id()
            &&& rd < state.regs.len() && rl < state.regs.len() && rr < state.regs.len()
            &&& done.state.regs[rd as int] == Some(dst)
            &&& done.state.regs[rl as int] matches Some(held) && held.location_id()
                == lhs.location_id()
            &&& done.state.regs[rr as int] matches Some(held) && held.location_id()
                == rhs.location_id()
        }),
{
    let l = state.get_or_load(lhs, Seq::empty());
    let rl = l.outcome->Ok_0;
    let r = l.state.get_or_load(rhs, seq![rl]);
    let rr = r.outcome->Ok_0;
    lemma_load_keeps_locks(state, lhs, Seq::empty());
    lemma_load_keeps_locks(l.state, rhs, seq![rl]);
    lemma_allocation_keeps_locks(r.state, dst, seq![rl, rr]);
    assert(seq![rl, rr][0] == rl && seq![rl, rr][1] == rr);
    assert(seq![rl][0] == rl);
}

/// Whether an instruction writes no operand that it reads: the destination
/// of a `Move`, an `Add`, a `Sub` and an `AddImmediate` differs from each
/// of its sources. Of any other instruction this holds.
pub open spec fn writes_apart(instr: Instr) -> bool {
    match instr {
        Instr::Move { dst, src } => dst != src,
        Instr::AddImmediate { dst, lhs, .. } => dst != lhs,
        Instr::Add { dst, lhs, rhs } => dst != lhs && dst != rhs,
        Instr::Sub { dst, lhs, rhs } => dst != lhs && dst != rhs,
        _ => true,
    }
}

/// Whether every instruction writes no operand that it reads.
pub open spec fn all_write_apart(instrs: Seq<Instr>) -> bool {
    forall|i: int| 0 <= i < instrs.len() ==> writes_apart(#[trigger] instrs[i])
}

/// Whether `allocated`, which came out for `instr`, reads its two sources
/// from different registers if `instr` reads two locations of different
/// ids.
pub open spec fn reads_apart(instr: Instr, allocated: Instr) -> bool {
    match (instr, allocated) {
        (Instr::Add { lhs: a, rhs: b, .. }, Instr::Add { lhs, rhs, .. }) => a.location_id()
            != b.location_id() ==> lhs != rhs,
        (Instr::Sub { lhs: a, rhs: b, .. }, Instr::Sub { lhs, rhs, .. }) => a.location_id()
            != b.location_id() ==> lhs != rhs,
        _ => true,
    }
}

/// Spill code writes no operand that it reads.
proof fn lemma_operand_writes_apart(state: AllocState, value: Value, locked: Seq<u8>)
    requires
        all_write_apart(state.instrs),
    ensures
        all_write_apart(state.allocate_register(value, locked).state.instrs),
        all_write_apart(state.get_or_load(value, locked).state.instrs),
{
    let fresh = state.allocate_register(value, locked).state;
    assert forall|i: int| 0 <= i < fresh.instrs.len() implies writes_apart(
        #[trigger] fresh.instrs[i],
    ) by {
        if i < state.instrs.len() {
            assert(fresh.instrs[i] == state.instrs[i]);
        }
    }
    let held = state.get_or_load(value, locked).state;
    assert forall|i: int| 0 <= i < held.instrs.len() implies writes_apart(
        #[trigger] held.instrs[i],
    ) by {
        if i < fresh.instrs.len() {
            assert(held.instrs[i] == fresh.instrs[i] || held.instrs[i] == state.instrs[i]);
        }
    }
}

/// Resolving the operands of an instruction emits nothing that writes an
/// operand that it reads.
proof fn lemma_resolution_writes_apart(state: AllocState, dst: Value, first: Value, second: Value)
    requires
        all_write_apart(state.instrs),
    ensures
        all_write_apart(state.resolve_unary(dst, first).state.instrs),
        all_write_apart(state.resolve_binary(dst, first, second).state.instrs),
{
    let a = state.get_or_load(first, Seq::empty());
    lemma_operand_writes_apart(state, first, Seq::empty());
    if let Ok(ra) = a.outcome {
        lemma_operand_writes_apart(a.state, dst, seq![ra]);
        let b = a.state.get_or_load(second, seq![ra]);
        lemma_operand_writes_apart(a.state, second, seq![ra]);
        if let Ok(rb) = b.outcome {
            lemma_operand_writes_apart(b.state, dst, seq![ra, rb]);
        }
    }
}

/// One more instruction that writes no operand that it reads.
proof fn lemma_push_writes_apart(instrs: Seq<Instr>, instr: Instr)
    requires
        all_write_apart(instrs),
        writes_apart(instr),
    ensures
        all_write_apart(instrs.push(instr)),
{
    assert forall|i: int| 0 <= i < instrs.push(instr).len() implies writes_apart(
        #[trigger] instrs.push(instr)[i],
    ) by {
        if i < instrs.len() {
            assert(instrs.push(instr)[i] == instrs[i]);
        }
    }
}

/// Lock safety of an instruction: what comes out for it writes no register
/// that it reads, and neither does the spill code in front of it. If the
/// instruction reads two locations of different ids, what comes out reads
/// them from different registers.
pub proof fn lemma_step_keeps_operands_apart(state: AllocState, instr: Instr)
    requires
        state.wf(),
        all_write_apart(state.instrs),
    ensures
        all_write_apart(state.step(instr).state.instrs),
        state.step(instr).fault is None ==> state.step(instr).state.instrs.len() > 0 && reads_apart(
            instr,
            state.step(instr).state.instrs.last(),
        ),
{
    match instr {
        Instr::Move { dst, src } => {
            let done = state.resolve_unary(dst, src);
            lemma_resolution_writes_apart(state, dst, src, src);
            if let Ok((rd, rs, _)) = done.outcome {
                lemma_unary_operands_keep_apart(state, dst, src);
                lemma_push_writes_apart(
                    done.state.instrs,
                    Instr::Move { dst: Value::Reg(rd), src: Value::Reg(rs) },
                );
            }
        },
        Instr::AddImmediate { dst, lhs, imm } => {
            let done = state.resolve_unary(dst, lhs);
            lemma_resolution_writes_apart(state, dst, lhs, lhs);
            if let Ok((rd, rs, _)) = done.outcome {
                lemma_unary_operands_keep_apart(state, dst, lhs);
                lemma_push_writes_apart(
                    done.state.instrs,
                    Instr::AddImmediate { dst: Value::Reg(rd), lhs: Value::Reg(rs), imm: imm },
                );
            }
        },
        Instr::Add { dst, lhs, rhs } => {
            let done = state.resolve_binary(dst, lhs, rhs);
            lemma_resolution_writes_apart(state, dst, lhs, rhs);
            if let Ok((rd, rl, rr)) = done.outcome {
                lemma_binary_operands_keep_apart(state, dst, lhs, rhs);
                lemma_push_writes_apart(
                    done.state.instrs,
                    Instr::Add { dst: Value::Reg(rd), lhs: Value::Reg(rl), rhs: Value::Reg(rr) },
                );
            }
        },
        Instr::Sub { dst, lhs, rhs } => {
            let done = state.resolve_binary(dst, lhs, rhs);
            lemma_resolution_writes_apart(state, dst, lhs, rhs);
            if let Ok((rd, rl, rr)) = done.outcome {
                lemma_binary_operands_keep_apart(state, dst, lhs, rhs);
                lemma_push_writes_apart(
                    done.state.instrs,
                    Instr::Sub { dst: Value::Reg(rd), lhs: Value::Reg(rl), rhs: Value::Reg(rr) },
                );
            }
        },
        Instr::Immediate { dst, value } => {
            let done = state.allocate_register(dst, Seq::empty());
            lemma_operand_writes_apart(state, dst, Seq::empty());
            if let Ok(rd) = done.outcome {
                lemma_push_writes_apart(
                    done.state.instrs,
                    Instr::Immediate { dst: Value::Reg(rd), value: value },
                );
            }
        },
        _ => {
            lemma_push_writes_apart(state.instrs, instr);
        },
    }
}

/// Lock safety of a run: among all that allocation emits, no instruction
/// writes a register that it reads. This holds of what was emitted up to a
/// fault as well.
pub proof fn lemma_run_keeps_operands_apart(state: AllocState, instrs: Seq<Instr>, count: nat)
    requires
        state.wf(),
        count <= instrs.len(),
        all_write_apart(state.instrs),
    ensures
        state.run(instrs, count).state.wf(),
        all_write_apart(state.run(instrs, count).state.instrs),
    decreases count,
{
    if count > 0 {
        let before = state.run(instrs, (count - 1) as nat);
        lemma_run_keeps_operands_apart(state, instrs, (count - 1) as nat);
        if before.fault is None {
            lemma_step_emits(before.state, instrs[count - 1]);
            lemma_step_keeps_operands_apart(before.state, instrs[count - 1]);
        }
    }
}

/// What `find_resident` finds is an index of a register.
pub proof fn lemma_find_resident(regs: Seq<Option<Value>>, value: Value, from: int)
    requires
        0 <= from,
    ensures
        find_resident(regs, value, from) matches Lookup::Found(r) ==> from <= r < regs.len()
            && regs[r] is Some && regs[r]->0.location_id() == value.location_id(),
    decreases regs.len() - from,
{
    if from < regs.len() {
        lemma_find_resident(regs, value, from + 1);
    }
}

/// Whether `instr` takes part in register allocation: its locations are
/// replaced by registers. Every other instruction is left as it stands.
pub open spec fn is_allocated(instr: Instr) -> bool {
    instr is Move || instr is Immediate || instr is Add || instr is Sub || instr is AddImmediate
}

/// Whether `allocated` is `instr` with registers of a file of `count`
/// registers in the place of its locations. The literal of an immediate
/// and of an add-immediate stays.
pub open spec fn is_in_registers(instr: Instr, allocated: Instr, count: nat) -> bool {
    match (instr, allocated) {
        (Instr::Move { .. }, Instr::Move { dst: Value::Reg(d), src: Value::Reg(s) }) => d < count
            && s < count,
        (
            Instr::Immediate { value, .. },
            Instr::Immediate { dst: Value::Reg(d), value: kept },
        ) => d < count && kept == value,
        (
            Instr::Add { .. },
            Instr::Add { dst: Value::Reg(d), lhs: Value::Reg(l), rhs: Value::Reg(r) },
        ) => d < count && l < count && r < count,
        (
            Instr::Sub { .. },
            Instr::Sub { dst: Value::Reg(d), lhs: Value::Reg(l), rhs: Value::Reg(r) },
        ) => d < count && l < count && r < count,
        (
            Instr::AddImmediate { imm, .. },
            Instr::AddImmediate { dst: Value::Reg(d), lhs: Value::Reg(l), imm: kept },
        ) => d < count && l < count && kept == imm,
        _ => false,
    }
}

/// An instruction that takes part in register allocation comes out, as the
/// last of what processing it emits, with registers in the place of its
/// locations; any other instruction comes out as it went in. The state
/// stays well formed.
pub proof fn lemma_step_emits(state: AllocState, instr: Instr)
    requires
        state.wf(),
    ensures
        state.step(instr).state.wf(),
        state.step(instr).fault is None ==> state.step(instr).state.instrs.len() > 0 && if is_allocated(
            instr,
        ) {
            is_in_registers(instr, state.step(instr).state.instrs.last(), state.regs.len())
        } else {
            state.step(instr).state.instrs.last() == instr
        },
{
    match instr {
        Instr::Move { dst, src } => lemma_resolution_in_file(state, dst, src, src),
        Instr::AddImmediate { dst, lhs, .. } => lemma_resolution_in_file(state, dst, lhs, lhs),
        Instr::Add { dst, lhs, rhs } => lemma_resolution_in_file(state, dst, lhs, rhs),
        Instr::Sub { dst, lhs, rhs } => lemma_resolution_in_file(state, dst, lhs, rhs),
        Instr::Immediate { dst, .. } => lemma_operand_in_file(state, dst, Seq::empty()),
        _ => {},
    }
}

/// Resolving the operands of an instruction keeps the state well formed
/// and the number of registers, and yields registers of the register file.
proof fn lemma_resolution_in_file(state: AllocState, dst: Value, first: Value, second: Value)
    requires
        state.wf(),
    ensures
        state.resolve_unary(dst, first).state.wf(),
        state.resolve_unary(dst, first).state.regs.len() == state.regs.len(),
        state.resolve_unary(dst, first).outcome matches Ok((rd, ra, rb)) ==> rd < state.regs.len()
            && ra < state.regs.len() && rb < state.regs.len(),
        state.resolve_binary(dst, first, second).state.wf(),
        state.resolve_binary(dst, first, second).state.regs.len() == state.regs.len(),
        state.resolve_binary(dst, first, second).outcome matches Ok((rd, ra, rb)) ==> rd
            < state.regs.len() && ra < state.regs.len() && rb < state.regs.len(),
{
    lemma_operand_in_file(state, first, Seq::empty());
    let l = state.get_or_load(first, Seq::empty());
    if let Ok(ra) = l.outcome {
        lemma_operand_in_file(l.state, dst, seq![ra]);
        lemma_operand_in_file(l.state, second, seq![ra]);
        let r = l.state.get_or_load(second, seq![ra]);
        if let Ok(rb) = r.outcome {
            lemma_operand_in_file(r.state, dst, seq![ra, rb]);
        }
    }
}

/// Resolving an operand keeps the state well formed and the number of
/// registers, and yields a register of the register file.
proof fn lemma_operand_in_file(state: AllocState, value: Value, locked: Seq<u8>)
    requires
        state.wf(),
    ensures
        state.allocate_register(value, locked).state.wf(),
        state.allocate_register(value, locked).state.regs.len() == state.regs.len(),
        state.allocate_register(value, locked).outcome matches Ok(r) ==> r < state.regs.len(),
        state.get_or_load(value, locked).state.wf(),
        state.get_or_load(value, locked).state.regs.len() == state.regs.len(),
        state.get_or_load(value, locked).outcome matches Ok(r) ==> r < state.regs.len(),
{
    let count = state.regs.len() as int;
    lemma_first_index(state.is_free(locked), 0, count);
    lemma_first_index(state.is_clean(locked), 0, count);
    lemma_first_index(AllocState::is_unlocked(locked), 0, count);
    lemma_find_resident(state.regs, value, 0);
}

/// Whether `after` has emitted what `before` has, and behind it only
/// instructions that do not shape the control flow.
pub open spec fn adds_no_control(before: AllocState, after: AllocState) -> bool {
    &&& before.instrs.len() <= after.instrs.len()
    &&& after.instrs.take(before.instrs.len() as int) == before.instrs
    &&& control_flow(after.instrs) == control_flow(before.instrs)
}

/// Resolving an operand emits spill code at most: stores and loads.
pub proof fn lemma_operand_adds_no_control(state: AllocState, value: Value, locked: Seq<u8>)
    ensures
        adds_no_control(state, state.allocate_register(value, locked).state),
        adds_no_control(state, state.get_or_load(value, locked).state),
{
    let fresh = state.allocate_register(value, locked);
    assert(state.instrs.take(state.instrs.len() as int) =~= state.instrs);
    if fresh.state.instrs != state.instrs {
        let store = fresh.state.instrs.last();
        assert(fresh.state.instrs == state.instrs.push(store));
        lemma_control_flow_push(state.instrs, store);
        assert(fresh.state.instrs.take(state.instrs.len() as int) =~= state.instrs);
    }
    let held = state.get_or_load(value, locked);
    if held.state.instrs != fresh.state.instrs && held.state.instrs != state.instrs {
        let load = held.state.instrs.last();
        assert(held.state.instrs == fresh.state.instrs.push(load));
        lemma_control_flow_push(fresh.state.instrs, load);
        assert(held.state.instrs.take(state.instrs.len() as int) =~= state.instrs);
    }
}

/// Emitting only what does not shape the control flow, twice in a row, is
/// emitting only that.
proof fn lemma_adds_no_control_chain(first: AllocState, second: AllocState, third: AllocState)
    requires
        adds_no_control(first, second),
        adds_no_control(second, third),
    ensures
        adds_no_control(first, third),
{
    assert(third.instrs.take(first.instrs.len() as int) =~= third.instrs.take(
        second.instrs.len() as int,
    ).take(first.instrs.len() as int));
}

/// Resolving the operands of an instruction emits spill code at most.
pub proof fn lemma_resolution_adds_no_control(
    state: AllocState,
    dst: Value,
    first: Value,
    second: Value,
)
    ensures
        adds_no_control(state, state.resolve_unary(dst, first).state),
        adds_no_control(state, state.resolve_binary(dst, first, second).state),
{
    let a = state.get_or_load(first, Seq::empty());
    lemma_operand_adds_no_control(state, first, Seq::empty());
    if let Ok(ra) = a.outcome {
        let d = a.state.allocate_register(dst, seq![ra]);
        lemma_operand_adds_no_control(a.state, dst, seq![ra]);
        lemma_adds_no_control_chain(state, a.state, d.state);
        let b = a.state.get_or_load(second, seq![ra]);
        lemma_operand_adds_no_control(a.state, second, seq![ra]);
        lemma_adds_no_control_chain(state, a.state, b.state);
        if let Ok(rb) = b.outcome {
            let e = b.state.allocate_register(dst, seq![ra, rb]);
            lemma_operand_adds_no_control(b.state, dst, seq![ra, rb]);
            lemma_adds_no_control_chain(state, b.state, e.state);
        }
    }
}

/// Emitting, behind what does not shape the control flow, nothing or one
/// more instruction that does not shape it either, is emitting only that.
proof fn lemma_finished_adds_no_control(origin: AllocState, resolved: AllocState, after: AllocState)
    requires
        adds_no_control(origin, resolved),
        after.instrs == resolved.instrs || (after.instrs.len() > 0 && after.instrs
            == resolved.instrs.push(after.instrs.last()) && !is_control(after.instrs.last())),
    ensures
        adds_no_control(origin, after),
{
    if after.instrs != resolved.instrs {
        lemma_control_flow_push(resolved.instrs, after.instrs.last());
        assert(after.instrs.take(origin.instrs.len() as int) =~= resolved.instrs.take(
            origin.instrs.len() as int,
        ));
    }
}

/// Processing an instruction keeps what was emitted, and adds to its
/// control flow just the instruction itself if it shapes the control flow.
/// A fault adds nothing to it.
pub proof fn lemma_step_keeps_control_flow(state: AllocState, instr: Instr)
    ensures
        state.instrs.len() <= state.step(instr).state.instrs.len(),
        state.step(instr).state.instrs.take(state.instrs.len() as int) == state.instrs,
        control_flow(state.step(instr).state.instrs) == if is_control(instr) && state.step(
            instr,
        ).fault is None {
            control_flow(state.instrs).push(instr)
        } else {
            control_flow(state.instrs)
        },
{
    let after = state.step(instr).state;
    match instr {
        Instr::Move { dst, src } | Instr::AddImmediate { dst, lhs: src, .. } => {
            lemma_resolution_adds_no_control(state, dst, src, src);
            lemma_finished_adds_no_control(state, state.resolve_unary(dst, src).state, after);
        },
        Instr::Add { dst, lhs, rhs } | Instr::Sub { dst, lhs, rhs } => {
            lemma_resolution_adds_no_control(state, dst, lhs, rhs);
            lemma_finished_adds_no_control(state, state.resolve_binary(dst, lhs, rhs).state, after);
        },
        Instr::Immediate { dst, .. } => {
            lemma_operand_adds_no_control(state, dst, Seq::empty());
            lemma_finished_adds_no_control(
                state,
                state.allocate_register(dst, Seq::empty()).state,
                after,
            );
        },
        _ => {
            lemma_control_flow_push(state.instrs, instr);
            assert(after.instrs.take(state.instrs.len() as int) =~= state.instrs);
        },
    }
}

/// Allocation keeps the control flow in order: labels and jumps come out
/// as they went in, one after the other, with spill code and rewritten
/// instructions between them at most. What was emitted before stays in
/// front.
pub proof fn lemma_run_keeps_control_flow(state: AllocState, instrs: Seq<Instr>, count: nat)
    requires
        count <= instrs.len(),
        state.run(instrs, count).fault is None,
    ensures
        state.instrs.len() <= state.run(instrs, count).state.instrs.len(),
        state.run(instrs, count).state.instrs.take(state.instrs.len() as int) == state.instrs,
        control_flow(state.run(instrs, count).state.instrs) == control_flow(state.instrs)
            + control_flow(instrs.take(count as int)),
    decreases count,
{
    if count == 0 {
        assert(instrs.take(0) =~= Seq::<Instr>::empty());
        lemma_control_flow_empty();
        assert(control_flow(state.instrs) + Seq::<Instr>::empty() =~= control_flow(state.instrs));
        assert(state.instrs.take(state.instrs.len() as int) =~= state.instrs);
    } else {
        let before = state.run(instrs, (count - 1) as nat);
        lemma_run_keeps_control_flow(state, instrs, (count - 1) as nat);
        let instr = instrs[count - 1];
        lemma_step_keeps_control_flow(before.state, instr);
        let after = before.state.step(instr).state;
        assert(instrs.take(count as int) =~= instrs.take(count - 1).push(instr));
        lemma_control_flow_push(instrs.take(count - 1), instr);
        assert(after.instrs.take(state.instrs.len() as int) =~= after.instrs.take(
            before.state.instrs.len() as int,
        ).take(state.instrs.len() as int));
        if is_control(instr) {
            assert(control_flow(state.instrs) + control_flow(instrs.take(count - 1)).push(instr)
                =~= (control_flow(state.instrs) + control_flow(instrs.take(count - 1))).push(
                instr,
            ));
        }
    }
}

} // verus!
