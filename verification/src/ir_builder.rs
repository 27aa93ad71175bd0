//! Lowering of a resolved statement sequence to a flat instruction sequence.
//!
//! Expressions are lowered operand by operand, left before right. A value
//! that needs no instruction (a literal, a variable) is used as it stands;
//! the result of an operation goes to the target that the statement gives,
//! or to a fresh temporary. Control flow becomes labels and jumps.

use vstd::prelude::*;
use crate::ast::{Expr, Stmt, StmtNode};
use crate::errors::Fault;
use crate::instructions::{
    lemma_push_within, lemma_widen_within, mentions_temp, operands_within, temps_within,
    value_within, Instr, Label, Value,
};
use crate::symbols::{lemma_table_max_id, SymbolTable, TableView};
use crate::token::TokenType;

verus! {

/// What the builder keeps track of, as plain mathematical data.
pub struct BuildState {
    /// The instructions emitted so far.
    pub instrs: Seq<Instr>,
    /// The id that the next fresh temporary gets.
    pub next_temp: nat,
    /// The id that the next fresh label gets.
    pub next_label: nat,
}

/// The outcome of a step of the lowering: the state afterwards, and what
/// the step yields or the fault that stopped it. After a fault the state is
/// the one in which the lowering stopped.
pub struct Step<T> {
    pub state: BuildState,
    pub outcome: Result<T, Fault>,
}

/// The instruction that computes `lhs operator rhs` into `dst`.
pub open spec fn binary_instr(operator: TokenType, dst: Value, lhs: Value, rhs: Value) -> Option<
    Instr,
> {
    match operator {
        TokenType::PLUS => Some(Instr::Add { dst: dst, lhs: lhs, rhs: rhs }),
        TokenType::MINUS => Some(Instr::Sub { dst: dst, lhs: lhs, rhs: rhs }),
        TokenType::GT => Some(Instr::CmpGt { dst: dst, lhs: lhs, rhs: rhs }),
        _ => None,
    }
}

/// The instruction that computes `operator operand` into `dst`. Negation is
/// a subtraction from zero.
pub open spec fn unary_instr(operator: TokenType, dst: Value, operand: Value) -> Option<Instr> {
    match operator {
        TokenType::MINUS => Some(Instr::Sub { dst: dst, lhs: Value::Const(0), rhs: operand }),
        _ => None,
    }
}

impl BuildState {
    /// The state of a builder for `table` that has emitted nothing: its
    /// temporaries start one above the greatest id of a symbol of the
    /// table, and at 1 where the table is empty; its labels start at 0.
    pub open spec fn initial(table: TableView) -> BuildState {
        BuildState {
            instrs: Seq::empty(),
            next_temp: table.max_id(table.scopes.len()) + 1,
            next_label: 0,
        }
    }

    /// The state after `instr` was emitted.
    pub open spec fn emit(self, instr: Instr) -> BuildState {
        BuildState { instrs: self.instrs.push(instr), ..self }
    }

    /// A step that stops with `fault`.
    pub open spec fn fail<T>(self, fault: Fault) -> Step<T> {
        Step { state: self, outcome: Err(fault) }
    }

    /// Takes the next temporary, if an id that fits in 32 bits is left.
    pub open spec fn fresh_temp(self) -> Step<Value> {
        if self.next_temp > u32::MAX {
            self.fail(Fault::IdExhausted)
        } else {
            Step {
                state: BuildState { next_temp: self.next_temp + 1, ..self },
                outcome: Ok(Value::Temp(self.next_temp as u32)),
            }
        }
    }

    /// Takes the next label, if an id that fits in 32 bits is left.
    pub open spec fn fresh_label(self) -> Step<Label> {
        if self.next_label > u32::MAX {
            self.fail(Fault::IdExhausted)
        } else {
            Step {
                state: BuildState { next_label: self.next_label + 1, ..self },
                outcome: Ok(Label(self.next_label as u32)),
            }
        }
    }

    /// Where the result of an operation goes: to `target`, or to a fresh
    /// temporary where there is none.
    pub open spec fn destination(self, target: Option<Value>) -> Step<Value> {
        match target {
            Some(t) => Step { state: self, outcome: Ok(t) },
            None => self.fresh_temp(),
        }
    }

    /// Hands on a value that takes no computation: it is moved to `target`
    /// where there is one, and used as it stands where there is none.
    pub open spec fn place(self, value: Value, target: Option<Value>) -> Step<Value> {
        match target {
            Some(t) => Step { state: self.emit(Instr::Move { dst: t, src: value }), outcome: Ok(t) },
            None => Step { state: self, outcome: Ok(value) },
        }
    }

    /// Emits the instruction of an operation, or stops with `fault` where
    /// the operator has none.
    pub open spec fn operate(self, instr: Option<Instr>, dst: Value, fault: Fault) -> Step<Value> {
        match instr {
            Some(instr) => Step { state: self.emit(instr), outcome: Ok(dst) },
            None => self.fail(fault),
        }
    }
}

/// Lowers an expression and yields the value that holds its result.
///
/// - A number is a literal.
/// - A resolved variable is the location of the symbol that it is bound to.
/// - A binary operation lowers its left operand, then its right operand,
///   and emits `Add` for `+`, `Sub` for `-` and `CmpGt` for `>`.
/// - A negation lowers its operand and subtracts it from zero.
///
/// Any other operator is a fault, as is a variable that was not resolved.
pub open spec fn lower_expr(expr: Expr,
    target: Option<Value>,
    state: BuildState,
) -> Step<Value>
    decreases expr,
{
    match expr {
        Expr::Number(n) => state.place(Value::Const(n), target),
        Expr::Variable(_) => state.fail(Fault::UnresolvedSymbol),
        Expr::Resolved { id, .. } => state.place(Value::Var(id), target),
        Expr::Binary { left, operator, right } => {
            let l = lower_expr(left.node, None, state);
            match l.outcome {
                Err(_) => l,
                Ok(lhs) => {
                    let r = lower_expr(right.node, None, l.state);
                    match r.outcome {
                        Err(_) => r,
                        Ok(rhs) => {
                            let d = r.state.destination(target);
                            match d.outcome {
                                Err(_) => d,
                                Ok(dst) => d.state.operate(
                                    binary_instr(operator, dst, lhs, rhs),
                                    dst,
                                    Fault::UnsupportedOperator,
                                ),
                            }
                        },
                    }
                },
            }
        },
        Expr::Unary { operator, operand } => {
            let o = lower_expr(operand.node, None, state);
            match o.outcome {
                Err(_) => o,
                Ok(value) => {
                    let d = o.state.destination(target);
                    match d.outcome {
                        Err(_) => d,
                        Ok(dst) => d.state.operate(
                            unary_instr(operator, dst, value),
                            dst,
                            Fault::UnsupportedUnary,
                        ),
                    }
                },
            }
        },
    }
}

/// Lowers a declaration or an assignment: the value is lowered with the
/// variable that `target` is bound to as its target. A target that is no
/// bare variable is a fault, as is one that was not resolved.
pub open spec fn lower_store(target: Expr, value: Expr, state: BuildState) -> Step<
    (),
> {
    match target {
        Expr::Resolved { id, .. } => {
            let v = lower_expr(value, Some(Value::Var(id)), state);
            match v.outcome {
                Err(fault) => v.state.fail(fault),
                Ok(_) => Step { state: v.state, outcome: Ok(()) },
            }
        },
        Expr::Variable(_) => state.fail(Fault::UnresolvedSymbol),
        _ => state.fail(Fault::InvalidTarget),
    }
}

/// Lowers a statement.
///
/// - A declaration and an assignment are lowered alike; see [`lower_store`].
/// - A loop takes two fresh labels, `start` and `end`, and becomes
///   `Label(start)`, the condition, `JumpIfFalse(condition, end)`, the
///   body, `Jump(start)`, `Label(end)`.
/// - A conditional has no lowering and is a fault.
pub open spec fn lower_stmt(stmt: Stmt, state: BuildState) -> Step<()>
    decreases stmt, 0nat,
{
    match stmt {
        Stmt::Assign { target, value } => lower_store(target.node, value.node, state),
        Stmt::Declare { target, value } => lower_store(target.node, value.node, state),
        Stmt::While { condition, body } => {
            let s = state.fresh_label();
            match s.outcome {
                Err(fault) => s.state.fail(fault),
                Ok(start) => {
                    let e = s.state.fresh_label();
                    match e.outcome {
                        Err(fault) => e.state.fail(fault),
                        Ok(end) => {
                            let c = lower_expr(condition.node,
                                None,
                                e.state.emit(Instr::Label(start)),
                            );
                            match c.outcome {
                                Err(fault) => c.state.fail(fault),
                                Ok(cond) => {
                                    let b = lower_block(body@,
                                        body@.len(),
                                        c.state.emit(
                                            Instr::JumpIfFalse { cond: cond, target: end },
                                        ),
                                    );
                                    match b.outcome {
                                        Err(_) => b,
                                        Ok(_) => Step {
                                            state: b.state.emit(Instr::Jump(start)).emit(
                                                Instr::Label(end),
                                            ),
                                            outcome: Ok(()),
                                        },
                                    }
                                },
                            }
                        },
                    }
                },
            }
        },
        Stmt::If { .. } => state.fail(Fault::UnsupportedStatement),
    }
}

/// Lowers the first `count` statements of `stmts` in order, and stops at
/// the first fault.
pub open spec fn lower_block(stmts: Seq<StmtNode>,
    count: nat,
    state: BuildState,
) -> Step<()>
    decreases stmts, count,
{
    if count == 0 || count > stmts.len() {
        Step { state: state, outcome: Ok(()) }
    } else {
        let before = lower_block(stmts, (count - 1) as nat, state);
        match before.outcome {
            Err(_) => before,
            Ok(_) => lower_stmt(stmts[count - 1].node, before.state),
        }
    }
}

/// The builder of an instruction sequence.
pub struct IrBuilder {
    instrs: Vec<Instr>,
    next_temp: u64,
    next_label: u64,
}

impl View for IrBuilder {
    type V = BuildState;

    closed spec fn view(&self) -> BuildState {
        BuildState {
            instrs: self.instrs@,
            next_temp: self.next_temp as nat,
            next_label: self.next_label as nat,
        }
    }
}

impl IrBuilder {
    /// A builder that has emitted nothing. Its temporaries start one above
    /// the greatest id of a symbol of `symbols`, and at 1 where the table is
    /// empty; its labels start at 0.
    pub fn new(symbols: &SymbolTable) -> (builder: Self)
        ensures
            builder@ == BuildState::initial(symbols@),
    {
        let mut bound: u32 = 0;
        let mut i: usize = 0;
        while i < symbols.scopes.len()
            invariant
                i <= symbols.scopes@.len(),
                bound == symbols@.max_id(i as nat),
            decreases symbols.scopes@.len() - i,
        {
            let scope = &symbols.scopes[i];
            let ghost start = bound;
            let mut j: usize = 0;
            while j < scope.symbols.len()
                invariant
                    j <= scope.symbols@.len(),
                    bound == scope@.max_id(start as nat, j as nat),
                decreases scope.symbols@.len() - j,
            {
                if scope.symbols[j].id > bound {
                    bound = scope.symbols[j].id;
                }
                j += 1;
            }
            i += 1;
        }
        IrBuilder { instrs: Vec::new(), next_temp: bound as u64 + 1, next_label: 0 }
    }

    /// Appends an instruction to the output.
    fn emit(&mut self, instr: Instr)
        ensures
            final(self)@ == old(self)@.emit(instr),
    {
        self.instrs.push(instr);
    }

    /// A temporary that was not handed out before.
    fn new_temp(&mut self) -> (temp: Result<Value, Fault>)
        ensures
            final(self)@ == old(self)@.fresh_temp().state,
            temp == old(self)@.fresh_temp().outcome,
    {
        if self.next_temp > u32::MAX as u64 {
            return Err(Fault::IdExhausted);
        }
        let temp = Value::Temp(self.next_temp as u32);
        self.next_temp += 1;
        Ok(temp)
    }

    /// A label that was not handed out before.
    fn new_label(&mut self) -> (label: Result<Label, Fault>)
        ensures
            final(self)@ == old(self)@.fresh_label().state,
            label == old(self)@.fresh_label().outcome,
    {
        if self.next_label > u32::MAX as u64 {
            return Err(Fault::IdExhausted);
        }
        let label = Label(self.next_label as u32);
        self.next_label += 1;
        Ok(label)
    }

    /// The destination of an operation.
    fn destination(&mut self, target: Option<Value>) -> (dst: Result<Value, Fault>)
        ensures
            final(self)@ == old(self)@.destination(target).state,
            dst == old(self)@.destination(target).outcome,
    {
        match target {
            Some(t) => Ok(t),
            None => self.new_temp(),
        }
    }

    /// Hands on a value that takes no computation.
    fn place(&mut self, value: Value, target: Option<Value>) -> (placed: Value)
        ensures
            final(self)@ == old(self)@.place(value, target).state,
            Ok::<Value, Fault>(placed) == old(self)@.place(value, target).outcome,
    {
        if let Some(t) = target {
            self.emit(Instr::Move { dst: t, src: value });
            t
        } else {
            value
        }
    }

    /// Lowers an expression; see [`lower_expr`].
    pub fn lower_expr(&mut self, expr: &Expr, target: Option<Value>) -> (value: Result<
        Value,
        Fault,
    >)
        ensures
            final(self)@ == lower_expr(*expr, target, old(self)@).state,
            value == lower_expr(*expr, target, old(self)@).outcome,
        decreases expr,
    {
        match expr {
            Expr::Number(n) => Ok(self.place(Value::Const(*n), target)),
            Expr::Variable(_) => Err(Fault::UnresolvedSymbol),
            Expr::Resolved { id, .. } => Ok(self.place(Value::Var(*id), target)),
            Expr::Binary { left, right, operator } => {
                let lhs = self.lower_expr(&left.node, None)?;
                let rhs = self.lower_expr(&right.node, None)?;
                let dst = self.destination(target)?;
                let instr = match operator {
                    TokenType::PLUS => Instr::Add { dst, lhs, rhs },
                    TokenType::MINUS => Instr::Sub { dst, lhs, rhs },
                    TokenType::GT => Instr::CmpGt { dst, lhs, rhs },
                    _ => {
                        return Err(Fault::UnsupportedOperator);
                    },
                };
                self.emit(instr);
                Ok(dst)
            },
            Expr::Unary { operand, operator } => {
                let val = self.lower_expr(&operand.node, None)?;
                let dst = self.destination(target)?;
                match operator {
                    TokenType::MINUS => {
                        self.emit(Instr::Sub { dst, lhs: Value::Const(0), rhs: val });
                    },
                    _ => {
                        return Err(Fault::UnsupportedUnary);
                    },
                }
                Ok(dst)
            },
        }
    }

    /// Lowers a declaration or an assignment; see [`lower_store`].
    fn lower_store(&mut self, target: &Expr, value: &Expr) -> (done: Result<(), Fault>)
        ensures
            final(self)@ == lower_store(*target, *value, old(self)@).state,
            done == lower_store(*target, *value, old(self)@).outcome,
    {
        match target {
            Expr::Resolved { id, .. } => {
                self.lower_expr(value, Some(Value::Var(*id)))?;
                Ok(())
            },
            Expr::Variable(_) => Err(Fault::UnresolvedSymbol),
            _ => Err(Fault::InvalidTarget),
        }
    }

    /// Lowers a statement; see [`lower_stmt`].
    pub fn lower_stmt(&mut self, stmt: &Stmt) -> (done: Result<(), Fault>)
        ensures
            final(self)@ == lower_stmt(*stmt, old(self)@).state,
            done == lower_stmt(*stmt, old(self)@).outcome,
        decreases stmt, 0nat,
    {
        match stmt {
            Stmt::Assign { target, value } => self.lower_store(&target.node, &value.node),
            Stmt::Declare { target, value } => self.lower_store(&target.node, &value.node),
            Stmt::While { condition, body } => {
                let start = self.new_label()?;
                let end = self.new_label()?;
                self.emit(Instr::Label(start));
                let cond = self.lower_expr(&condition.node, None)?;
                self.emit(Instr::JumpIfFalse { cond, target: end });
                self.lower_block(body)?;
                self.emit(Instr::Jump(start));
                self.emit(Instr::Label(end));
                Ok(())
            },
            Stmt::If { .. } => Err(Fault::UnsupportedStatement),
        }
    }

    /// Lowers statements in order; see [`lower_block`].
    fn lower_block(&mut self, stmts: &Vec<StmtNode>) -> (done: Result<(), Fault>)
        ensures
            final(self)@ == lower_block(stmts@, stmts@.len(), old(self)@).state,
            done == lower_block(stmts@, stmts@.len(), old(self)@).outcome,
        decreases stmts, 1nat,
    {
        let mut i: usize = 0;
        while i < stmts.len()
            invariant
                i <= stmts@.len(),
                lower_block(stmts@, i as nat, old(self)@) == (Step {
                    state: self@,
                    outcome: Ok::<(), Fault>(()),
                }),
            decreases stmts@.len() - i,
        {
            match self.lower_stmt(&stmts[i].node) {
                Ok(_) => {},
                Err(fault) => {
                    proof {
                        lemma_block_stops(stmts@,
                            (i + 1) as nat,
                            stmts@.len(),
                            old(self)@,
                        );
                    }
                    return Err(fault);
                },
            }
            i += 1;
        }
        Ok(())
    }

    /// Lowers `stmts` in order and returns everything emitted so far: the
    /// instructions of earlier calls, then those of `stmts`.
    ///
    /// The lowering stops at the first fault, which is then returned.
    pub fn build(&mut self, stmts: &Vec<StmtNode>) -> (built: Result<&Vec<Instr>, Fault>)
        ensures
            final(self)@ == lower_block(stmts@, stmts@.len(), old(self)@).state,
            match built {
                Ok(instrs) => lower_block(stmts@,
                    stmts@.len(),
                    old(self)@,
                ).outcome is Ok && instrs@ == final(self)@.instrs,
                Err(fault) => lower_block(stmts@,
                    stmts@.len(),
                    old(self)@,
                ).outcome == Err::<(), Fault>(fault),
            },
    {
        match self.lower_block(stmts) {
            Ok(_) => Ok(&self.instrs),
            Err(fault) => Err(fault),
        }
    }
}

/// Once the lowering of a block has met a fault, it stays where it stopped.
pub proof fn lemma_block_stops(stmts: Seq<StmtNode>,
    count: nat,
    more: nat,
    state: BuildState,
)
    requires
        count <= more <= stmts.len(),
        lower_block(stmts, count, state).outcome is Err,
    ensures
        lower_block(stmts, more, state) == lower_block(stmts, count, state),
    decreases more,
{
    if count < more {
        lemma_block_stops(stmts, count, (more - 1) as nat, state);
    }
}

/// Whether a step went from `before` to `after` by handing out temporaries
/// and emitting instructions that name, of all temporaries, only those
/// handed out since `lo`.
pub open spec fn advances(before: BuildState, after: BuildState, lo: nat) -> bool {
    &&& before.next_temp <= after.next_temp
    &&& before.next_label <= after.next_label
    &&& before.instrs.len() <= after.instrs.len()
    &&& after.instrs.take(before.instrs.len() as int) == before.instrs
    &&& temps_within(after.instrs, lo, after.next_temp)
}

/// Emitting an instruction whose temporaries were handed out advances the
/// state.
proof fn lemma_emit_advances(state: BuildState, instr: Instr, lo: nat, origin: BuildState)
    requires
        advances(origin, state, lo),
        operands_within(instr, lo, state.next_temp),
    ensures
        advances(origin, state.emit(instr), lo),
{
    lemma_push_within(state.instrs, instr, lo, state.next_temp);
    assert(state.emit(instr).instrs.take(origin.instrs.len() as int) =~= state.instrs.take(
        origin.instrs.len() as int,
    ));
}

/// Taking a fresh temporary advances the state, and the temporary is one
/// that was handed out.
proof fn lemma_destination_advances(
    state: BuildState,
    target: Option<Value>,
    lo: nat,
    origin: BuildState,
)
    requires
        advances(origin, state, lo),
        lo <= state.next_temp,
        target matches Some(t) ==> value_within(t, lo, state.next_temp),
    ensures
        advances(origin, state.destination(target).state, lo),
        state.destination(target).outcome matches Ok(dst) ==> value_within(
            dst,
            lo,
            state.destination(target).state.next_temp,
        ),
{
    lemma_widen_within(state.instrs, lo, state.next_temp, state.next_temp + 1);
}

/// Lowering an expression advances the state, and the value it yields is no
/// temporary other than one handed out since `lo`.
pub proof fn lemma_lower_expr_advances(expr: Expr,
    target: Option<Value>,
    state: BuildState,
    lo: nat,
)
    requires
        lo <= state.next_temp,
        temps_within(state.instrs, lo, state.next_temp),
        target matches Some(t) ==> value_within(t, lo, state.next_temp),
    ensures
        advances(state, lower_expr(expr, target, state).state, lo),
        lower_expr(expr, target, state).state.next_label == state.next_label,
        lower_expr(expr, target, state).outcome matches Ok(v) ==> value_within(
            v,
            lo,
            lower_expr(expr, target, state).state.next_temp,
        ),
    decreases expr,
{
    assert(state.instrs.take(state.instrs.len() as int) =~= state.instrs);
    match expr {
        Expr::Number(n) => {
            if let Some(t) = target {
                lemma_emit_advances(state, Instr::Move { dst: t, src: Value::Const(n) }, lo, state);
            }
        },
        Expr::Variable(_) => {},
        Expr::Resolved { id, .. } => {
            if let Some(t) = target {
                lemma_emit_advances(state, Instr::Move { dst: t, src: Value::Var(id) }, lo, state);
            }
        },
        Expr::Binary { left, operator, right } => {
            let l = lower_expr(left.node, None, state);
            lemma_lower_expr_advances(left.node, None, state, lo);
            if let Ok(lhs) = l.outcome {
                let r = lower_expr(right.node, None, l.state);
                lemma_lower_expr_advances(right.node, None, l.state, lo);
                lemma_advances_chain(state, l.state, r.state, lo);
                if let Ok(rhs) = r.outcome {
                    let d = r.state.destination(target);
                    lemma_destination_advances(r.state, target, lo, state);
                    if let Ok(dst) = d.outcome {
                        if let Some(instr) = binary_instr(operator, dst, lhs, rhs) {
                            lemma_emit_advances(d.state, instr, lo, state);
                        }
                    }
                }
            }
        },
        Expr::Unary { operator, operand } => {
            let o = lower_expr(operand.node, None, state);
            lemma_lower_expr_advances(operand.node, None, state, lo);
            if let Ok(value) = o.outcome {
                let d = o.state.destination(target);
                lemma_destination_advances(o.state, target, lo, state);
                if let Ok(dst) = d.outcome {
                    if let Some(instr) = unary_instr(operator, dst, value) {
                        lemma_emit_advances(d.state, instr, lo, state);
                    }
                }
            }
        },
    }
}

/// A step that advances from a state reached by advancing advances from
/// the origin.
proof fn lemma_advances_chain(origin: BuildState, middle: BuildState, end: BuildState, lo: nat)
    requires
        advances(origin, middle, lo),
        advances(middle, end, lo),
    ensures
        advances(origin, end, lo),
{
    assert(end.instrs.take(origin.instrs.len() as int) =~= end.instrs.take(
        middle.instrs.len() as int,
    ).take(origin.instrs.len() as int));
}

/// Lowering a statement advances the state.
pub proof fn lemma_lower_stmt_advances(stmt: Stmt, state: BuildState, lo: nat)
    requires
        lo <= state.next_temp,
        temps_within(state.instrs, lo, state.next_temp),
    ensures
        advances(state, lower_stmt(stmt, state).state, lo),
    decreases stmt, 0nat,
{
    assert(state.instrs.take(state.instrs.len() as int) =~= state.instrs);
    match stmt {
        Stmt::Assign { target, value } => {
            lemma_lower_store_advances(target.node, value.node, state, lo);
        },
        Stmt::Declare { target, value } => {
            lemma_lower_store_advances(target.node, value.node, state, lo);
        },
        Stmt::While { condition, body } => {
            let s = state.fresh_label();
            if let Ok(start) = s.outcome {
                let e = s.state.fresh_label();
                if let Ok(end) = e.outcome {
                    assert(advances(state, e.state, lo));
                    let labelled = e.state.emit(Instr::Label(start));
                    lemma_emit_advances(e.state, Instr::Label(start), lo, state);
                    let c = lower_expr(condition.node, None, labelled);
                    lemma_lower_expr_advances(condition.node, None, labelled, lo);
                    lemma_advances_chain(state, labelled, c.state, lo);
                    if let Ok(cond) = c.outcome {
                        let jump = Instr::JumpIfFalse { cond: cond, target: end };
                        let entered = c.state.emit(jump);
                        lemma_emit_advances(c.state, jump, lo, state);
                        let b = lower_block(body@, body@.len(), entered);
                        lemma_lower_block_advances(body@, body@.len(), entered, lo);
                        lemma_advances_chain(state, entered, b.state, lo);
                        if b.outcome is Ok {
                            lemma_emit_advances(b.state, Instr::Jump(start), lo, state);
                            lemma_emit_advances(
                                b.state.emit(Instr::Jump(start)),
                                Instr::Label(end),
                                lo,
                                state,
                            );
                        }
                    }
                }
            }
        },
        Stmt::If { .. } => {},
    }
}

/// Lowering a declaration or an assignment advances the state.
proof fn lemma_lower_store_advances(target: Expr,
    value: Expr,
    state: BuildState,
    lo: nat,
)
    requires
        lo <= state.next_temp,
        temps_within(state.instrs, lo, state.next_temp),
    ensures
        advances(state, lower_store(target, value, state).state, lo),
{
    assert(state.instrs.take(state.instrs.len() as int) =~= state.instrs);
    if let Expr::Resolved { id, .. } = target {
        lemma_lower_expr_advances(value, Some(Value::Var(id)), state, lo);
    }
}

/// Lowering a block advances the state.
pub proof fn lemma_lower_block_advances(stmts: Seq<StmtNode>,
    count: nat,
    state: BuildState,
    lo: nat,
)
    requires
        lo <= state.next_temp,
        temps_within(state.instrs, lo, state.next_temp),
    ensures
        advances(state, lower_block(stmts, count, state).state, lo),
    decreases stmts, count,
{
    assert(state.instrs.take(state.instrs.len() as int) =~= state.instrs);
    if !(count == 0 || count > stmts.len()) {
        let before = lower_block(stmts, (count - 1) as nat, state);
        lemma_lower_block_advances(stmts, (count - 1) as nat, state, lo);
        if before.outcome is Ok {
            lemma_lower_stmt_advances(stmts[count - 1].node, before.state, lo);
            lemma_advances_chain(
                state,
                before.state,
                lower_stmt(stmts[count - 1].node, before.state).state,
                lo,
            );
        }
    }
}

/// Id disjointness: no temporary that the lowering of a program introduces
/// has the id of a variable of the symbol table. This holds of whatever
/// was emitted, whether the lowering ended in a fault or not.
pub proof fn lemma_temporaries_differ_from_variables(table: TableView, stmts: Seq<StmtNode>)
    ensures
        ({
            let built = lower_block(stmts, stmts.len(), BuildState::initial(table)).state;
            forall|i: int, id: u32, s: int, j: int|
                0 <= i < built.instrs.len() && #[trigger] mentions_temp(built.instrs[i], id) && 0
                    <= s < table.scopes.len() && 0 <= j < table.scopes[s].symbols.len() ==> (
                #[trigger] table.scopes[s].symbols[j]).id != id
        }),
{
    let start = BuildState::initial(table);
    lemma_lower_block_advances(stmts, stmts.len(), start, start.next_temp);
    lemma_table_max_id(table, table.scopes.len());
}

} // verus!
