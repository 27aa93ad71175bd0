//! Constant folding, seen across lowering and legalization: which
//! arithmetic on literals leaves no addition or subtraction behind.

use vstd::prelude::*;
use crate::ast::Expr;
use crate::instructions::{Instr, Value};
use crate::ir_builder::{binary_instr, lower_expr, unary_instr, BuildState};
use crate::legalizer::{legalize, needs_temp, rewrite};
use crate::token::TokenType;

verus! {

/// Whether `expr` is built from number literals alone, with `+`, `-` and
/// negation.
pub open spec fn is_literal_arithmetic(expr: Expr) -> bool
    decreases expr,
{
    match expr {
        Expr::Number(_) => true,
        Expr::Variable(_) => false,
        Expr::Resolved { .. } => false,
        Expr::Binary { left, operator, right } => (operator == TokenType::PLUS || operator
            == TokenType::MINUS) && is_literal_arithmetic(left.node) && is_literal_arithmetic(
            right.node,
        ),
        Expr::Unary { operator, operand } => operator == TokenType::MINUS && is_literal_arithmetic(
            operand.node,
        ),
    }
}

/// Whether every operation of `expr` has literals for operands as far as
/// folding it takes: a sum one literal at least, a difference two, and a
/// negation one.
///
/// The rules of the legalizer look at one instruction at a time. So the
/// result of an operation, which is held by a temporary, is a literal to
/// none of them.
pub open spec fn has_literal_operands(expr: Expr) -> bool
    decreases expr,
{
    match expr {
        Expr::Number(_) => true,
        Expr::Variable(_) => true,
        Expr::Resolved { .. } => true,
        Expr::Binary { left, operator, right } => has_literal_operands(left.node)
            && has_literal_operands(right.node) && if operator == TokenType::PLUS {
            left.node is Number || right.node is Number
        } else {
            left.node is Number && right.node is Number
        },
        Expr::Unary { operator, operand } => operand.node is Number,
    }
}

/// Whether `instr` is an addition or a subtraction.
pub open spec fn is_add_or_sub(instr: Instr) -> bool {
    instr is Add || instr is Sub
}

/// Whether no instruction of `instrs` is an addition or a subtraction.
pub open spec fn free_of_add_and_sub(instrs: Seq<Instr>) -> bool {
    forall|i: int| 0 <= i < instrs.len() ==> !is_add_or_sub(#[trigger] instrs[i])
}

/// Whether legalization leaves no addition and no subtraction in the place
/// of `instr`: it is neither, or an addition with a literal operand, or a
/// subtraction of a literal from a literal.
pub open spec fn folds_away(instr: Instr) -> bool {
    match instr {
        Instr::Add { lhs, rhs, .. } => lhs is Const || rhs is Const,
        Instr::Sub { lhs, rhs, .. } => lhs is Const && rhs is Const,
        _ => true,
    }
}

/// Whether legalization leaves no addition and no subtraction in the place
/// of any instruction of `instrs`.
pub open spec fn all_fold_away(instrs: Seq<Instr>) -> bool {
    forall|i: int| 0 <= i < instrs.len() ==> folds_away(#[trigger] instrs[i])
}

/// The instructions that a step from `before` to `after` has emitted.
pub open spec fn added(before: BuildState, after: BuildState) -> Seq<Instr> {
    after.instrs.skip(before.instrs.len() as int)
}

/// An instruction folds away just when its rule leaves no addition and no
/// subtraction; it then takes no temporary.
pub proof fn lemma_folds_away(instr: Instr, temp: Value)
    ensures
        folds_away(instr) <==> free_of_add_and_sub(rewrite(instr, temp)),
        folds_away(instr) ==> !needs_temp(instr),
{
    let out = rewrite(instr, temp);
    if !folds_away(instr) {
        assert(is_add_or_sub(out[out.len() - 1]));
    }
}

/// A sequence whose every instruction folds away is legalized, with no
/// temporary taken, to one without addition and subtraction.
pub proof fn lemma_all_fold_away(instrs: Seq<Instr>, count: nat, next_temp: nat)
    requires
        count <= instrs.len(),
        all_fold_away(instrs),
    ensures
        legalize(instrs, count, next_temp) is Ok,
        legalize(instrs, count, next_temp)->Ok_0.next_temp == next_temp,
        free_of_add_and_sub(legalize(instrs, count, next_temp)->Ok_0.instrs),
    decreases count,
{
    if count > 0 {
        lemma_all_fold_away(instrs, (count - 1) as nat, next_temp);
        let done = legalize(instrs, (count - 1) as nat, next_temp)->Ok_0;
        let instr = instrs[count - 1];
        lemma_folds_away(instr, Value::Temp(0));
        let out = legalize(instrs, count, next_temp)->Ok_0.instrs;
        assert forall|i: int| 0 <= i < out.len() implies !is_add_or_sub(#[trigger] out[i]) by {
            if i >= done.instrs.len() {
                assert(out[i] == rewrite(instr, Value::Temp(0))[i - done.instrs.len()]);
            }
        }
    }
}

/// A sequence with an instruction that does not fold away is legalized, if
/// at all, to one with an addition or a subtraction.
pub proof fn lemma_one_stays(instrs: Seq<Instr>, count: nat, next_temp: nat, at: int)
    requires
        0 <= at < count <= instrs.len(),
        !folds_away(instrs[at]),
        legalize(instrs, count, next_temp) is Ok,
    ensures
        !free_of_add_and_sub(legalize(instrs, count, next_temp)->Ok_0.instrs),
    decreases count,
{
    let done = legalize(instrs, (count - 1) as nat, next_temp)->Ok_0;
    let instr = instrs[count - 1];
    let temp = if needs_temp(instr) {
        Value::Temp(done.next_temp as u32)
    } else {
        Value::Temp(0)
    };
    let out = legalize(instrs, count, next_temp)->Ok_0.instrs;
    assert(out == done.instrs + rewrite(instr, temp));
    if at == count - 1 {
        lemma_folds_away(instr, temp);
        let k = choose|k: int|
            0 <= k < rewrite(instr, temp).len() && is_add_or_sub(#[trigger] rewrite(instr, temp)[k]);
        assert(out[done.instrs.len() + k] == rewrite(instr, temp)[k]);
    } else {
        lemma_one_stays(instrs, (count - 1) as nat, next_temp, at);
        let k = choose|k: int| 0 <= k < done.instrs.len() && is_add_or_sub(#[trigger] done.instrs[k]);
        assert(out[k] == done.instrs[k]);
    }
}

/// What lowering an expression of literal arithmetic emits, and what it
/// yields.
///
/// - It only appends to what was emitted.
/// - A number yields a literal, and any other such expression, lowered
///   without a target, a temporary.
/// - Every instruction emitted folds away just when every operation of the
///   expression has the literal operands that folding it takes.
pub proof fn lemma_lowered_literal_arithmetic(
    expr: Expr,
    target: Option<Value>,
    state: BuildState,
)
    requires
        is_literal_arithmetic(expr),
    ensures
        ({
            let lowered = lower_expr(expr, target, state);
            &&& state.instrs.len() <= lowered.state.instrs.len()
            &&& lowered.state.instrs == state.instrs + added(state, lowered.state)
            &&& has_literal_operands(expr) ==> all_fold_away(added(state, lowered.state))
            &&& lowered.outcome is Ok && !has_literal_operands(expr) ==> !all_fold_away(
                added(state, lowered.state),
            )
            &&& lowered.outcome matches Ok(value) ==> if target is Some {
                Some(value) == target
            } else if expr is Number {
                value is Const
            } else {
                value is Temp
            }
        }),
    decreases expr,
{
    let lowered = lower_expr(expr, target, state);
    match expr {
        Expr::Number(n) => {
            assert(lowered.state.instrs =~= state.instrs + added(state, lowered.state));
        },
        Expr::Variable(_) => {},
        Expr::Resolved { .. } => {},
        Expr::Binary { left, operator, right } => {
            let l = lower_expr(left.node, None, state);
            lemma_lowered_literal_arithmetic(left.node, None, state);
            assert(lowered.state.instrs =~= state.instrs + added(state, lowered.state)) by {
                if let Ok(lhs) = l.outcome {
                    lemma_lowered_literal_arithmetic(right.node, None, l.state);
                }
            }
            if let Ok(lhs) = l.outcome {
                let r = lower_expr(right.node, None, l.state);
                lemma_lowered_literal_arithmetic(right.node, None, l.state);
                if let Ok(rhs) = r.outcome {
                    let d = r.state.destination(target);
                    if let Ok(dst) = d.outcome {
                        let instr = binary_instr(operator, dst, lhs, rhs)->0;
                        assert(added(state, lowered.state) =~= added(state, l.state) + added(
                            l.state,
                            r.state,
                        ) + seq![instr]);
                        lemma_joined(
                            added(state, l.state),
                            added(l.state, r.state),
                            seq![instr],
                        );
                        assert(seq![instr][0] == instr);
                    } else {
                        assert(added(state, lowered.state) =~= added(state, l.state) + added(
                            l.state,
                            r.state,
                        ) + Seq::<Instr>::empty());
                        lemma_joined(
                            added(state, l.state),
                            added(l.state, r.state),
                            Seq::<Instr>::empty(),
                        );
                    }
                } else {
                    assert(added(state, lowered.state) =~= added(state, l.state) + added(
                        l.state,
                        r.state,
                    ) + Seq::<Instr>::empty());
                    lemma_joined(
                        added(state, l.state),
                        added(l.state, r.state),
                        Seq::<Instr>::empty(),
                    );
                }
            }
        },
        Expr::Unary { operator, operand } => {
            let o = lower_expr(operand.node, None, state);
            lemma_lowered_literal_arithmetic(operand.node, None, state);
            assert(lowered.state.instrs =~= state.instrs + added(state, lowered.state));
            if let Ok(value) = o.outcome {
                let d = o.state.destination(target);
                if let Ok(dst) = d.outcome {
                    let instr = unary_instr(operator, dst, value)->0;
                    assert(added(state, lowered.state) =~= added(state, o.state)
                        + Seq::<Instr>::empty() + seq![instr]);
                    lemma_joined(added(state, o.state), Seq::<Instr>::empty(), seq![instr]);
                    assert(seq![instr][0] == instr);
                }
            }
        },
    }
}

/// Every instruction of three sequences joined folds away just when every
/// instruction of each of them does.
proof fn lemma_joined(a: Seq<Instr>, b: Seq<Instr>, c: Seq<Instr>)
    ensures
        all_fold_away(a + b + c) <==> all_fold_away(a) && all_fold_away(b) && all_fold_away(c),
{
    let all = a + b + c;
    if all_fold_away(all) {
        assert forall|i: int| 0 <= i < a.len() implies folds_away(#[trigger] a[i]) by {
            assert(all[i] == a[i]);
        }
        assert forall|i: int| 0 <= i < b.len() implies folds_away(#[trigger] b[i]) by {
            assert(all[a.len() + i] == b[i]);
        }
        assert forall|i: int| 0 <= i < c.len() implies folds_away(#[trigger] c[i]) by {
            assert(all[a.len() + b.len() + i] == c[i]);
        }
    }
    if all_fold_away(a) && all_fold_away(b) && all_fold_away(c) {
        assert forall|i: int| 0 <= i < all.len() implies folds_away(#[trigger] all[i]) by {
            if i < a.len() {
                assert(all[i] == a[i]);
            } else if i < a.len() + b.len() {
                assert(all[i] == b[i - a.len()]);
            } else {
                assert(all[i] == c[i - a.len() - b.len()]);
            }
        }
    }
}

/// Constant folding is complete: what lowering emits for an expression of
/// literal arithmetic whose operations have literal operands is legalized,
/// with no temporary taken, to a sequence without addition and subtraction.
/// This holds of every target and every place in a program at which the
/// expression is lowered.
pub proof fn lemma_literal_arithmetic_is_folded(
    expr: Expr,
    target: Option<Value>,
    state: BuildState,
    next_temp: nat,
)
    requires
        is_literal_arithmetic(expr),
        has_literal_operands(expr),
    ensures
        ({
            let emitted = added(state, lower_expr(expr, target, state).state);
            &&& legalize(emitted, emitted.len(), next_temp) is Ok
            &&& free_of_add_and_sub(legalize(emitted, emitted.len(), next_temp)->Ok_0.instrs)
        }),
{
    let emitted = added(state, lower_expr(expr, target, state).state);
    lemma_lowered_literal_arithmetic(expr, target, state);
    lemma_all_fold_away(emitted, emitted.len(), next_temp);
}

/// Where constant folding ends: an expression of literal arithmetic with an
/// operation on the result of another operation keeps an addition or a
/// subtraction through legalization.
pub proof fn lemma_nested_arithmetic_is_kept(
    expr: Expr,
    target: Option<Value>,
    state: BuildState,
    next_temp: nat,
)
    requires
        is_literal_arithmetic(expr),
        !has_literal_operands(expr),
        lower_expr(expr, target, state).outcome is Ok,
        ({
            let emitted = added(state, lower_expr(expr, target, state).state);
            legalize(emitted, emitted.len(), next_temp) is Ok
        }),
    ensures
        ({
            let emitted = added(state, lower_expr(expr, target, state).state);
            !free_of_add_and_sub(legalize(emitted, emitted.len(), next_temp)->Ok_0.instrs)
        }),
{
    let emitted = added(state, lower_expr(expr, target, state).state);
    lemma_lowered_literal_arithmetic(expr, target, state);
    let at = choose|i: int| 0 <= i < emitted.len() && !folds_away(#[trigger] emitted[i]);
    lemma_one_stays(emitted, emitted.len(), next_temp, at);
}

} // verus!
