//! Names, seen across resolution and lowering: in a program that came out
//! of resolution every variable is bound to a symbol of the table, so its
//! lowering meets no unresolved symbol.

use vstd::prelude::*;
use crate::ast::{expr_tree, stmt_tree, stmt_trees, Expr, ExprNode, ExprTree, Stmt, StmtNode, StmtTree};
use crate::errors::{ErrorView, Fault};
use crate::instructions::{Instr, Value};
use crate::ir_builder::{lower_block, lower_expr, lower_stmt, BuildState};
use crate::resolver::{declare, resolve_block, resolve_expr, resolve_stmt};
use crate::search::lemma_first_index;
use crate::symbols::TableView;

verus! {

/// Whether a symbol of the table has the id.
pub open spec fn is_assigned(table: TableView, id: u32) -> bool {
    exists|s: int, j: int|
        0 <= s < table.scopes.len() && 0 <= j < table.scopes[s].symbols.len() && (
        #[trigger] table.scopes[s].symbols[j]).id == id
}

/// Whether every variable of the expression is bound to a symbol of the
/// table.
pub open spec fn expr_bound(table: TableView, expr: Expr) -> bool
    decreases expr,
{
    match expr {
        Expr::Number(_) => true,
        Expr::Variable(_) => false,
        Expr::Resolved { id, .. } => is_assigned(table, id),
        Expr::Binary { left, right, .. } => expr_bound(table, left.node) && expr_bound(
            table,
            right.node,
        ),
        Expr::Unary { operand, .. } => expr_bound(table, operand.node),
    }
}

/// Whether the target, if it is a variable, is bound to a symbol of the
/// table, and every variable of the value is.
pub open spec fn store_bound(table: TableView, target: Expr, value: Expr) -> bool {
    &&& match target {
        Expr::Variable(_) => false,
        Expr::Resolved { id, .. } => is_assigned(table, id),
        _ => true,
    }
    &&& expr_bound(table, value)
}

/// Whether every variable that the lowering of the statement reads is bound
/// to a symbol of the table: the target of a declaration or an assignment
/// if it is a variable, and the variables of its value; the variables of a
/// condition and of the statements of a body.
pub open spec fn stmt_bound(table: TableView, stmt: Stmt) -> bool
    decreases stmt, 0nat,
{
    match stmt {
        Stmt::Declare { target, value } => store_bound(table, target.node, value.node),
        Stmt::Assign { target, value } => store_bound(table, target.node, value.node),
        Stmt::While { condition, body } => expr_bound(table, condition.node) && block_bound(
            table,
            body@,
            body@.len(),
        ),
        Stmt::If { condition, body } => expr_bound(table, condition.node) && block_bound(
            table,
            body@,
            body@.len(),
        ),
    }
}

/// Whether every variable that the lowering of the first `count` statements
/// reads is bound to a symbol of the table.
pub open spec fn block_bound(table: TableView, stmts: Seq<StmtNode>, count: nat) -> bool
    decreases stmts, count,
{
    if count == 0 || count > stmts.len() {
        true
    } else {
        block_bound(table, stmts, (count - 1) as nat) && stmt_bound(table, stmts[count - 1].node)
    }
}

/// Whether `later` has a symbol for every id that `earlier` has one for.
pub open spec fn extends(earlier: TableView, later: TableView) -> bool {
    forall|id: u32| #[trigger] is_assigned(earlier, id) ==> is_assigned(later, id)
}

/// Whether the current scope is a scope of the table, and every parent
/// link points to an earlier scope.
pub open spec fn linked(table: TableView) -> bool {
    &&& table.current < table.scopes.len()
    &&& forall|i: int|
        0 <= i < table.scopes.len() ==> ((#[trigger] table.scopes[i]).parent matches Some(p) ==> p
            < i)
}

/// A table whose scopes begin with the symbols of the scopes of another
/// has a symbol for every id that the other has one for.
proof fn lemma_extends(earlier: TableView, later: TableView)
    requires
        earlier.scopes.len() <= later.scopes.len(),
        forall|s: int, j: int|
            0 <= s < earlier.scopes.len() && 0 <= j < earlier.scopes[s].symbols.len() ==> j
                < later.scopes[s].symbols.len() && later.scopes[s].symbols[j] == (
            #[trigger] earlier.scopes[s].symbols[j]),
    ensures
        extends(earlier, later),
{
    assert forall|id: u32| #[trigger] is_assigned(earlier, id) implies is_assigned(later, id) by {
        let (s, j) = choose|s: int, j: int|
            0 <= s < earlier.scopes.len() && 0 <= j < earlier.scopes[s].symbols.len() && (
            #[trigger] earlier.scopes[s].symbols[j]).id == id;
        assert(later.scopes[s].symbols[j].id == id);
    }
}

/// Having a symbol for every id of an earlier table goes on through a table
/// in between.
proof fn lemma_extends_chain(first: TableView, second: TableView, third: TableView)
    requires
        extends(first, second),
        extends(second, third),
    ensures
        extends(first, third),
{
    assert forall|id: u32| #[trigger] is_assigned(first, id) implies is_assigned(third, id) by {
        assert(is_assigned(second, id));
    }
}

/// Entering a scope, leaving one and declaring a name keep the symbols of
/// the table, and keep its scopes linked. A declaration that succeeds adds
/// a symbol with the id that was next.
proof fn lemma_table_grows(table: TableView, name: Seq<char>, position: usize, source_id: usize)
    requires
        linked(table),
    ensures
        extends(table, table),
        extends(table, table.begin_scope()),
        extends(table, table.end_scope()),
        extends(table, table.define(name, position, source_id)),
        table.can_define(name) ==> is_assigned(
            table.define(name, position, source_id),
            table.next_id,
        ),
        linked(table.begin_scope()),
        linked(table.end_scope()),
        linked(table.define(name, position, source_id)),
{
    lemma_extends(table, table);
    lemma_extends(table, table.begin_scope());
    lemma_extends(table, table.end_scope());
    let defined = table.define(name, position, source_id);
    lemma_extends(table, defined);
    if table.can_define(name) {
        let current = table.current as int;
        let end = table.scopes[current].symbols.len() as int;
        assert(defined.scopes[current].symbols[end].id == table.next_id);
    }
}

/// The symbol that a name stands for is a symbol of the table.
proof fn lemma_lookup_is_assigned(table: TableView, name: Seq<char>, scope: int)
    requires
        table.resolve_from(name, scope) is Some,
    ensures
        is_assigned(table, table.resolve_from(name, scope)->0.id),
    decreases scope,
{
    let held = table.scopes[scope];
    lemma_first_index(held.is_named(name), 0, held.symbols.len() as int);
    match held.position_of(name) {
        Some(j) => {
            assert(table.scopes[scope].symbols[j].id == table.resolve_from(name, scope)->0.id);
        },
        None => {
            lemma_lookup_is_assigned(table, name, held.parent->0 as int);
        },
    }
}

/// As many statement nodes are turned into plain data as are counted.
proof fn lemma_stmt_trees_len(stmts: Seq<StmtNode>, count: nat)
    requires
        count <= stmts.len(),
    ensures
        stmt_trees(stmts, count).len() == count,
    decreases count,
{
    if count > 0 {
        lemma_stmt_trees_len(stmts, (count - 1) as nat);
    }
}

/// What is bound to symbols of a table is bound to symbols of a table that
/// extends it.
proof fn lemma_expr_stays_bound(earlier: TableView, later: TableView, expr: Expr)
    requires
        extends(earlier, later),
        expr_bound(earlier, expr),
    ensures
        expr_bound(later, expr),
    decreases expr,
{
    match expr {
        Expr::Resolved { id, .. } => {
            assert(is_assigned(earlier, id));
        },
        Expr::Binary { left, right, .. } => {
            lemma_expr_stays_bound(earlier, later, left.node);
            lemma_expr_stays_bound(earlier, later, right.node);
        },
        Expr::Unary { operand, .. } => {
            lemma_expr_stays_bound(earlier, later, operand.node);
        },
        _ => {},
    }
}

/// A declaration or an assignment that is bound to symbols of a table is
/// bound to symbols of a table that extends it.
proof fn lemma_store_stays_bound(earlier: TableView, later: TableView, target: Expr, value: Expr)
    requires
        extends(earlier, later),
        store_bound(earlier, target, value),
    ensures
        store_bound(later, target, value),
{
    lemma_expr_stays_bound(earlier, later, value);
    if let Expr::Resolved { id, .. } = target {
        assert(is_assigned(earlier, id));
    }
}

/// A statement that is bound to symbols of a table is bound to symbols of
/// a table that extends it.
proof fn lemma_stmt_stays_bound(earlier: TableView, later: TableView, stmt: Stmt)
    requires
        extends(earlier, later),
        stmt_bound(earlier, stmt),
    ensures
        stmt_bound(later, stmt),
    decreases stmt, 0nat,
{
    match stmt {
        Stmt::Declare { target, value } => {
            lemma_store_stays_bound(earlier, later, target.node, value.node);
        },
        Stmt::Assign { target, value } => {
            lemma_store_stays_bound(earlier, later, target.node, value.node);
        },
        Stmt::While { condition, body } => {
            lemma_expr_stays_bound(earlier, later, condition.node);
            lemma_block_stays_bound(earlier, later, body@, body@.len());
        },
        Stmt::If { condition, body } => {
            lemma_expr_stays_bound(earlier, later, condition.node);
            lemma_block_stays_bound(earlier, later, body@, body@.len());
        },
    }
}

/// Statements that are bound to symbols of a table are bound to symbols of
/// a table that extends it.
proof fn lemma_block_stays_bound(
    earlier: TableView,
    later: TableView,
    stmts: Seq<StmtNode>,
    count: nat,
)
    requires
        extends(earlier, later),
        block_bound(earlier, stmts, count),
    ensures
        block_bound(later, stmts, count),
    decreases stmts, count,
{
    if !(count == 0 || count > stmts.len()) {
        lemma_block_stays_bound(earlier, later, stmts, (count - 1) as nat);
        lemma_stmt_stays_bound(earlier, later, stmts[count - 1].node);
    }
}

/// An expression that came out of resolution has every variable bound to a
/// symbol of the table.
proof fn lemma_resolved_expr_is_bound(table: TableView, expr: ExprNode, bound: ExprNode)
    requires
        resolve_expr(table, expr) == Ok::<ExprTree, ErrorView>(expr_tree(bound)),
    ensures
        expr_bound(table, bound.node),
    decreases expr,
{
    match expr.node {
        Expr::Variable(name) => {
            lemma_lookup_is_assigned(table, name@, table.current as int);
        },
        Expr::Resolved { name, .. } => {
            lemma_lookup_is_assigned(table, name@, table.current as int);
        },
        Expr::Binary { left, right, .. } => {
            match bound.node {
                Expr::Binary { left: lhs, right: rhs, .. } => {
                    lemma_resolved_expr_is_bound(table, *left, *lhs);
                    lemma_resolved_expr_is_bound(table, *right, *rhs);
                },
                _ => {},
            }
        },
        Expr::Unary { operand, .. } => {
            match bound.node {
                Expr::Unary { operand: inner, .. } => {
                    lemma_resolved_expr_is_bound(table, *operand, *inner);
                },
                _ => {},
            }
        },
        Expr::Number(_) => {},
    }
}

/// A statement that came out of resolution has every variable that its
/// lowering reads bound to a symbol of the table as the resolution left
/// it. The table has kept its symbols, and its scopes are linked.
proof fn lemma_resolved_stmt_is_bound(table: TableView, stmt: StmtNode, bound: StmtNode)
    requires
        linked(table),
        resolve_stmt(table, stmt).outcome == Ok::<StmtTree, ErrorView>(stmt_tree(bound)),
    ensures
        extends(table, resolve_stmt(table, stmt).table),
        linked(resolve_stmt(table, stmt).table),
        stmt_bound(resolve_stmt(table, stmt).table, bound.node),
    decreases stmt, 0nat,
{
    let after = resolve_stmt(table, stmt).table;
    lemma_table_grows(table, Seq::empty(), 0, 0);
    match stmt.node {
        Stmt::Declare { target, value } => {
            match bound.node {
                Stmt::Declare { target: variable, value: held } => {
                    lemma_resolved_expr_is_bound(table, value, held);
                    assert(declare(table, target).outcome == Ok::<ExprTree, ErrorView>(
                        expr_tree(variable),
                    ));
                    match target.node {
                        Expr::Variable(name) => {
                            lemma_table_grows(table, name@, target.position, target.source_id);
                        },
                        Expr::Resolved { name, .. } => {
                            lemma_table_grows(table, name@, target.position, target.source_id);
                        },
                        _ => {},
                    }
                    lemma_expr_stays_bound(table, after, held.node);
                },
                _ => {},
            }
        },
        Stmt::Assign { target, value } => {
            match bound.node {
                Stmt::Assign { target: variable, value: held } => {
                    lemma_resolved_expr_is_bound(table, value, held);
                    lemma_resolved_expr_is_bound(table, target, variable);
                },
                _ => {},
            }
        },
        Stmt::If { condition, body } => {
            match bound.node {
                Stmt::If { condition: checked, body: inner } => {
                    lemma_resolved_expr_is_bound(table, condition, checked);
                    lemma_resolved_block_is_bound(
                        table.begin_scope(),
                        body@,
                        body@.len(),
                        inner@,
                        inner@.len(),
                    );
                    let entered = resolve_block(table.begin_scope(), body@, body@.len()).table;
                    lemma_table_grows(entered, Seq::empty(), 0, 0);
                    lemma_extends_chain(table, table.begin_scope(), entered);
                    lemma_extends_chain(table, entered, after);
                    lemma_expr_stays_bound(table, after, checked.node);
                    lemma_block_stays_bound(entered, after, inner@, inner@.len());
                },
                _ => {},
            }
        },
        Stmt::While { condition, body } => {
            match bound.node {
                Stmt::While { condition: checked, body: inner } => {
                    lemma_resolved_expr_is_bound(table, condition, checked);
                    lemma_resolved_block_is_bound(
                        table.begin_scope(),
                        body@,
                        body@.len(),
                        inner@,
                        inner@.len(),
                    );
                    let entered = resolve_block(table.begin_scope(), body@, body@.len()).table;
                    lemma_table_grows(entered, Seq::empty(), 0, 0);
                    lemma_extends_chain(table, table.begin_scope(), entered);
                    lemma_extends_chain(table, entered, after);
                    lemma_expr_stays_bound(table, after, checked.node);
                    lemma_block_stays_bound(entered, after, inner@, inner@.len());
                },
                _ => {},
            }
        },
    }
}

/// Statements that came out of resolution are as many as went in, and have
/// every variable that their lowering reads bound to a symbol of the table
/// as the resolution left it. The table has kept its symbols, and its
/// scopes are linked.
proof fn lemma_resolved_block_is_bound(
    table: TableView,
    stmts: Seq<StmtNode>,
    count: nat,
    bound: Seq<StmtNode>,
    held: nat,
)
    requires
        linked(table),
        count <= stmts.len(),
        held <= bound.len(),
        resolve_block(table, stmts, count).outcome == Ok::<Seq<StmtTree>, ErrorView>(
            stmt_trees(bound, held),
        ),
    ensures
        held == count,
        extends(table, resolve_block(table, stmts, count).table),
        linked(resolve_block(table, stmts, count).table),
        block_bound(resolve_block(table, stmts, count).table, bound, held),
    decreases stmts, count,
{
    lemma_stmt_trees_len(bound, held);
    lemma_table_grows(table, Seq::empty(), 0, 0);
    if count > 0 {
        let before = resolve_block(table, stmts, (count - 1) as nat);
        let done = before.outcome->Ok_0;
        let next = resolve_stmt(before.table, stmts[count - 1]);
        let last = next.outcome->Ok_0;
        let trees = stmt_trees(bound, held);
        assert(trees == done.push(last));
        assert(held > 0);
        let earlier = stmt_trees(bound, (held - 1) as nat);
        assert(trees == earlier.push(stmt_tree(bound[held - 1])));
        assert(done =~= trees.drop_last());
        assert(earlier =~= trees.drop_last());
        assert(last == trees.last());
        lemma_resolved_block_is_bound(table, stmts, (count - 1) as nat, bound, (held - 1) as nat);
        lemma_resolved_stmt_is_bound(before.table, stmts[count - 1], bound[held - 1]);
        lemma_extends_chain(table, before.table, next.table);
        lemma_block_stays_bound(before.table, next.table, bound, (held - 1) as nat);
    }
}

/// The lowering of an expression whose variables are bound meets no
/// unresolved symbol.
proof fn lemma_bound_expr_lowers(
    table: TableView,
    expr: Expr,
    target: Option<Value>,
    state: BuildState,
)
    requires
        expr_bound(table, expr),
    ensures
        lower_expr(expr, target, state).outcome != Err::<Value, Fault>(Fault::UnresolvedSymbol),
    decreases expr,
{
    match expr {
        Expr::Binary { left, operator, right } => {
            lemma_bound_expr_lowers(table, left.node, None, state);
            let l = lower_expr(left.node, None, state);
            if l.outcome is Ok {
                lemma_bound_expr_lowers(table, right.node, None, l.state);
            }
        },
        Expr::Unary { operator, operand } => {
            lemma_bound_expr_lowers(table, operand.node, None, state);
        },
        _ => {},
    }
}

/// The lowering of a statement meets no unresolved symbol if every variable
/// that it reads is bound.
proof fn lemma_bound_stmt_lowers(table: TableView, stmt: Stmt, state: BuildState)
    requires
        stmt_bound(table, stmt),
    ensures
        lower_stmt(stmt, state).outcome != Err::<(), Fault>(Fault::UnresolvedSymbol),
    decreases stmt, 0nat,
{
    match stmt {
        Stmt::Declare { target, value } => {
            if let Expr::Resolved { id, .. } = target.node {
                lemma_bound_expr_lowers(table, value.node, Some(Value::Var(id)), state);
            }
        },
        Stmt::Assign { target, value } => {
            if let Expr::Resolved { id, .. } = target.node {
                lemma_bound_expr_lowers(table, value.node, Some(Value::Var(id)), state);
            }
        },
        Stmt::While { condition, body } => {
            let s = state.fresh_label();
            if let Ok(start) = s.outcome {
                let e = s.state.fresh_label();
                if let Ok(end) = e.outcome {
                    let labelled = e.state.emit(Instr::Label(start));
                    lemma_bound_expr_lowers(table, condition.node, None, labelled);
                    let c = lower_expr(condition.node, None, labelled);
                    if let Ok(cond) = c.outcome {
                        lemma_bound_block_lowers(
                            table,
                            body@,
                            body@.len(),
                            c.state.emit(Instr::JumpIfFalse { cond: cond, target: end }),
                        );
                    }
                }
            }
        },
        Stmt::If { .. } => {},
    }
}

/// The lowering of statements meets no unresolved symbol if every variable
/// that it reads is bound.
proof fn lemma_bound_block_lowers(
    table: TableView,
    stmts: Seq<StmtNode>,
    count: nat,
    state: BuildState,
)
    requires
        block_bound(table, stmts, count),
    ensures
        lower_block(stmts, count, state).outcome != Err::<(), Fault>(Fault::UnresolvedSymbol),
    decreases stmts, count,
{
    if !(count == 0 || count > stmts.len()) {
        lemma_bound_block_lowers(table, stmts, (count - 1) as nat, state);
        let before = lower_block(stmts, (count - 1) as nat, state);
        if before.outcome is Ok {
            lemma_bound_stmt_lowers(table, stmts[count - 1].node, before.state);
        }
    }
}

/// A program that came out of resolution has as many statements as went
/// in, and every variable that its lowering reads is bound to a symbol of
/// the table that the resolution has filled: the ids that the program
/// carries are ids that the table has assigned.
pub proof fn lemma_resolved_program_is_bound(
    table: TableView,
    stmts: Seq<StmtNode>,
    bound: Seq<StmtNode>,
)
    requires
        table.wf(),
        resolve_block(table, stmts, stmts.len()).outcome == Ok::<Seq<StmtTree>, ErrorView>(
            stmt_trees(bound, bound.len()),
        ),
    ensures
        bound.len() == stmts.len(),
        block_bound(resolve_block(table, stmts, stmts.len()).table, bound, bound.len()),
{
    lemma_resolved_block_is_bound(table, stmts, stmts.len(), bound, bound.len());
}

/// A program that came out of resolution is lowered without a variable that
/// has no symbol: whatever else stops the lowering, it is no unresolved
/// symbol.
pub proof fn lemma_resolved_program_has_no_unknown_names(
    table: TableView,
    stmts: Seq<StmtNode>,
    bound: Seq<StmtNode>,
    state: BuildState,
)
    requires
        table.wf(),
        resolve_block(table, stmts, stmts.len()).outcome == Ok::<Seq<StmtTree>, ErrorView>(
            stmt_trees(bound, bound.len()),
        ),
    ensures
        lower_block(bound, bound.len(), state).outcome != Err::<(), Fault>(
            Fault::UnresolvedSymbol,
        ),
{
    lemma_resolved_program_is_bound(table, stmts, bound);
    lemma_bound_block_lowers(
        resolve_block(table, stmts, stmts.len()).table,
        bound,
        bound.len(),
        state,
    );
}

} // verus!
