//! Name resolution: every use of a variable must be in reach of a
//! declaration, and every declaration enters its name into the symbol table.
//!
//! Resolution yields the program again, with each variable bound to the id
//! of the symbol that its name stands for at the place where it is used. So
//! a name that a block declares only later, or that a block which was left
//! has declared, is never mistaken for the variable in reach.

use vstd::prelude::*;
use crate::ast::{
    expr_tree, lemma_stmt_trees_push, stmt_tree, stmt_trees, AstNode, Expr, ExprNode, ExprTree,
    ExprView, NodeView, Stmt, StmtNode, StmtTree, StmtView,
};
use crate::errors::{CompileError, ErrorView};
use crate::symbols::{
    exhausted_message, redeclared_message, undeclared_message, SymbolTable, TableView,
};

verus! {

/// The outcome of resolving a part of a program: the table afterwards, and
/// the part with its variables bound, or the diagnostic that stopped the
/// resolution. A resolution that stops inside a block leaves the table in
/// the scope of that block.
pub struct Resolved<T> {
    pub table: TableView,
    pub outcome: Result<T, ErrorView>,
}

/// The name of a variable, bound or not; no other expression has one.
pub open spec fn variable_name(expr: Expr) -> Option<Seq<char>> {
    match expr {
        Expr::Variable(name) => Some(name@),
        Expr::Resolved { name, .. } => Some(name@),
        _ => None,
    }
}

/// The variable `name` at a place, bound to the id of the symbol that the
/// name stands for in the current scope.
pub open spec fn lookup(table: TableView, name: Seq<char>, position: usize, source_id: usize) -> Result<
    ExprTree,
    ErrorView,
> {
    match table.resolve(name) {
        Some(symbol) => Ok(
            NodeView {
                node: ExprView::Resolved { name: name, id: symbol.id },
                position: position,
                source_id: source_id,
            },
        ),
        None => Err(
            ErrorView {
                message: undeclared_message(name),
                position: position,
                source_id: source_id,
            },
        ),
    }
}

/// The expression with every variable bound to the symbol that its name
/// stands for in the current scope. Left operands are checked before right
/// ones. A variable that is bound already is bound anew.
pub open spec fn resolve_expr(table: TableView, expr: ExprNode) -> Result<ExprTree, ErrorView>
    decreases expr,
{
    match expr.node {
        Expr::Variable(name) => lookup(table, name@, expr.position, expr.source_id),
        Expr::Resolved { name, .. } => lookup(table, name@, expr.position, expr.source_id),
        Expr::Binary { left, operator, right } => match resolve_expr(table, *left) {
            Err(error) => Err(error),
            Ok(lhs) => match resolve_expr(table, *right) {
                Err(error) => Err(error),
                Ok(rhs) => Ok(
                    NodeView {
                        node: ExprView::Binary {
                            left: Box::new(lhs),
                            operator: operator,
                            right: Box::new(rhs),
                        },
                        position: expr.position,
                        source_id: expr.source_id,
                    },
                ),
            },
        },
        Expr::Unary { operator, operand } => match resolve_expr(table, *operand) {
            Err(error) => Err(error),
            Ok(inner) => Ok(
                NodeView {
                    node: ExprView::Unary { operator: operator, operand: Box::new(inner) },
                    position: expr.position,
                    source_id: expr.source_id,
                },
            ),
        },
        Expr::Number(n) => Ok(
            NodeView {
                node: ExprView::Number(n),
                position: expr.position,
                source_id: expr.source_id,
            },
        ),
    }
}

/// Declares the variable that `target` names, at the place of `target`, and
/// binds the target to the new symbol. A target that is no variable declares
/// nothing and stays as it is.
pub open spec fn declare(table: TableView, target: ExprNode) -> Resolved<ExprTree> {
    match variable_name(target.node) {
        Some(name) => if table.can_define(name) {
            Resolved {
                table: table.define(name, target.position, target.source_id),
                outcome: Ok(
                    NodeView {
                        node: ExprView::Resolved { name: name, id: table.next_id },
                        position: target.position,
                        source_id: target.source_id,
                    },
                ),
            }
        } else {
            Resolved {
                table: table,
                outcome: Err(
                    ErrorView {
                        message: if table.scopes[table.current as int].position_of(
                            name,
                        ) is Some {
                            redeclared_message(name)
                        } else {
                            exhausted_message()
                        },
                        position: target.position,
                        source_id: target.source_id,
                    },
                ),
            }
        },
        None => Resolved { table: table, outcome: Ok(expr_tree(target)) },
    }
}

/// Resolves a statement.
///
/// - A declaration binds its value, then declares its target. So the value
///   cannot use the variable that is being declared.
/// - An assignment binds its value, then its target.
/// - A conditional and a loop bind their condition and resolve their body
///   in a scope of its own, which they leave again at the end of the body.
pub open spec fn resolve_stmt(table: TableView, stmt: StmtNode) -> Resolved<StmtTree>
    decreases stmt, 0nat,
{
    match stmt.node {
        Stmt::Declare { target, value } => match resolve_expr(table, value) {
            Err(error) => Resolved { table: table, outcome: Err(error) },
            Ok(bound) => {
                let declared = declare(table, target);
                match declared.outcome {
                    Err(error) => Resolved { table: declared.table, outcome: Err(error) },
                    Ok(variable) => Resolved {
                        table: declared.table,
                        outcome: Ok(
                            NodeView {
                                node: StmtView::Declare { target: variable, value: bound },
                                position: stmt.position,
                                source_id: stmt.source_id,
                            },
                        ),
                    },
                }
            },
        },
        Stmt::Assign { target, value } => match resolve_expr(table, value) {
            Err(error) => Resolved { table: table, outcome: Err(error) },
            Ok(bound) => match resolve_expr(table, target) {
                Err(error) => Resolved { table: table, outcome: Err(error) },
                Ok(variable) => Resolved {
                    table: table,
                    outcome: Ok(
                        NodeView {
                            node: StmtView::Assign { target: variable, value: bound },
                            position: stmt.position,
                            source_id: stmt.source_id,
                        },
                    ),
                },
            },
        },
        Stmt::If { condition, body } => nested(
            table,
            resolve_expr(table, condition),
            resolve_block(table.begin_scope(), body@, body@.len()),
            false,
            stmt.position,
            stmt.source_id,
        ),
        Stmt::While { condition, body } => nested(
            table,
            resolve_expr(table, condition),
            resolve_block(table.begin_scope(), body@, body@.len()),
            true,
            stmt.position,
            stmt.source_id,
        ),
    }
}

/// The outcome of a statement with a condition and a block, from the
/// outcome of binding the condition and that of resolving the block in a
/// scope of its own: the block counts only if the condition passed, and its
/// scope is left only if the block passed.
pub open spec fn nested(
    table: TableView,
    checked: Result<ExprTree, ErrorView>,
    inner: Resolved<Seq<StmtTree>>,
    is_loop: bool,
    position: usize,
    source_id: usize,
) -> Resolved<StmtTree> {
    match checked {
        Err(error) => Resolved { table: table, outcome: Err(error) },
        Ok(condition) => match inner.outcome {
            Err(error) => Resolved { table: inner.table, outcome: Err(error) },
            Ok(body) => Resolved {
                table: inner.table.end_scope(),
                outcome: Ok(
                    NodeView {
                        node: if is_loop {
                            StmtView::While { condition: condition, body: body }
                        } else {
                            StmtView::If { condition: condition, body: body }
                        },
                        position: position,
                        source_id: source_id,
                    },
                ),
            },
        },
    }
}

/// Resolves the first `count` statements of `stmts` in order, and stops at
/// the first diagnostic.
pub open spec fn resolve_block(table: TableView, stmts: Seq<StmtNode>, count: nat) -> Resolved<
    Seq<StmtTree>,
>
    decreases stmts, count,
{
    if count == 0 || count > stmts.len() {
        Resolved { table: table, outcome: Ok(Seq::empty()) }
    } else {
        let before = resolve_block(table, stmts, (count - 1) as nat);
        match before.outcome {
            Err(_) => before,
            Ok(done) => {
                let next = resolve_stmt(before.table, stmts[count - 1]);
                match next.outcome {
                    Err(error) => Resolved { table: next.table, outcome: Err(error) },
                    Ok(stmt) => Resolved { table: next.table, outcome: Ok(done.push(stmt)) },
                }
            },
        }
    }
}

/// A copy of an expression.
fn copy_expr(expr: &ExprNode) -> (copy: ExprNode)
    ensures
        copy == *expr,
    decreases expr,
{
    let node = match &expr.node {
        Expr::Number(n) => Expr::Number(*n),
        Expr::Variable(name) => Expr::Variable(name.clone()),
        Expr::Resolved { name, id } => Expr::Resolved { name: name.clone(), id: *id },
        Expr::Binary { left, operator, right } => Expr::Binary {
            left: Box::new(copy_expr(left)),
            operator: *operator,
            right: Box::new(copy_expr(right)),
        },
        Expr::Unary { operator, operand } => Expr::Unary {
            operator: *operator,
            operand: Box::new(copy_expr(operand)),
        },
    };
    AstNode { node, position: expr.position, source_id: expr.source_id }
}

/// The resolver of one program. It fills the symbol table that it holds.
pub struct Resolver<'a> {
    pub table: &'a mut SymbolTable,
}

impl<'a> Resolver<'a> {
    /// A resolver that enters declarations into `table`.
    pub fn new(table: &'a mut SymbolTable) -> (resolver: Self)
        ensures
            *resolver.table == *old(table),
            *final(resolver.table) == *final(table),
    {
        Resolver { table }
    }

    /// The variable `name` at a place, bound to the symbol that the name
    /// stands for in the current scope.
    fn resolve(&mut self, name: &String, pos: usize, source_id: usize) -> (bound: Result<
        ExprNode,
        CompileError,
    >)
        requires
            old(self).table@.wf(),
        ensures
            *final(self).table == *old(self).table,
            *final(final(self).table) == *final(old(self).table),
            match bound {
                Ok(node) => lookup(old(self).table@, name@, pos, source_id) == Ok::<
                    ExprTree,
                    ErrorView,
                >(expr_tree(node)),
                Err(error) => lookup(old(self).table@, name@, pos, source_id) == Err::<
                    ExprTree,
                    ErrorView,
                >(error@),
            },
    {
        match self.table.resolve(name.as_str()) {
            Ok(symbol) => Ok(
                AstNode {
                    node: Expr::Resolved { name: name.clone(), id: symbol.id },
                    position: pos,
                    source_id,
                },
            ),
            Err(msg) => Err(CompileError { position: pos, source_id, message: msg }),
        }
    }

    /// Declares `name` in the current scope, and yields the variable at a
    /// place, bound to the new symbol.
    fn define(&mut self, name: &String, pos: usize, source_id: usize) -> (bound: Result<
        ExprNode,
        CompileError,
    >)
        requires
            old(self).table@.wf(),
        ensures
            final(self).table@.wf(),
            final(self).table@ == old(self).table@.define(name@, pos, source_id),
            old(self).table@.dense() ==> final(self).table@.dense(),
            *final(final(self).table) == *final(old(self).table),
            match bound {
                Ok(node) => old(self).table@.can_define(name@) && expr_tree(node) == (NodeView {
                    node: ExprView::Resolved { name: name@, id: old(self).table@.next_id },
                    position: pos,
                    source_id: source_id,
                }),
                Err(error) => !old(self).table@.can_define(name@) && error@ == (ErrorView {
                    message: if old(self).table@.scopes[old(
                        self,
                    ).table@.current as int].position_of(name@) is Some {
                        redeclared_message(name@)
                    } else {
                        exhausted_message()
                    },
                    position: pos,
                    source_id: source_id,
                }),
            },
    {
        let id = self.table.next_id;
        match self.table.define(name.as_str(), pos, source_id) {
            Ok(_) => Ok(
                AstNode {
                    node: Expr::Resolved { name: name.clone(), id },
                    position: pos,
                    source_id,
                },
            ),
            Err(msg) => Err(CompileError { position: pos, source_id, message: msg }),
        }
    }

    /// Resolves the statements of a program in order, and yields them with
    /// their variables bound; see [`resolve_stmt`]. The first diagnostic
    /// ends the resolution. The ids of the table stay dense, whether the
    /// program resolves or not.
    pub fn resolve_program(self, stmts: &[StmtNode]) -> (resolved: Result<
        Vec<StmtNode>,
        CompileError,
    >)
        requires
            old(self.table)@.wf(),
        ensures
            final(self.table)@.wf(),
            final(self.table)@ == resolve_block(old(self.table)@, stmts@, stmts@.len()).table,
            old(self.table)@.dense() ==> final(self.table)@.dense(),
            match resolved {
                Ok(all) => resolve_block(old(self.table)@, stmts@, stmts@.len()).outcome == Ok::<
                    Seq<StmtTree>,
                    ErrorView,
                >(stmt_trees(all@, all@.len())),
                Err(error) => resolve_block(old(self.table)@, stmts@, stmts@.len()).outcome == Err::<
                    Seq<StmtTree>,
                    ErrorView,
                >(error@),
            },
    {
        let mut resolver = self;
        resolver.resolve_block(stmts)
    }

    /// Resolves statements in order; see [`resolve_block`].
    fn resolve_block(&mut self, stmts: &[StmtNode]) -> (resolved: Result<
        Vec<StmtNode>,
        CompileError,
    >)
        requires
            old(self).table@.wf(),
        ensures
            final(self).table@.wf(),
            final(self).table@ == resolve_block(old(self).table@, stmts@, stmts@.len()).table,
            old(self).table@.dense() ==> final(self).table@.dense(),
            *final(final(self).table) == *final(old(self).table),
            match resolved {
                Ok(all) => resolve_block(old(self).table@, stmts@, stmts@.len()).outcome == Ok::<
                    Seq<StmtTree>,
                    ErrorView,
                >(stmt_trees(all@, all@.len())),
                Err(error) => resolve_block(old(self).table@, stmts@, stmts@.len()).outcome == Err::<
                    Seq<StmtTree>,
                    ErrorView,
                >(error@),
            },
        decreases stmts@, 1nat,
    {
        let mut all: Vec<StmtNode> = Vec::new();
        let mut i: usize = 0;
        while i < stmts.len()
            invariant
                i <= stmts@.len(),
                self.table@.wf(),
                old(self).table@.dense() ==> self.table@.dense(),
                *final(self.table) == *final(old(self).table),
                resolve_block(old(self).table@, stmts@, i as nat) == (Resolved {
                    table: self.table@,
                    outcome: Ok::<Seq<StmtTree>, ErrorView>(stmt_trees(all@, all@.len())),
                }),
            decreases stmts@.len() - i,
        {
            let ghost before = all@;
            let stmt = match self.resolve_stmt(&stmts[i]) {
                Ok(stmt) => stmt,
                Err(error) => {
                    proof {
                        lemma_resolve_stops(
                            old(self).table@,
                            stmts@,
                            (i + 1) as nat,
                            stmts@.len(),
                        );
                    }
                    return Err(error);
                },
            };
            proof {
                lemma_stmt_trees_push(before, stmt);
            }
            all.push(stmt);
            i += 1;
        }
        Ok(all)
    }

    /// Resolves a statement; see [`resolve_stmt`].
    fn resolve_stmt(&mut self, stmt: &StmtNode) -> (resolved: Result<StmtNode, CompileError>)
        requires
            old(self).table@.wf(),
        ensures
            final(self).table@.wf(),
            final(self).table@ == resolve_stmt(old(self).table@, *stmt).table,
            old(self).table@.dense() ==> final(self).table@.dense(),
            *final(final(self).table) == *final(old(self).table),
            match resolved {
                Ok(node) => resolve_stmt(old(self).table@, *stmt).outcome == Ok::<
                    StmtTree,
                    ErrorView,
                >(stmt_tree(node)),
                Err(error) => resolve_stmt(old(self).table@, *stmt).outcome == Err::<
                    StmtTree,
                    ErrorView,
                >(error@),
            },
        decreases stmt, 0nat,
    {
        let node = match &stmt.node {
            Stmt::Declare { target, value } => {
                let value = self.resolve_expr(value)?;
                let target = match &target.node {
                    Expr::Variable(name) => self.define(name, target.position, target.source_id)?,
                    Expr::Resolved { name, .. } => self.define(
                        name,
                        target.position,
                        target.source_id,
                    )?,
                    _ => copy_expr(target),
                };
                Stmt::Declare { target, value }
            },
            Stmt::Assign { target, value } => {
                let value = self.resolve_expr(value)?;
                let target = self.resolve_expr(target)?;
                Stmt::Assign { target, value }
            },
            Stmt::If { condition, body } => {
                let condition = self.resolve_expr(condition)?;
                self.table.begin_scope();
                let body = self.resolve_block(body.as_slice())?;
                self.table.end_scope();
                Stmt::If { condition, body }
            },
            Stmt::While { condition, body } => {
                let condition = self.resolve_expr(condition)?;
                self.table.begin_scope();
                let body = self.resolve_block(body.as_slice())?;
                self.table.end_scope();
                Stmt::While { condition, body }
            },
        };
        Ok(AstNode { node, position: stmt.position, source_id: stmt.source_id })
    }

    /// Binds the variables of an expression; see [`resolve_expr`].
    fn resolve_expr(&mut self, expr: &ExprNode) -> (bound: Result<ExprNode, CompileError>)
        requires
            old(self).table@.wf(),
        ensures
            *final(self).table == *old(self).table,
            *final(final(self).table) == *final(old(self).table),
            match bound {
                Ok(node) => resolve_expr(old(self).table@, *expr) == Ok::<ExprTree, ErrorView>(
                    expr_tree(node),
                ),
                Err(error) => resolve_expr(old(self).table@, *expr) == Err::<ExprTree, ErrorView>(
                    error@,
                ),
            },
        decreases expr,
    {
        let node = match &expr.node {
            Expr::Variable(name) => {
                return self.resolve(name, expr.position, expr.source_id);
            },
            Expr::Resolved { name, .. } => {
                return self.resolve(name, expr.position, expr.source_id);
            },
            Expr::Binary { left, operator, right } => {
                let left = self.resolve_expr(left)?;
                let right = self.resolve_expr(right)?;
                Expr::Binary { left: Box::new(left), operator: *operator, right: Box::new(right) }
            },
            Expr::Unary { operator, operand } => {
                let operand = self.resolve_expr(operand)?;
                Expr::Unary { operator: *operator, operand: Box::new(operand) }
            },
            Expr::Number(n) => Expr::Number(*n),
        };
        Ok(AstNode { node, position: expr.position, source_id: expr.source_id })
    }
}

/// Once the resolution of a block has met a diagnostic, it stays where it
/// stopped.
pub proof fn lemma_resolve_stops(table: TableView, stmts: Seq<StmtNode>, count: nat, more: nat)
    requires
        count <= more <= stmts.len(),
        resolve_block(table, stmts, count).outcome is Err,
    ensures
        resolve_block(table, stmts, more) == resolve_block(table, stmts, count),
    decreases more,
{
    if count < more {
        lemma_resolve_stops(table, stmts, count, (more - 1) as nat);
    }
}

} // verus!
