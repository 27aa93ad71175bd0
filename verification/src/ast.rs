//! The syntax tree.

use vstd::prelude::*;
use crate::token::TokenType;

verus! {

/// An expression.
///
/// The parser builds a `Variable` for every name. Resolution puts a
/// `Resolved` in its place, which carries the id of the symbol that the name
/// stands for at the place where it is used.
#[derive(Debug, PartialEq, Eq)]
pub enum Expr {
    Number(i32),
    Variable(String),
    Binary { left: Box<ExprNode>, operator: TokenType, right: Box<ExprNode> },
    Unary { operator: TokenType, operand: Box<ExprNode> },
    Resolved { name: String, id: u32 },
}

/// A statement.
#[derive(Debug, PartialEq, Eq)]
pub enum Stmt {
    Declare { target: ExprNode, value: ExprNode },
    Assign { target: ExprNode, value: ExprNode },
    If { condition: ExprNode, body: Vec<StmtNode> },
    While { condition: ExprNode, body: Vec<StmtNode> },
}

/// A node of the tree, with the place in the source that it stands for.
#[derive(Debug, PartialEq, Eq)]
pub struct AstNode<T> {
    pub node: T,
    pub position: usize,
    pub source_id: usize,
}

pub type ExprNode = AstNode<Expr>;

pub type StmtNode = AstNode<Stmt>;

/// An expression as plain data.
pub enum ExprView {
    Number(i32),
    Variable(Seq<char>),
    Binary { left: Box<ExprTree>, operator: TokenType, right: Box<ExprTree> },
    Unary { operator: TokenType, operand: Box<ExprTree> },
    Resolved { name: Seq<char>, id: u32 },
}

/// A statement as plain data.
pub enum StmtView {
    Declare { target: ExprTree, value: ExprTree },
    Assign { target: ExprTree, value: ExprTree },
    If { condition: ExprTree, body: Seq<StmtTree> },
    While { condition: ExprTree, body: Seq<StmtTree> },
}

/// A node as plain data.
pub struct NodeView<T> {
    pub node: T,
    pub position: usize,
    pub source_id: usize,
}

pub type ExprTree = NodeView<ExprView>;

pub type StmtTree = NodeView<StmtView>;

/// An expression node as plain data.
pub open spec fn expr_tree(expr: ExprNode) -> ExprTree
    decreases expr,
{
    NodeView {
        node: match expr.node {
            Expr::Number(n) => ExprView::Number(n),
            Expr::Variable(name) => ExprView::Variable(name@),
            Expr::Binary { left, operator, right } => ExprView::Binary {
                left: Box::new(expr_tree(*left)),
                operator: operator,
                right: Box::new(expr_tree(*right)),
            },
            Expr::Unary { operator, operand } => ExprView::Unary {
                operator: operator,
                operand: Box::new(expr_tree(*operand)),
            },
            Expr::Resolved { name, id } => ExprView::Resolved { name: name@, id: id },
        },
        position: expr.position,
        source_id: expr.source_id,
    }
}

/// A statement node as plain data.
pub open spec fn stmt_tree(stmt: StmtNode) -> StmtTree
    decreases stmt, 0nat,
{
    NodeView {
        node: match stmt.node {
            Stmt::Declare { target, value } => StmtView::Declare {
                target: expr_tree(target),
                value: expr_tree(value),
            },
            Stmt::Assign { target, value } => StmtView::Assign {
                target: expr_tree(target),
                value: expr_tree(value),
            },
            Stmt::If { condition, body } => StmtView::If {
                condition: expr_tree(condition),
                body: stmt_trees(body@, body@.len()),
            },
            Stmt::While { condition, body } => StmtView::While {
                condition: expr_tree(condition),
                body: stmt_trees(body@, body@.len()),
            },
        },
        position: stmt.position,
        source_id: stmt.source_id,
    }
}

/// The first `count` statement nodes as plain data.
pub open spec fn stmt_trees(stmts: Seq<StmtNode>, count: nat) -> Seq<StmtTree>
    decreases stmts, count,
{
    if count == 0 || count > stmts.len() {
        Seq::empty()
    } else {
        stmt_trees(stmts, (count - 1) as nat).push(stmt_tree(stmts[count - 1]))
    }
}

/// The nodes of statements depend on the statements that are counted
/// alone.
pub proof fn lemma_stmt_trees_prefix(a: Seq<StmtNode>, b: Seq<StmtNode>, count: nat)
    requires
        count <= a.len(),
        count <= b.len(),
        forall|i: int| 0 <= i < count ==> a[i] == b[i],
    ensures
        stmt_trees(a, count) == stmt_trees(b, count),
    decreases count,
{
    if count > 0 {
        lemma_stmt_trees_prefix(a, b, (count - 1) as nat);
    }
}

/// The nodes of statements with one more appended.
pub proof fn lemma_stmt_trees_push(stmts: Seq<StmtNode>, stmt: StmtNode)
    ensures
        stmt_trees(stmts.push(stmt), stmts.len() + 1) == stmt_trees(stmts, stmts.len()).push(
            stmt_tree(stmt),
        ),
{
    lemma_stmt_trees_prefix(stmts, stmts.push(stmt), stmts.len());
}

} // verus!
