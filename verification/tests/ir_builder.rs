use torch::ast::{AstNode, Expr, ExprNode, Stmt, StmtNode};
use torch::errors::Fault;
use torch::instructions::{Instr, Label, Value};
use torch::ir_builder::IrBuilder;
use torch::symbols::{Scope, Symbol, SymbolTable};
use torch::token::TokenType;

fn expr(node: Expr) -> ExprNode {
    AstNode { node, position: 0, source_id: 0 }
}

fn stmt(node: Stmt) -> StmtNode {
    AstNode { node, position: 0, source_id: 0 }
}

fn num(n: i32) -> ExprNode {
    expr(Expr::Number(n))
}

fn var(name: &str, id: u32) -> ExprNode {
    expr(Expr::Resolved { name: name.to_string(), id })
}

fn unbound(name: &str) -> ExprNode {
    expr(Expr::Variable(name.to_string()))
}

fn binary(left: ExprNode, operator: TokenType, right: ExprNode) -> ExprNode {
    expr(Expr::Binary { left: Box::new(left), operator, right: Box::new(right) })
}

fn unary(operator: TokenType, operand: ExprNode) -> ExprNode {
    expr(Expr::Unary { operator, operand: Box::new(operand) })
}

fn assign(name: &str, id: u32, value: ExprNode) -> StmtNode {
    stmt(Stmt::Assign { target: var(name, id), value })
}

fn table_of(names: &[&str]) -> SymbolTable {
    let mut table = SymbolTable::new();
    for name in names {
        table.define(name, 0, 0).unwrap();
    }
    table
}

fn build(table: &SymbolTable, program: Vec<StmtNode>) -> Result<Vec<Instr>, Fault> {
    let mut builder = IrBuilder::new(table);
    builder.build(&program).map(|instrs| instrs.clone())
}

#[test]
fn a_literal_without_target_emits_nothing() {
    let table = table_of(&["x"]);
    let mut builder = IrBuilder::new(&table);
    assert_eq!(builder.lower_expr(&Expr::Number(9), None), Ok(Value::Const(9)));
    assert_eq!(builder.lower_expr(&var("x", 0).node, None), Ok(Value::Var(0)));
    assert_eq!(builder.build(&vec![]).unwrap().len(), 0);
}

#[test]
fn a_literal_with_target_is_moved() {
    let table = table_of(&["x", "y"]);
    let mut builder = IrBuilder::new(&table);
    assert_eq!(builder.lower_expr(&Expr::Number(9), Some(Value::Var(1))), Ok(Value::Var(1)));
    assert_eq!(
        builder.lower_expr(&var("x", 0).node, Some(Value::Var(1))),
        Ok(Value::Var(1))
    );
    assert_eq!(
        builder.build(&vec![]).unwrap(),
        &vec![
            Instr::Move { dst: Value::Var(1), src: Value::Const(9) },
            Instr::Move { dst: Value::Var(1), src: Value::Var(0) },
        ]
    );
}

#[test]
fn operators_select_their_instruction() {
    let table = table_of(&["a", "b", "c"]);
    let program = vec![
        assign("c", 2, binary(var("a", 0), TokenType::PLUS, var("b", 1))),
        assign("c", 2, binary(var("a", 0), TokenType::MINUS, var("b", 1))),
        assign("c", 2, binary(var("a", 0), TokenType::GT, var("b", 1))),
    ];
    assert_eq!(
        build(&table, program).unwrap(),
        vec![
            Instr::Add { dst: Value::Var(2), lhs: Value::Var(0), rhs: Value::Var(1) },
            Instr::Sub { dst: Value::Var(2), lhs: Value::Var(0), rhs: Value::Var(1) },
            Instr::CmpGt { dst: Value::Var(2), lhs: Value::Var(0), rhs: Value::Var(1) },
        ]
    );
}

#[test]
fn operands_are_lowered_left_before_right() {
    let table = table_of(&["a", "b", "c", "d", "r"]);
    // r = (a + b) - (c + d)
    let program = vec![assign(
        "r",
        4,
        binary(
            binary(var("a", 0), TokenType::PLUS, var("b", 1)),
            TokenType::MINUS,
            binary(var("c", 2), TokenType::PLUS, var("d", 3)),
        ),
    )];
    assert_eq!(
        build(&table, program).unwrap(),
        vec![
            Instr::Add { dst: Value::Temp(5), lhs: Value::Var(0), rhs: Value::Var(1) },
            Instr::Add { dst: Value::Temp(6), lhs: Value::Var(2), rhs: Value::Var(3) },
            Instr::Sub { dst: Value::Var(4), lhs: Value::Temp(5), rhs: Value::Temp(6) },
        ]
    );
}

#[test]
fn negation_subtracts_from_zero() {
    let table = table_of(&["a", "r"]);
    let program = vec![
        assign("r", 1, unary(TokenType::MINUS, var("a", 0))),
        assign("r", 1, unary(TokenType::MINUS, unary(TokenType::MINUS, num(3)))),
    ];
    assert_eq!(
        build(&table, program).unwrap(),
        vec![
            Instr::Sub { dst: Value::Var(1), lhs: Value::Const(0), rhs: Value::Var(0) },
            Instr::Sub { dst: Value::Temp(2), lhs: Value::Const(0), rhs: Value::Const(3) },
            Instr::Sub { dst: Value::Var(1), lhs: Value::Const(0), rhs: Value::Temp(2) },
        ]
    );
}

#[test]
fn declaration_and_assignment_are_lowered_alike() {
    let table = table_of(&["x"]);
    let declared = build(
        &table,
        vec![stmt(Stmt::Declare { target: var("x", 0), value: binary(num(1), TokenType::PLUS, num(2)) })],
    );
    let assigned = build(&table, vec![assign("x", 0, binary(num(1), TokenType::PLUS, num(2)))]);
    assert_eq!(declared, assigned);
    assert_eq!(
        declared.unwrap(),
        vec![Instr::Add { dst: Value::Var(0), lhs: Value::Const(1), rhs: Value::Const(2) }]
    );
}

#[test]
fn nested_loops_take_labels_in_order() {
    let table = table_of(&["x", "y"]);
    let inner = stmt(Stmt::While { condition: var("y", 1), body: vec![assign("y", 1, num(0))] });
    let outer = stmt(Stmt::While {
        condition: binary(var("x", 0), TokenType::GT, var("y", 1)),
        body: vec![inner, assign("x", 0, num(0))],
    });
    assert_eq!(
        build(&table, vec![outer]).unwrap(),
        vec![
            Instr::Label(Label(0)),
            Instr::CmpGt { dst: Value::Temp(2), lhs: Value::Var(0), rhs: Value::Var(1) },
            Instr::JumpIfFalse { cond: Value::Temp(2), target: Label(1) },
            Instr::Label(Label(2)),
            Instr::JumpIfFalse { cond: Value::Var(1), target: Label(3) },
            Instr::Move { dst: Value::Var(1), src: Value::Const(0) },
            Instr::Jump(Label(2)),
            Instr::Label(Label(3)),
            Instr::Move { dst: Value::Var(0), src: Value::Const(0) },
            Instr::Jump(Label(0)),
            Instr::Label(Label(1)),
        ]
    );
}

#[test]
fn an_empty_loop_still_jumps() {
    let table = table_of(&[]);
    let program = vec![stmt(Stmt::While { condition: num(1), body: vec![] })];
    assert_eq!(
        build(&table, program).unwrap(),
        vec![
            Instr::Label(Label(0)),
            Instr::JumpIfFalse { cond: Value::Const(1), target: Label(1) },
            Instr::Jump(Label(0)),
            Instr::Label(Label(1)),
        ]
    );
}

#[test]
fn temporaries_start_above_the_greatest_symbol_id() {
    // An empty table: temporaries start at 1.
    let empty = table_of(&[]);
    let mut builder = IrBuilder::new(&empty);
    assert_eq!(
        builder.lower_expr(&binary(num(1), TokenType::GT, num(2)).node, None),
        Ok(Value::Temp(1))
    );
    // Ids 0, 1, 2: temporaries start at 3.
    let three = table_of(&["a", "b", "c"]);
    let mut builder = IrBuilder::new(&three);
    assert_eq!(
        builder.lower_expr(&binary(num(1), TokenType::GT, num(2)).node, None),
        Ok(Value::Temp(3))
    );
    assert_eq!(
        builder.lower_expr(&binary(num(1), TokenType::GT, num(2)).node, None),
        Ok(Value::Temp(4))
    );
}

#[test]
fn temporaries_avoid_ids_in_scopes_that_were_left() {
    let mut table = SymbolTable::new();
    table.define("a", 0, 0).unwrap();
    table.begin_scope();
    table.define("b", 0, 0).unwrap();
    table.define("c", 0, 0).unwrap();
    table.end_scope();
    let program = vec![assign("a", 0, binary(binary(var("b", 1), TokenType::PLUS, var("c", 2)), TokenType::PLUS, var("a", 0)))];
    let built = build(&table, program).unwrap();
    assert_eq!(
        built,
        vec![
            Instr::Add { dst: Value::Temp(3), lhs: Value::Var(1), rhs: Value::Var(2) },
            Instr::Add { dst: Value::Var(0), lhs: Value::Temp(3), rhs: Value::Var(0) },
        ]
    );
}

#[test]
fn temporaries_differ_from_variables_whatever_the_table_holds() {
    // A table built by hand, with ids out of order and with gaps.
    let symbol = |name: &str, id: u32| Symbol { name: name.to_string(), position: 0, source_id: 0, id };
    let table = SymbolTable {
        scopes: vec![
            Scope { symbols: vec![symbol("a", 40), symbol("b", 7)], parent: None },
            Scope { symbols: vec![symbol("c", 41)], parent: Some(0) },
        ],
        current: 0,
        next_id: 3,
    };
    let program = vec![assign("a", 40, binary(binary(var("b", 7), TokenType::PLUS, var("c", 41)), TokenType::PLUS, var("a", 40)))];
    assert_eq!(
        build(&table, program).unwrap(),
        vec![
            Instr::Add { dst: Value::Temp(42), lhs: Value::Var(7), rhs: Value::Var(41) },
            Instr::Add { dst: Value::Var(40), lhs: Value::Temp(42), rhs: Value::Var(40) },
        ]
    );
}

#[test]
fn unsupported_binary_operator_is_a_fault() {
    let table = table_of(&["x"]);
    for operator in [TokenType::ASTERISK, TokenType::SLASH, TokenType::LT, TokenType::EQ, TokenType::EOF] {
        assert_eq!(
            build(&table, vec![assign("x", 0, binary(num(1), operator, num(2)))]),
            Err(Fault::UnsupportedOperator)
        );
    }
}

#[test]
fn unsupported_unary_operator_is_a_fault() {
    let table = table_of(&["x"]);
    assert_eq!(
        build(&table, vec![assign("x", 0, unary(TokenType::PLUS, num(2)))]),
        Err(Fault::UnsupportedUnary)
    );
}

#[test]
fn a_target_that_is_no_variable_is_a_fault() {
    let table = table_of(&["x"]);
    assert_eq!(
        build(&table, vec![stmt(Stmt::Assign { target: num(1), value: num(2) })]),
        Err(Fault::InvalidTarget)
    );
    assert_eq!(
        build(
            &table,
            vec![stmt(Stmt::Declare {
                target: binary(var("x", 0), TokenType::PLUS, num(1)),
                value: num(2),
            })]
        ),
        Err(Fault::InvalidTarget)
    );
}

#[test]
fn a_variable_is_the_location_that_it_is_bound_to() {
    // The id comes with the variable, not from the name: two variables of
    // one name in different scopes stay apart.
    let table = table_of(&["x"]);
    let program = vec![
        assign("x", 0, var("x", 5)),
        assign("x", 5, binary(var("x", 0), TokenType::PLUS, var("x", 5))),
    ];
    assert_eq!(
        build(&table, program).unwrap(),
        vec![
            Instr::Move { dst: Value::Var(0), src: Value::Var(5) },
            Instr::Add { dst: Value::Var(5), lhs: Value::Var(0), rhs: Value::Var(5) },
        ]
    );
}

#[test]
fn a_conditional_is_a_fault() {
    let table = table_of(&["x"]);
    assert_eq!(
        build(&table, vec![stmt(Stmt::If { condition: var("x", 0), body: vec![] })]),
        Err(Fault::UnsupportedStatement)
    );
}

#[test]
fn an_unknown_name_is_a_fault() {
    let table = table_of(&["x"]);
    assert_eq!(
        build(&table, vec![stmt(Stmt::Assign { target: unbound("y"), value: num(1) })]),
        Err(Fault::UnresolvedSymbol)
    );
    // A name is not looked up again: a variable without a symbol is a
    // fault, whatever the table holds.
    assert_eq!(
        build(&table, vec![stmt(Stmt::Declare { target: unbound("x"), value: num(1) })]),
        Err(Fault::UnresolvedSymbol)
    );
    assert_eq!(build(&table, vec![assign("x", 0, unbound("x"))]), Err(Fault::UnresolvedSymbol));
    assert_eq!(build(&table, vec![assign("x", 0, unbound("y"))]), Err(Fault::UnresolvedSymbol));
}

#[test]
fn the_first_fault_in_order_is_reported() {
    let table = table_of(&["x"]);
    // The left operand is lowered first, so the unknown name is met before
    // the operator is looked at.
    assert_eq!(
        build(&table, vec![assign("x", 0, binary(unbound("y"), TokenType::ASTERISK, num(1)))]),
        Err(Fault::UnresolvedSymbol)
    );
    // What was emitted before the fault stays with the builder.
    let mut builder = IrBuilder::new(&table);
    let program = vec![
        assign("x", 0, num(1)),
        stmt(Stmt::Assign { target: unbound("y"), value: num(2) }),
        assign("x", 0, num(3)),
    ];
    assert_eq!(builder.build(&program).err(), Some(Fault::UnresolvedSymbol));
    assert_eq!(
        builder.build(&vec![]).unwrap(),
        &vec![Instr::Move { dst: Value::Var(0), src: Value::Const(1) }]
    );
}

#[test]
fn no_temporary_left_is_a_fault_of_the_builder() {
    let table = SymbolTable {
        scopes: vec![Scope {
            symbols: vec![Symbol { name: "x".to_string(), position: 0, source_id: 0, id: u32::MAX }],
            parent: None,
        }],
        current: 0,
        next_id: 0,
    };
    // With a target no temporary is needed.
    assert_eq!(
        build(&table, vec![assign("x", u32::MAX, binary(num(1), TokenType::PLUS, num(2)))]),
        Ok(vec![Instr::Add { dst: Value::Var(u32::MAX), lhs: Value::Const(1), rhs: Value::Const(2) }])
    );
    assert_eq!(
        build(
            &table,
            vec![assign("x", u32::MAX, binary(binary(num(1), TokenType::PLUS, num(2)), TokenType::PLUS, num(3)))]
        ),
        Err(Fault::IdExhausted)
    );
}

#[test]
fn build_appends_to_what_was_built() {
    let table = table_of(&["x"]);
    let mut builder = IrBuilder::new(&table);
    assert_eq!(builder.build(&vec![assign("x", 0, num(1))]).unwrap().len(), 1);
    assert_eq!(
        builder.build(&vec![assign("x", 0, num(2))]).unwrap(),
        &vec![
            Instr::Move { dst: Value::Var(0), src: Value::Const(1) },
            Instr::Move { dst: Value::Var(0), src: Value::Const(2) },
        ]
    );
}

#[test]
fn every_fault_has_a_message() {
    assert_eq!(Fault::UnsupportedOperator.message(), "unsupported binary operator");
    assert_eq!(Fault::UnsupportedUnary.message(), "unsupported unary operator");
    assert_eq!(Fault::InvalidTarget.message(), "invalid assignment or declaration target");
    assert_eq!(Fault::UnsupportedStatement.message(), "unsupported statement");
    assert_eq!(Fault::UnresolvedSymbol.message(), "could not resolve symbol");
    assert_eq!(Fault::IdExhausted.message(), "no fresh identifier left");
    assert_eq!(Fault::NoLocation.message(), "value does not have an id");
}
