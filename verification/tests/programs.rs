use torch::ast::{AstNode, Expr, ExprNode, Stmt, StmtNode};
use torch::errors::Fault;
use torch::instructions::{Instr, Label, Value};
use torch::ir_builder::IrBuilder;
use torch::legalizer::Legalizer;
use torch::register_allocator::Allocator;
use torch::resolver::Resolver;
use torch::symbols::SymbolTable;
use torch::token::TokenType;

fn expr(node: Expr) -> ExprNode {
    AstNode { node, position: 0, source_id: 0 }
}

fn stmt(node: Stmt) -> StmtNode {
    AstNode { node, position: 0, source_id: 0 }
}

fn num(n: i32) -> ExprNode {
    expr(Expr::Number(n))
}

fn var(name: &str) -> ExprNode {
    expr(Expr::Variable(name.to_string()))
}

fn binary(left: ExprNode, operator: TokenType, right: ExprNode) -> ExprNode {
    expr(Expr::Binary { left: Box::new(left), operator, right: Box::new(right) })
}

fn declare(name: &str, value: ExprNode) -> StmtNode {
    stmt(Stmt::Declare { target: var(name), value })
}

fn assign(name: &str, value: ExprNode) -> StmtNode {
    stmt(Stmt::Assign { target: var(name), value })
}

fn table_of(names: &[&str]) -> SymbolTable {
    let mut table = SymbolTable::new();
    for name in names {
        table.define(name, 0, 0).unwrap();
    }
    table
}

fn lower(mut table: SymbolTable, program: &Vec<StmtNode>) -> Vec<Instr> {
    let resolved = Resolver::new(&mut table).resolve_program(program).unwrap();
    let mut builder = IrBuilder::new(&table);
    builder.build(&resolved).unwrap().clone()
}

fn legalize(raw: &Vec<Instr>) -> Vec<Instr> {
    Legalizer::new(raw).legalize().unwrap()
}

fn countdown() -> StmtNode {
    stmt(Stmt::While {
        condition: binary(var("x"), TokenType::GT, num(0)),
        body: vec![assign("x", binary(var("x"), TokenType::MINUS, num(1)))],
    })
}

fn control_flow(instrs: &Vec<Instr>) -> Vec<Instr> {
    instrs
        .iter()
        .filter(|i| matches!(i, Instr::Label(_) | Instr::Jump(_) | Instr::JumpIfFalse { .. }))
        .cloned()
        .collect()
}

#[test]
fn three_variables_get_three_registers() {
    let table = table_of(&[]);
    let program = vec![
        declare("x", num(1)),
        declare("y", num(2)),
        declare("z", binary(var("x"), TokenType::PLUS, var("y"))),
    ];

    let raw = lower(table, &program);
    assert_eq!(
        raw,
        vec![
            Instr::Move { dst: Value::Var(0), src: Value::Const(1) },
            Instr::Move { dst: Value::Var(1), src: Value::Const(2) },
            Instr::Add { dst: Value::Var(2), lhs: Value::Var(0), rhs: Value::Var(1) },
        ]
    );

    let legal = legalize(&raw);
    assert_eq!(
        legal,
        vec![
            Instr::Immediate { dst: Value::Var(0), value: Value::Const(1) },
            Instr::Immediate { dst: Value::Var(1), value: Value::Const(2) },
            Instr::Add { dst: Value::Var(2), lhs: Value::Var(0), rhs: Value::Var(1) },
        ]
    );

    let mut allocator = Allocator::new();
    let allocated = allocator.allocate(&legal).unwrap();
    assert_eq!(
        allocated,
        vec![
            Instr::Immediate { dst: Value::Reg(0), value: Value::Const(1) },
            Instr::Immediate { dst: Value::Reg(1), value: Value::Const(2) },
            Instr::Add { dst: Value::Reg(2), lhs: Value::Reg(0), rhs: Value::Reg(1) },
        ]
    );
    assert!(!allocated.iter().any(|i| matches!(i, Instr::Store { .. } | Instr::Load { .. })));
    assert_eq!(allocator.spilled(), vec![]);
    assert_eq!(allocator.register(0), Some(Value::Var(0)));
    assert_eq!(allocator.register(1), Some(Value::Var(1)));
    assert_eq!(allocator.register(2), Some(Value::Var(2)));
    assert_eq!(allocator.register(3), None);
}

#[test]
fn a_difference_of_literals_is_folded() {
    let table = table_of(&[]);
    let program = vec![declare("x", binary(num(5), TokenType::MINUS, num(2)))];
    let raw = lower(table, &program);
    assert_eq!(
        raw,
        vec![Instr::Sub { dst: Value::Var(0), lhs: Value::Const(5), rhs: Value::Const(2) }]
    );
    assert_eq!(
        legalize(&raw),
        vec![Instr::Immediate { dst: Value::Var(0), value: Value::Const(3) }]
    );
}

#[test]
fn a_loop_is_lowered_to_labels_and_jumps() {
    let table = table_of(&["x"]);
    let raw = lower(table, &vec![countdown()]);
    assert_eq!(
        raw,
        vec![
            Instr::Label(Label(0)),
            Instr::CmpGt { dst: Value::Temp(1), lhs: Value::Var(0), rhs: Value::Const(0) },
            Instr::JumpIfFalse { cond: Value::Temp(1), target: Label(1) },
            Instr::Sub { dst: Value::Var(0), lhs: Value::Var(0), rhs: Value::Const(1) },
            Instr::Jump(Label(0)),
            Instr::Label(Label(1)),
        ]
    );
    assert_eq!(
        legalize(&raw),
        vec![
            Instr::Label(Label(0)),
            Instr::CmpGt { dst: Value::Temp(1), lhs: Value::Var(0), rhs: Value::Const(0) },
            Instr::JumpIfFalse { cond: Value::Temp(1), target: Label(1) },
            Instr::Immediate { dst: Value::Temp(2), value: Value::Const(1) },
            Instr::Sub { dst: Value::Var(0), lhs: Value::Var(0), rhs: Value::Temp(2) },
            Instr::Jump(Label(0)),
            Instr::Label(Label(1)),
        ]
    );
}

#[test]
fn one_register_cannot_hold_two_operands() {
    let table = table_of(&["x"]);
    let legal = legalize(&lower(table, &vec![countdown()]));
    let mut allocator = Allocator::with_registers(1);
    assert_eq!(allocator.allocate(&legal), Err(Fault::NoSpillCandidate));
    // The subtraction needs its right operand while the register that
    // holds the left one is locked. Up to there a value was evicted by a
    // store, and the control flow was emitted in order.
    assert_eq!(
        allocator.emitted(),
        vec![
            Instr::Label(Label(0)),
            Instr::CmpGt { dst: Value::Temp(1), lhs: Value::Var(0), rhs: Value::Const(0) },
            Instr::JumpIfFalse { cond: Value::Temp(1), target: Label(1) },
            Instr::Immediate { dst: Value::Reg(0), value: Value::Const(1) },
            Instr::Store { dst: Value::Temp(2), src: Value::Reg(0) },
            Instr::Load { dst: Value::Reg(0), src: Value::Var(0) },
        ]
    );
    assert_eq!(allocator.spilled(), vec![Value::Temp(2)]);
}

#[test]
fn three_registers_take_the_loop_without_a_spill() {
    let table = table_of(&["x"]);
    let legal = legalize(&lower(table, &vec![countdown()]));
    let mut allocator = Allocator::with_registers(3);
    let allocated = allocator.allocate(&legal).unwrap();
    assert_eq!(
        allocated,
        vec![
            Instr::Label(Label(0)),
            Instr::CmpGt { dst: Value::Temp(1), lhs: Value::Var(0), rhs: Value::Const(0) },
            Instr::JumpIfFalse { cond: Value::Temp(1), target: Label(1) },
            Instr::Immediate { dst: Value::Reg(0), value: Value::Const(1) },
            Instr::Load { dst: Value::Reg(1), src: Value::Var(0) },
            Instr::Sub { dst: Value::Reg(2), lhs: Value::Reg(1), rhs: Value::Reg(0) },
            Instr::Jump(Label(0)),
            Instr::Label(Label(1)),
        ]
    );
    assert_eq!(control_flow(&allocated), control_flow(&legal));
}

#[test]
fn a_store_is_followed_by_a_matching_load() {
    let table = table_of(&[]);
    let program = vec![
        declare("x", num(5)),
        declare("y", num(6)),
        declare("z", num(7)),
        countdown(),
    ];
    let legal = legalize(&lower(table, &program));
    let mut allocator = Allocator::with_registers(3);
    let allocated = allocator.allocate(&legal).unwrap();
    assert_eq!(
        allocated,
        vec![
            Instr::Immediate { dst: Value::Reg(0), value: Value::Const(5) },
            Instr::Immediate { dst: Value::Reg(1), value: Value::Const(6) },
            Instr::Immediate { dst: Value::Reg(2), value: Value::Const(7) },
            Instr::Label(Label(0)),
            Instr::CmpGt { dst: Value::Temp(3), lhs: Value::Var(0), rhs: Value::Const(0) },
            Instr::JumpIfFalse { cond: Value::Temp(3), target: Label(1) },
            Instr::Store { dst: Value::Var(0), src: Value::Reg(0) },
            Instr::Immediate { dst: Value::Reg(0), value: Value::Const(1) },
            Instr::Store { dst: Value::Temp(4), src: Value::Reg(0) },
            Instr::Load { dst: Value::Reg(0), src: Value::Var(0) },
            Instr::Store { dst: Value::Var(1), src: Value::Reg(1) },
            Instr::Load { dst: Value::Reg(1), src: Value::Temp(4) },
            Instr::Store { dst: Value::Var(2), src: Value::Reg(2) },
            Instr::Sub { dst: Value::Reg(2), lhs: Value::Reg(0), rhs: Value::Reg(1) },
            Instr::Jump(Label(0)),
            Instr::Label(Label(1)),
        ]
    );
    let store = allocated
        .iter()
        .position(|i| matches!(i, Instr::Store { dst: Value::Var(0), .. }))
        .unwrap();
    let load = allocated
        .iter()
        .position(|i| matches!(i, Instr::Load { src: Value::Var(0), .. }))
        .unwrap();
    assert!(store < load);
    assert_eq!(control_flow(&allocated), control_flow(&legal));
    assert_eq!(
        allocator.spilled(),
        vec![Value::Var(0), Value::Temp(4), Value::Var(1), Value::Var(2)]
    );
}

#[test]
fn every_register_locked_is_a_fault() {
    let mut allocator = Allocator::new();
    let locked = [0u8, 1, 2, 3, 4, 5, 6];
    assert_eq!(
        allocator.allocate_register(&Value::Var(0), &locked),
        Err(Fault::NoSpillCandidate)
    );
    assert_eq!(allocator.pick_spill_register(&locked), Err(Fault::NoSpillCandidate));
    assert_eq!(Fault::NoSpillCandidate.message(), "no register available to spill");
    // Nothing was emitted, and no register was touched.
    assert_eq!(allocator.emitted(), vec![]);
    assert_eq!(allocator.spilled(), vec![]);
    for reg in 0..7 {
        assert_eq!(allocator.register(reg), None);
        assert!(!allocator.is_dirty(reg));
    }
}

#[test]
fn all_locked_with_full_registers_spills_nothing() {
    let mut allocator = Allocator::with_registers(2);
    assert_eq!(allocator.allocate_register(&Value::Var(0), &[]), Ok(0));
    assert_eq!(allocator.allocate_register(&Value::Var(1), &[]), Ok(1));
    assert_eq!(
        allocator.allocate_register(&Value::Var(2), &[1, 0]),
        Err(Fault::NoSpillCandidate)
    );
    assert_eq!(allocator.register(0), Some(Value::Var(0)));
    assert_eq!(allocator.register(1), Some(Value::Var(1)));
    assert_eq!(allocator.emitted(), vec![]);
}
