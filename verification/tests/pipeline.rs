use torch::errors::{CompileError, ErrorReporter, Fault};
use torch::instructions::{Instr, Label, Value};
use torch::ir_builder::IrBuilder;
use torch::legalizer::Legalizer;
use torch::lexer::Lexer;
use torch::parser::Parser;
use torch::register_allocator::Allocator;
use torch::resolver::Resolver;
use torch::source::Source;
use torch::source_map::SourceMap;
use torch::symbols::SymbolTable;

struct Stages {
    raw: Vec<Instr>,
    legal: Vec<Instr>,
    allocated: Result<Vec<Instr>, Fault>,
}

fn front(text: &str) -> Result<(Vec<torch::ast::StmtNode>, SymbolTable), String> {
    let mut map = SourceMap::new();
    map.add(Source::new(text.to_string(), "main.torch".to_string()));
    let report = |map: &SourceMap, error: CompileError| ErrorReporter::render(map, &error);
    let tokens = match Lexer::new(&mut map).read_all() {
        Ok(tokens) => tokens,
        Err(error) => return Err(report(&map, error)),
    };
    let program = match Parser::new(tokens).parse_program() {
        Ok(program) => program,
        Err(error) => return Err(report(&map, error)),
    };
    let mut table = SymbolTable::new();
    match Resolver::new(&mut table).resolve_program(&program) {
        Ok(resolved) => Ok((resolved, table)),
        Err(error) => Err(report(&map, error)),
    }
}

fn compile(text: &str, registers: u8) -> Stages {
    let (program, table) = front(text).unwrap();
    let mut builder = IrBuilder::new(&table);
    let raw = builder.build(&program).unwrap().clone();
    let legal = Legalizer::new(&raw).legalize().unwrap();
    let allocated = Allocator::with_registers(registers).allocate(&legal);
    Stages { raw, legal, allocated }
}

#[test]
fn a_sum_of_variables_from_source() {
    let stages = compile("let x = 1; let y = 2; let z = x + y;", 7);
    assert_eq!(
        stages.raw,
        vec![
            Instr::Move { dst: Value::Var(0), src: Value::Const(1) },
            Instr::Move { dst: Value::Var(1), src: Value::Const(2) },
            Instr::Add { dst: Value::Var(2), lhs: Value::Var(0), rhs: Value::Var(1) },
        ]
    );
    assert_eq!(
        stages.legal,
        vec![
            Instr::Immediate { dst: Value::Var(0), value: Value::Const(1) },
            Instr::Immediate { dst: Value::Var(1), value: Value::Const(2) },
            Instr::Add { dst: Value::Var(2), lhs: Value::Var(0), rhs: Value::Var(1) },
        ]
    );
    assert_eq!(
        stages.allocated,
        Ok(vec![
            Instr::Immediate { dst: Value::Reg(0), value: Value::Const(1) },
            Instr::Immediate { dst: Value::Reg(1), value: Value::Const(2) },
            Instr::Add { dst: Value::Reg(2), lhs: Value::Reg(0), rhs: Value::Reg(1) },
        ])
    );
}

#[test]
fn a_difference_of_literals_from_source() {
    let stages = compile("let x = 5 - 2;", 7);
    assert_eq!(
        stages.raw,
        vec![Instr::Sub { dst: Value::Var(0), lhs: Value::Const(5), rhs: Value::Const(2) }]
    );
    assert_eq!(
        stages.legal,
        vec![Instr::Immediate { dst: Value::Var(0), value: Value::Const(3) }]
    );
    assert_eq!(
        stages.allocated,
        Ok(vec![Instr::Immediate { dst: Value::Reg(0), value: Value::Const(3) }])
    );
}

#[test]
fn a_countdown_from_source() {
    let text = "let x = 3;\nwhile x > 0 {\n    x = x - 1;\n}\n";
    let stages = compile(text, 1);
    assert_eq!(
        stages.legal,
        vec![
            Instr::Immediate { dst: Value::Var(0), value: Value::Const(3) },
            Instr::Label(Label(0)),
            Instr::CmpGt { dst: Value::Temp(1), lhs: Value::Var(0), rhs: Value::Const(0) },
            Instr::JumpIfFalse { cond: Value::Temp(1), target: Label(1) },
            Instr::Immediate { dst: Value::Temp(2), value: Value::Const(1) },
            Instr::Sub { dst: Value::Var(0), lhs: Value::Var(0), rhs: Value::Temp(2) },
            Instr::Jump(Label(0)),
            Instr::Label(Label(1)),
        ]
    );
    assert_eq!(stages.allocated, Err(Fault::NoSpillCandidate));
    assert_eq!(
        compile(text, 3).allocated,
        Ok(vec![
            Instr::Immediate { dst: Value::Reg(0), value: Value::Const(3) },
            Instr::Label(Label(0)),
            Instr::CmpGt { dst: Value::Temp(1), lhs: Value::Var(0), rhs: Value::Const(0) },
            Instr::JumpIfFalse { cond: Value::Temp(1), target: Label(1) },
            Instr::Immediate { dst: Value::Reg(1), value: Value::Const(1) },
            Instr::Sub { dst: Value::Reg(2), lhs: Value::Reg(0), rhs: Value::Reg(1) },
            Instr::Jump(Label(0)),
            Instr::Label(Label(1)),
        ])
    );
}

#[test]
fn nested_literal_arithmetic_keeps_what_cannot_be_folded() {
    // A sum with a literal operand is folded at every level.
    let stages = compile("let x = 1 + 2 + 3;", 7);
    assert_eq!(
        stages.legal,
        vec![
            Instr::Immediate { dst: Value::Temp(1), value: Value::Const(3) },
            Instr::AddImmediate { dst: Value::Var(0), lhs: Value::Temp(1), imm: 3 },
        ]
    );
    // A difference of a result and a literal is not.
    let stages = compile("let x = 1 - 2 - 3;", 7);
    assert_eq!(
        stages.legal,
        vec![
            Instr::Immediate { dst: Value::Temp(1), value: Value::Const(-1) },
            Instr::Immediate { dst: Value::Temp(2), value: Value::Const(3) },
            Instr::Sub { dst: Value::Var(0), lhs: Value::Temp(1), rhs: Value::Temp(2) },
        ]
    );
    // Neither is a sum of two results.
    let stages = compile("let x = (1 + 2) + (3 + 4);", 7);
    assert_eq!(
        stages.legal,
        vec![
            Instr::Immediate { dst: Value::Temp(1), value: Value::Const(3) },
            Instr::Immediate { dst: Value::Temp(2), value: Value::Const(7) },
            Instr::Add { dst: Value::Var(0), lhs: Value::Temp(1), rhs: Value::Temp(2) },
        ]
    );
    // A negated literal is folded.
    let stages = compile("let x = -5;", 7);
    assert_eq!(
        stages.legal,
        vec![Instr::Immediate { dst: Value::Var(0), value: Value::Const(-5) }]
    );
}

#[test]
fn a_literal_on_the_left_of_a_difference_ends_up_on_the_right() {
    let stages = compile("let x = 1; let y = 10 - x;", 7);
    // The lowering takes no temporary here, so the legalizer starts its
    // own at 1, whatever ids the variables have.
    assert_eq!(
        stages.legal,
        vec![
            Instr::Immediate { dst: Value::Var(0), value: Value::Const(1) },
            Instr::Immediate { dst: Value::Temp(1), value: Value::Const(10) },
            Instr::Sub { dst: Value::Var(1), lhs: Value::Var(0), rhs: Value::Temp(1) },
        ]
    );
}

#[test]
fn diagnostics_of_every_front_end_stage_are_rendered() {
    assert_eq!(
        front("let x = 1;\nlet y = x ? 2;").err(),
        Some("error: unexpected character '?'\n --> main.torch:2:11".to_string())
    );
    assert_eq!(
        front("let x = 1;\nlet y = ;").err(),
        Some("error: expected expression, found SEMICOLON\n --> main.torch:2:9".to_string())
    );
    assert_eq!(
        front("let x = 1;\n\n  y = x;").err(),
        Some("error: use of undeclared variable `y`\n --> main.torch:3:5".to_string())
    );
    assert_eq!(
        front("let x = 1;\nlet x = 2;").err(),
        Some("error: variable `x` already declared in this scope\n --> main.torch:2:7".to_string())
    );
}

#[test]
fn what_the_front_end_accepts_is_not_always_lowered() {
    let (program, table) = front("let x = 2 * 3;").unwrap();
    assert_eq!(IrBuilder::new(&table).build(&program).err(), Some(Fault::UnsupportedOperator));
    let (program, table) = front("let x = 1; if x { x = 2; }").unwrap();
    assert_eq!(IrBuilder::new(&table).build(&program).err(), Some(Fault::UnsupportedStatement));
    let (program, table) = front("let x = 1 < 2;").unwrap();
    assert_eq!(IrBuilder::new(&table).build(&program).err(), Some(Fault::UnsupportedOperator));
}

#[test]
fn a_name_stands_for_the_variable_in_reach() {
    // The block uses the outer `a` before it declares one of its own, and
    // the outer one is meant again behind the block.
    let text = "let a = 1; while a > 0 { a = a - 1; let a = 5; a = a + 2; } a = 3;";
    let (program, table) = front(text).unwrap();
    let raw = IrBuilder::new(&table).build(&program).unwrap().clone();
    assert_eq!(
        raw,
        vec![
            Instr::Move { dst: Value::Var(0), src: Value::Const(1) },
            Instr::Label(Label(0)),
            Instr::CmpGt { dst: Value::Temp(2), lhs: Value::Var(0), rhs: Value::Const(0) },
            Instr::JumpIfFalse { cond: Value::Temp(2), target: Label(1) },
            Instr::Sub { dst: Value::Var(0), lhs: Value::Var(0), rhs: Value::Const(1) },
            Instr::Move { dst: Value::Var(1), src: Value::Const(5) },
            Instr::Add { dst: Value::Var(1), lhs: Value::Var(1), rhs: Value::Const(2) },
            Instr::Jump(Label(0)),
            Instr::Label(Label(1)),
            Instr::Move { dst: Value::Var(0), src: Value::Const(3) },
        ]
    );
}

#[test]
fn a_program_that_does_not_resolve_is_not_lowered() {
    let mut map = SourceMap::new();
    map.add(Source::new("let x = 1; let x = 2; x = 3;".to_string(), "main.torch".to_string()));
    let tokens = Lexer::new(&mut map).read_all().unwrap();
    let program = Parser::new(tokens).parse_program().unwrap();
    let mut table = SymbolTable::new();
    assert!(Resolver::new(&mut table).resolve_program(&program).is_err());
    assert_eq!(table.next_id, 1);
    assert_eq!(IrBuilder::new(&table).build(&program).err(), Some(Fault::UnresolvedSymbol));
}

#[test]
fn variables_of_blocks_get_ids_of_their_own() {
    let text = "let a = 1; while a > 0 { let b = a - 1; a = b; }";
    let stages = compile(text, 7);
    assert_eq!(
        stages.raw,
        vec![
            Instr::Move { dst: Value::Var(0), src: Value::Const(1) },
            Instr::Label(Label(0)),
            Instr::CmpGt { dst: Value::Temp(2), lhs: Value::Var(0), rhs: Value::Const(0) },
            Instr::JumpIfFalse { cond: Value::Temp(2), target: Label(1) },
            Instr::Sub { dst: Value::Var(1), lhs: Value::Var(0), rhs: Value::Const(1) },
            Instr::Move { dst: Value::Var(0), src: Value::Var(1) },
            Instr::Jump(Label(0)),
            Instr::Label(Label(1)),
        ]
    );
}
