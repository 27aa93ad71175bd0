use torch::ast::{AstNode, Expr, ExprNode, Stmt, StmtNode};
use torch::errors::CompileError;
use torch::lexer::Lexer;
use torch::parser::Parser;
use torch::source::Source;
use torch::source_map::SourceMap;
use torch::token::{Keyword, Token, TokenType, TokenValue};

fn tokens_of(text: &str) -> Vec<Token> {
    let mut map = SourceMap::new();
    map.add(Source::new(text.to_string(), "main.torch".to_string()));
    Lexer::new(&mut map).read_all().unwrap()
}

fn parse(text: &str) -> Result<Vec<StmtNode>, CompileError> {
    Parser::new(tokens_of(text)).parse_program()
}

fn expr(node: Expr, position: usize) -> ExprNode {
    AstNode { node, position, source_id: 0 }
}

fn stmt(node: Stmt, position: usize) -> StmtNode {
    AstNode { node, position, source_id: 0 }
}

fn num(n: i32, position: usize) -> ExprNode {
    expr(Expr::Number(n), position)
}

fn var(name: &str, position: usize) -> ExprNode {
    expr(Expr::Variable(name.to_string()), position)
}

fn binary(left: ExprNode, operator: TokenType, right: ExprNode) -> ExprNode {
    let position = left.position;
    expr(Expr::Binary { left: Box::new(left), operator, right: Box::new(right) }, position)
}

fn negate(operand: ExprNode, position: usize) -> ExprNode {
    expr(Expr::Unary { operator: TokenType::MINUS, operand: Box::new(operand) }, position)
}

fn error(message: &str, position: usize) -> CompileError {
    CompileError { message: message.to_string(), position, source_id: 0 }
}

/// The value of the declaration `let v = ...;`, which starts at offset 8.
fn value_of(text: &str) -> ExprNode {
    let mut program = parse(&format!("let v = {};", text)).unwrap();
    assert_eq!(program.len(), 1);
    match program.remove(0).node {
        Stmt::Declare { value, .. } => value,
        other => panic!("no declaration: {:?}", other),
    }
}

#[test]
fn an_empty_program_has_no_statements() {
    assert_eq!(parse(""), Ok(vec![]));
    assert_eq!(parse("  # nothing\n"), Ok(vec![]));
    assert_eq!(Parser::new(vec![]).parse_program(), Ok(vec![]));
}

#[test]
fn a_declaration_has_the_place_of_its_keyword() {
    // 0123456789
    // let x = 1;
    assert_eq!(
        parse("let x = 1;"),
        Ok(vec![stmt(Stmt::Declare { target: var("x", 6), value: num(1, 9) }, 0)])
    );
}

#[test]
fn an_assignment_has_the_place_of_its_target() {
    //   01234567
    //   x = y;
    assert_eq!(
        parse("  x = y;"),
        Ok(vec![stmt(Stmt::Assign { target: var("x", 4), value: var("y", 7) }, 4)])
    );
}

#[test]
fn a_number_and_a_variable_have_the_place_of_what_follows() {
    //          8   12
    // let v = 12 + abc;
    assert_eq!(
        value_of("12 + abc"),
        binary(num(12, 11), TokenType::PLUS, var("abc", 16))
    );
}

#[test]
fn operators_of_one_level_associate_to_the_left() {
    // let v = 1 - 2 - 3;
    assert_eq!(
        value_of("1 - 2 - 3"),
        binary(binary(num(1, 10), TokenType::MINUS, num(2, 14)), TokenType::MINUS, num(3, 17))
    );
    assert_eq!(
        value_of("8 / 4 * 2"),
        binary(binary(num(8, 10), TokenType::SLASH, num(4, 14)), TokenType::ASTERISK, num(2, 17))
    );
    assert_eq!(
        value_of("1 < 2 > 3"),
        binary(binary(num(1, 10), TokenType::LT, num(2, 14)), TokenType::GT, num(3, 17))
    );
}

#[test]
fn a_product_binds_more_than_a_sum_and_a_sum_more_than_a_comparison() {
    // let v = 1 + 2 * 3 > 4 - 5;
    assert_eq!(
        value_of("1 + 2 * 3 > 4 - 5"),
        binary(
            binary(num(1, 10), TokenType::PLUS, binary(num(2, 14), TokenType::ASTERISK, num(3, 18))),
            TokenType::GT,
            binary(num(4, 22), TokenType::MINUS, num(5, 25)),
        )
    );
}

#[test]
fn every_comparison_operator_is_known() {
    for (text, operator) in [
        (">", TokenType::GT),
        (">=", TokenType::GTE),
        ("<", TokenType::LT),
        ("<=", TokenType::LTE),
        ("==", TokenType::EQ),
        ("!=", TokenType::NEQ),
    ] {
        match value_of(&format!("a {} b", text)).node {
            Expr::Binary { operator: found, .. } => assert_eq!(found, operator),
            other => panic!("no comparison: {:?}", other),
        }
    }
}

#[test]
fn parentheses_group() {
    // let v = (1 + 2) * 3;
    assert_eq!(
        value_of("(1 + 2) * 3"),
        binary(binary(num(1, 11), TokenType::PLUS, num(2, 14)), TokenType::ASTERISK, num(3, 19))
    );
    assert_eq!(value_of("((7))"), num(7, 11));
}

#[test]
fn a_negation_has_the_place_of_its_sign() {
    // let v = -x;
    assert_eq!(value_of("-x"), negate(var("x", 10), 8));
    assert_eq!(value_of("--1"), negate(negate(num(1, 11), 9), 8));
    // let v = 1 - -2;
    assert_eq!(
        value_of("1 - -2"),
        binary(num(1, 10), TokenType::MINUS, negate(num(2, 14), 12))
    );
    // A negation binds more than a product.
    assert_eq!(
        value_of("-a * b"),
        binary(negate(var("a", 11), 8), TokenType::ASTERISK, var("b", 14))
    );
}

#[test]
fn loops_and_conditionals_hold_a_block() {
    // 0         1         2
    // 0123456789012345678901234567
    // while x > 0 { x = x - 1; }
    assert_eq!(
        parse("while x > 0 { x = x - 1; }"),
        Ok(vec![stmt(
            Stmt::While {
                condition: binary(var("x", 8), TokenType::GT, num(0, 12)),
                body: vec![stmt(
                    Stmt::Assign {
                        target: var("x", 16),
                        value: binary(var("x", 20), TokenType::MINUS, num(1, 23)),
                    },
                    16,
                )],
            },
            0,
        )])
    );
    assert_eq!(
        parse(" if a {}"),
        Ok(vec![stmt(Stmt::If { condition: var("a", 6), body: vec![] }, 1)])
    );
}

#[test]
fn blocks_nest() {
    let program = parse("if a { while b { let c = 1; } b = 2; } a = 3;").unwrap();
    assert_eq!(program.len(), 2);
    match &program[0].node {
        Stmt::If { body, .. } => {
            assert_eq!(body.len(), 2);
            match &body[0].node {
                Stmt::While { body, .. } => {
                    assert_eq!(body.len(), 1);
                    assert!(matches!(body[0].node, Stmt::Declare { .. }));
                },
                other => panic!("no loop: {:?}", other),
            }
            assert!(matches!(body[1].node, Stmt::Assign { .. }));
        },
        other => panic!("no conditional: {:?}", other),
    }
    assert!(matches!(program[1].node, Stmt::Assign { .. }));
}

#[test]
fn a_token_that_starts_no_statement_is_reported() {
    assert_eq!(parse("1 = x;"), Err(error("unexpected token NUMBER", 0)));
    assert_eq!(parse("x = 1; }"), Err(error("unexpected token RBRACE", 7)));
    assert_eq!(parse(";"), Err(error("unexpected token SEMICOLON", 0)));
    assert_eq!(parse("(x) = 1;"), Err(error("unexpected token LPAREN", 0)));
}

#[test]
fn a_missing_token_is_reported_at_what_stands_in_its_place() {
    assert_eq!(parse("let 1 = x;"), Err(error("expected identifier", 4)));
    assert_eq!(parse("let x 1;"), Err(error("expected '='", 6)));
    assert_eq!(parse("x + 1;"), Err(error("expected '='", 2)));
    assert_eq!(parse("let x = 1"), Err(error("expected ';'", 9)));
    assert_eq!(parse("let x = 1 let"), Err(error("expected ';'", 10)));
    assert_eq!(parse("let x = (1;"), Err(error("expected ')'", 10)));
    assert_eq!(parse("while x x = 1;"), Err(error("expected '{'", 8)));
    assert_eq!(parse("if x {"), Err(error("unexpected token EOF", 6)));
    assert_eq!(parse("if x { let"), Err(error("expected identifier", 10)));
}

#[test]
fn a_token_that_starts_no_expression_is_reported() {
    assert_eq!(parse("let x = ;"), Err(error("expected expression, found SEMICOLON", 8)));
    assert_eq!(parse("let x = 1 + ;"), Err(error("expected expression, found SEMICOLON", 12)));
    assert_eq!(parse("let x = *2;"), Err(error("expected expression, found ASTERISK", 8)));
    assert_eq!(parse("let x = ()"), Err(error("expected expression, found RPAREN", 9)));
    assert_eq!(parse("let x = -"), Err(error("expected expression, found EOF", 9)));
    assert_eq!(parse("let x = let"), Err(error("expected expression, found KEYWORD", 8)));
    assert_eq!(parse("while {"), Err(error("expected expression, found LBRACE", 6)));
}

#[test]
fn the_end_of_the_input_ends_the_program() {
    // What follows the first EOF token is not looked at.
    let mut tokens = tokens_of("x = 1;");
    tokens.extend(tokens_of("y = 2;"));
    let program = Parser::new(tokens).parse_program().unwrap();
    assert_eq!(program.len(), 1);
}

#[test]
fn tokens_without_an_end_are_parsed_to_their_last() {
    let mut tokens = tokens_of("x = 1;");
    tokens.pop();
    // The place behind the last token is that of no token: offset 0.
    assert_eq!(
        Parser::new(tokens).parse_program(),
        Ok(vec![stmt(Stmt::Assign { target: var("x", 2), value: num(1, 5) }, 2)])
    );
    let mut tokens = tokens_of("x = 1");
    tokens.pop();
    assert_eq!(
        Parser::new(tokens).parse_program(),
        Err(error("expected ';'", 0))
    );
}

#[test]
fn nodes_keep_the_source_of_their_tokens() {
    let token = |token_type: TokenType, value: TokenValue, position: usize, source_id: usize| Token {
        token_type,
        value,
        position,
        source_id,
    };
    let tokens = vec![
        token(TokenType::KEYWORD, TokenValue::Keyword(Keyword::LET), 0, 1),
        token(TokenType::IDENTIFIER, TokenValue::Identifier("x".to_string()), 4, 2),
        token(TokenType::ASSIGN, TokenValue::Empty, 6, 3),
        token(TokenType::NUMBER, TokenValue::Number(1), 8, 4),
        token(TokenType::SEMICOLON, TokenValue::Empty, 9, 5),
        token(TokenType::EOF, TokenValue::Empty, 10, 6),
    ];
    assert_eq!(
        Parser::new(tokens).parse_program(),
        Ok(vec![AstNode {
            node: Stmt::Declare {
                target: AstNode { node: Expr::Variable("x".to_string()), position: 6, source_id: 3 },
                value: AstNode { node: Expr::Number(1), position: 9, source_id: 5 },
            },
            position: 0,
            source_id: 1,
        }])
    );
}

#[test]
fn a_token_whose_value_does_not_fit_its_kind_is_reported() {
    let token = |token_type: TokenType, value: TokenValue, position: usize| Token {
        token_type,
        value,
        position,
        source_id: 0,
    };
    // An identifier without a name, as the target of an assignment.
    let tokens = vec![
        token(TokenType::IDENTIFIER, TokenValue::Empty, 3),
        token(TokenType::ASSIGN, TokenValue::Empty, 5),
    ];
    assert_eq!(Parser::new(tokens).parse_program(), Err(error("expected identifier", 3)));
    // A number without a value, as an expression.
    let tokens = vec![
        token(TokenType::IDENTIFIER, TokenValue::Identifier("x".to_string()), 0),
        token(TokenType::ASSIGN, TokenValue::Empty, 2),
        token(TokenType::NUMBER, TokenValue::Identifier("y".to_string()), 4),
    ];
    assert_eq!(
        Parser::new(tokens).parse_program(),
        Err(error("expected expression, found NUMBER", 4))
    );
    // A keyword that is none.
    let tokens = vec![token(TokenType::KEYWORD, TokenValue::Number(1), 7)];
    assert_eq!(Parser::new(tokens).parse_program(), Err(error("unexpected token KEYWORD", 7)));
}

#[test]
fn a_parser_stays_where_it_stopped() {
    let mut parser = Parser::new(tokens_of("x = 1; ; y = 2;"));
    assert_eq!(parser.parse_program(), Err(error("unexpected token SEMICOLON", 7)));
    assert_eq!(parser.parse_program(), Err(error("unexpected token SEMICOLON", 7)));
    let mut parser = Parser::new(tokens_of("x = 1;"));
    assert_eq!(parser.parse_program().unwrap().len(), 1);
    assert_eq!(parser.parse_program(), Ok(vec![]));
}

#[test]
fn every_kind_of_token_has_a_name() {
    let names = [
        (TokenType::EOF, "EOF"),
        (TokenType::NUMBER, "NUMBER"),
        (TokenType::IDENTIFIER, "IDENTIFIER"),
        (TokenType::KEYWORD, "KEYWORD"),
        (TokenType::LBRACE, "LBRACE"),
        (TokenType::RBRACE, "RBRACE"),
        (TokenType::LPAREN, "LPAREN"),
        (TokenType::RPAREN, "RPAREN"),
        (TokenType::LBRACKET, "LBRACKET"),
        (TokenType::RBRACKET, "RBRACKET"),
        (TokenType::COMMA, "COMMA"),
        (TokenType::SEMICOLON, "SEMICOLON"),
        (TokenType::PLUS, "PLUS"),
        (TokenType::MINUS, "MINUS"),
        (TokenType::ASTERISK, "ASTERISK"),
        (TokenType::SLASH, "SLASH"),
        (TokenType::EQ, "EQ"),
        (TokenType::NEQ, "NEQ"),
        (TokenType::LT, "LT"),
        (TokenType::LTE, "LTE"),
        (TokenType::GT, "GT"),
        (TokenType::GTE, "GTE"),
        (TokenType::ASSIGN, "ASSIGN"),
    ];
    for (kind, name) in names {
        assert_eq!(kind.name(), name);
        assert_eq!(format!("{:?}", kind), name);
    }
}

#[test]
fn a_token_is_cloned_with_all_it_holds() {
    let token = Token {
        token_type: TokenType::IDENTIFIER,
        value: TokenValue::Identifier("name".to_string()),
        position: 3,
        source_id: 9,
    };
    assert_eq!(token.clone(), token);
    for value in [
        TokenValue::Empty,
        TokenValue::Number(-4),
        TokenValue::Keyword(Keyword::WHILE),
        TokenValue::Identifier(String::new()),
    ] {
        assert_eq!(value.clone(), value);
    }
}
