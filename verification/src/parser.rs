//! The parser: from tokens to the syntax tree, by recursive descent.
//!
//! ```text
//! program    = { statement } EOF
//! statement  = "if" expression block
//!            | "while" expression block
//!            | "let" IDENTIFIER "=" expression ";"
//!            | IDENTIFIER "=" expression ";"
//! block      = "{" { statement } "}"
//! expression = comparison
//! comparison = term { ( ">" | ">=" | "<" | "<=" | "==" | "!=" ) term }
//! term       = factor { ( "+" | "-" ) factor }
//! factor     = unary { ( "*" | "/" ) unary }
//! unary      = "-" unary | primary
//! primary    = NUMBER | IDENTIFIER | "(" expression ")"
//! ```
//!
//! Binary operators of one level associate to the left.

use vstd::prelude::*;
use vstd::string::StringExecFns;
use crate::ast::{
    expr_tree, lemma_stmt_trees_push, stmt_tree, stmt_trees, AstNode, Expr, ExprNode, ExprTree,
    ExprView, NodeView, Stmt, StmtNode, StmtTree, StmtView,
};
use crate::errors::{CompileError, ErrorView};
use crate::token::{Keyword, Token, TokenType, TokenValue, TokenView, ValueView};

verus! {

pub type ParseResult<T> = Result<T, CompileError>;

/// The outcome of parsing a part of the input: the index of the token at
/// which the parser stands afterwards, and what was parsed or the
/// diagnostic that stopped the parser.
pub struct Parsed<T> {
    pub pos: nat,
    pub outcome: Result<T, ErrorView>,
}

/// The token that stands for the end of the input where the tokens end
/// without one.
pub open spec fn end_token() -> TokenView {
    TokenView { token_type: TokenType::EOF, value: ValueView::Empty, position: 0, source_id: 0 }
}

/// The token at `pos`, or the end of the input behind the last token.
pub open spec fn current(tokens: Seq<TokenView>, pos: nat) -> TokenView {
    if pos < tokens.len() {
        tokens[pos as int]
    } else {
        end_token()
    }
}

/// The index behind `pos`. The parser does not move beyond the end of the
/// tokens.
pub open spec fn following(tokens: Seq<TokenView>, pos: nat) -> nat {
    if pos < tokens.len() {
        pos + 1
    } else {
        pos
    }
}

/// How many tokens are left at `pos`.
pub open spec fn left(tokens: Seq<TokenView>, pos: nat) -> nat {
    if pos <= tokens.len() {
        (tokens.len() - pos) as nat
    } else {
        0
    }
}

/// A parser that stops at `pos` with a diagnostic that refers to the place
/// of `token`.
pub open spec fn fault<T>(pos: nat, message: Seq<char>, token: TokenView) -> Parsed<T> {
    Parsed {
        pos: pos,
        outcome: Err(
            ErrorView { message: message, position: token.position, source_id: token.source_id },
        ),
    }
}

/// Takes the token at `pos` if it is of kind `kind`, and otherwise stops
/// there with the diagnostic `message`.
pub open spec fn expect(tokens: Seq<TokenView>, pos: nat, kind: TokenType, message: Seq<char>) -> Parsed<
    TokenView,
> {
    if current(tokens, pos).token_type == kind {
        Parsed { pos: following(tokens, pos), outcome: Ok(current(tokens, pos)) }
    } else {
        fault(pos, message, current(tokens, pos))
    }
}

/// The message for a token that starts no statement.
pub open spec fn unexpected_token_text(kind: TokenType) -> Seq<char> {
    "unexpected token "@ + kind.name_text()
}

/// The message for a token that starts no expression.
pub open spec fn expected_expression_text(kind: TokenType) -> Seq<char> {
    "expected expression, found "@ + kind.name_text()
}

/// A level of binary operators of the same precedence.
#[derive(Debug, Clone, Copy, PartialEq, Eq, Structural)]
pub enum Level {
    /// `>`, `>=`, `<`, `<=`, `==` and `!=`, which bind least.
    Comparison,
    /// `+` and `-`.
    Term,
    /// `*` and `/`, which bind most.
    Factor,
}

impl Level {
    /// Whether a token of this kind is an operator of the level.
    pub open spec fn joins(self, kind: TokenType) -> bool {
        match self {
            Level::Comparison => kind == TokenType::GT || kind == TokenType::GTE || kind
                == TokenType::LT || kind == TokenType::LTE || kind == TokenType::EQ || kind
                == TokenType::NEQ,
            Level::Term => kind == TokenType::PLUS || kind == TokenType::MINUS,
            Level::Factor => kind == TokenType::ASTERISK || kind == TokenType::SLASH,
        }
    }

    /// How far the level is from a primary expression.
    pub open spec fn rank(self) -> nat {
        match self {
            Level::Factor => 2,
            Level::Term => 3,
            Level::Comparison => 4,
        }
    }
}

/// A node at a place.
pub open spec fn node_at<T>(node: T, place: TokenView) -> NodeView<T> {
    NodeView { node: node, position: place.position, source_id: place.source_id }
}

/// A primary expression: a number, a variable, or an expression in
/// parentheses. A number and a variable get the place of the token that
/// follows them.
pub open spec fn primary(tokens: Seq<TokenView>, pos: nat) -> Parsed<ExprTree>
    decreases left(tokens, pos), 0nat, 0nat,
{
    let token = current(tokens, pos);
    let after = following(tokens, pos);
    if token.token_type == TokenType::NUMBER && token.value is Number {
        Parsed {
            pos: after,
            outcome: Ok(node_at(ExprView::Number(token.value->Number_0), current(tokens, after))),
        }
    } else if token.token_type == TokenType::IDENTIFIER && token.value is Identifier {
        Parsed {
            pos: after,
            outcome: Ok(
                node_at(ExprView::Variable(token.value->Identifier_0), current(tokens, after)),
            ),
        }
    } else if token.token_type == TokenType::LPAREN && pos < tokens.len() {
        let inner = binary(tokens, pos + 1, Level::Comparison);
        match inner.outcome {
            Err(_) => inner,
            Ok(expr) => {
                let close = expect(tokens, inner.pos, TokenType::RPAREN, "expected ')'"@);
                match close.outcome {
                    Err(error) => Parsed { pos: close.pos, outcome: Err(error) },
                    Ok(_) => Parsed { pos: close.pos, outcome: Ok(expr) },
                }
            },
        }
    } else {
        fault(after, expected_expression_text(token.token_type), token)
    }
}

/// A unary expression: a negation, at the place of its sign, or a primary
/// expression.
pub open spec fn unary(tokens: Seq<TokenView>, pos: nat) -> Parsed<ExprTree>
    decreases left(tokens, pos), 1nat, 0nat,
{
    let sign = current(tokens, pos);
    if sign.token_type == TokenType::MINUS && pos < tokens.len() {
        let operand = unary(tokens, pos + 1);
        match operand.outcome {
            Err(_) => operand,
            Ok(expr) => Parsed {
                pos: operand.pos,
                outcome: Ok(
                    node_at(
                        ExprView::Unary { operator: sign.token_type, operand: Box::new(expr) },
                        sign,
                    ),
                ),
            },
        }
    } else {
        primary(tokens, pos)
    }
}

/// An operand of an operator of a level: an expression of the level that
/// binds more, and a unary expression at the level that binds most.
pub open spec fn operand(tokens: Seq<TokenView>, pos: nat, level: Level) -> Parsed<ExprTree>
    decreases left(tokens, pos), level.rank(), 0nat,
{
    match level {
        Level::Factor => unary(tokens, pos),
        Level::Term => binary(tokens, pos, Level::Factor),
        Level::Comparison => binary(tokens, pos, Level::Term),
    }
}

/// An expression of a level: operands joined by operators of the level.
pub open spec fn binary(tokens: Seq<TokenView>, pos: nat, level: Level) -> Parsed<ExprTree>
    decreases left(tokens, pos), level.rank(), 1nat,
{
    let first = operand(tokens, pos, level);
    match first.outcome {
        Err(_) => first,
        Ok(expr) => if left(tokens, first.pos) < left(tokens, pos) {
            chain(tokens, first.pos, level, expr)
        } else {
            first
        },
    }
}

/// What follows the operand `lhs` of a level: as long as an operator of the
/// level stands next, it joins what was parsed so far, as its left side,
/// with the operand behind it. The result has the place of `lhs`.
pub open spec fn chain(tokens: Seq<TokenView>, pos: nat, level: Level, lhs: ExprTree) -> Parsed<
    ExprTree,
>
    decreases left(tokens, pos), 0nat, 0nat,
{
    let operator = current(tokens, pos);
    if level.joins(operator.token_type) && pos < tokens.len() {
        let right = operand(tokens, pos + 1, level);
        match right.outcome {
            Err(_) => right,
            Ok(rhs) => {
                let joined = NodeView {
                    node: ExprView::Binary {
                        left: Box::new(lhs),
                        operator: operator.token_type,
                        right: Box::new(rhs),
                    },
                    position: lhs.position,
                    source_id: lhs.source_id,
                };
                if left(tokens, right.pos) < left(tokens, pos) {
                    chain(tokens, right.pos, level, joined)
                } else {
                    Parsed { pos: right.pos, outcome: Ok(joined) }
                }
            },
        }
    } else {
        Parsed { pos: pos, outcome: Ok(lhs) }
    }
}

/// An expression.
pub open spec fn expression(tokens: Seq<TokenView>, pos: nat) -> Parsed<ExprTree> {
    binary(tokens, pos, Level::Comparison)
}

/// The target of a declaration or an assignment: the identifier at `pos`,
/// as a variable at the place of the token that follows it.
pub open spec fn target(tokens: Seq<TokenView>, pos: nat) -> Parsed<ExprTree> {
    let name = expect(tokens, pos, TokenType::IDENTIFIER, "expected identifier"@);
    match name.outcome {
        Err(error) => Parsed { pos: name.pos, outcome: Err(error) },
        Ok(token) => match token.value {
            ValueView::Identifier(text) => Parsed {
                pos: name.pos,
                outcome: Ok(node_at(ExprView::Variable(text), current(tokens, name.pos))),
            },
            _ => fault(name.pos, "expected identifier"@, token),
        },
    }
}

/// What follows the keyword of a declaration, and what an assignment is
/// made of: a target, `=`, an expression and `;`. It yields the target and
/// the expression.
pub open spec fn binding(tokens: Seq<TokenView>, pos: nat) -> Parsed<(ExprTree, ExprTree)> {
    let to = target(tokens, pos);
    match to.outcome {
        Err(error) => Parsed { pos: to.pos, outcome: Err(error) },
        Ok(variable) => {
            let sign = expect(tokens, to.pos, TokenType::ASSIGN, "expected '='"@);
            match sign.outcome {
                Err(error) => Parsed { pos: sign.pos, outcome: Err(error) },
                Ok(_) => {
                    let value = expression(tokens, sign.pos);
                    match value.outcome {
                        Err(error) => Parsed { pos: value.pos, outcome: Err(error) },
                        Ok(expr) => {
                            let end = expect(
                                tokens,
                                value.pos,
                                TokenType::SEMICOLON,
                                "expected ';'"@,
                            );
                            match end.outcome {
                                Err(error) => Parsed { pos: end.pos, outcome: Err(error) },
                                Ok(_) => Parsed { pos: end.pos, outcome: Ok((variable, expr)) },
                            }
                        },
                    }
                },
            }
        },
    }
}

/// A declaration, at the place of its keyword.
pub open spec fn declaration(tokens: Seq<TokenView>, pos: nat) -> Parsed<StmtTree> {
    let bound = binding(tokens, following(tokens, pos));
    match bound.outcome {
        Err(error) => Parsed { pos: bound.pos, outcome: Err(error) },
        Ok((variable, expr)) => Parsed {
            pos: bound.pos,
            outcome: Ok(
                node_at(
                    StmtView::Declare { target: variable, value: expr },
                    current(tokens, pos),
                ),
            ),
        },
    }
}

/// An assignment, at the place of its target.
pub open spec fn assignment(tokens: Seq<TokenView>, pos: nat) -> Parsed<StmtTree> {
    let bound = binding(tokens, pos);
    match bound.outcome {
        Err(error) => Parsed { pos: bound.pos, outcome: Err(error) },
        Ok((variable, expr)) => Parsed {
            pos: bound.pos,
            outcome: Ok(
                NodeView {
                    node: StmtView::Assign { target: variable, value: expr },
                    position: variable.position,
                    source_id: variable.source_id,
                },
            ),
        },
    }
}

/// Whether a token is the keyword `keyword`.
pub open spec fn is_keyword(token: TokenView, keyword: Keyword) -> bool {
    token.token_type == TokenType::KEYWORD && token.value == ValueView::Keyword(keyword)
}

/// A conditional or a loop, at the place of its keyword: the keyword, a
/// condition and a block.
pub open spec fn conditional(tokens: Seq<TokenView>, pos: nat) -> Parsed<StmtTree>
    decreases left(tokens, pos), 0nat,
{
    let keyword = current(tokens, pos);
    let condition = expression(tokens, following(tokens, pos));
    match condition.outcome {
        Err(error) => Parsed { pos: condition.pos, outcome: Err(error) },
        Ok(expr) => if left(tokens, condition.pos) < left(tokens, pos) {
            let body = block(tokens, condition.pos);
            match body.outcome {
                Err(error) => Parsed { pos: body.pos, outcome: Err(error) },
                Ok(stmts) => Parsed {
                    pos: body.pos,
                    outcome: Ok(
                        node_at(
                            if is_keyword(keyword, Keyword::IF) {
                                StmtView::If { condition: expr, body: stmts }
                            } else {
                                StmtView::While { condition: expr, body: stmts }
                            },
                            keyword,
                        ),
                    ),
                },
            }
        } else {
            fault(condition.pos, "expected '{'"@, current(tokens, condition.pos))
        },
    }
}

/// A statement. The token at `pos` decides which.
pub open spec fn statement(tokens: Seq<TokenView>, pos: nat) -> Parsed<StmtTree>
    decreases left(tokens, pos), 1nat,
{
    let token = current(tokens, pos);
    if is_keyword(token, Keyword::IF) || is_keyword(token, Keyword::WHILE) {
        conditional(tokens, pos)
    } else if is_keyword(token, Keyword::LET) {
        declaration(tokens, pos)
    } else if token.token_type == TokenType::IDENTIFIER {
        assignment(tokens, pos)
    } else {
        fault(pos, unexpected_token_text(token.token_type), token)
    }
}

/// The statements of a block up to its closing brace, behind those that
/// were parsed already.
pub open spec fn items(tokens: Seq<TokenView>, pos: nat, parsed: Seq<StmtTree>) -> Parsed<
    Seq<StmtTree>,
>
    decreases left(tokens, pos), 2nat,
{
    if current(tokens, pos).token_type == TokenType::RBRACE {
        Parsed { pos: following(tokens, pos), outcome: Ok(parsed) }
    } else {
        let next = statement(tokens, pos);
        match next.outcome {
            Err(error) => Parsed { pos: next.pos, outcome: Err(error) },
            Ok(stmt) => if left(tokens, next.pos) < left(tokens, pos) {
                items(tokens, next.pos, parsed.push(stmt))
            } else {
                Parsed { pos: next.pos, outcome: Ok(parsed.push(stmt)) }
            },
        }
    }
}

/// A block: statements between braces.
pub open spec fn block(tokens: Seq<TokenView>, pos: nat) -> Parsed<Seq<StmtTree>>
    decreases left(tokens, pos), 3nat,
{
    let open = expect(tokens, pos, TokenType::LBRACE, "expected '{'"@);
    match open.outcome {
        Err(error) => Parsed { pos: open.pos, outcome: Err(error) },
        Ok(_) => if pos < tokens.len() {
            items(tokens, pos + 1, Seq::empty())
        } else {
            fault(pos, "expected '{'"@, current(tokens, pos))
        },
    }
}

/// The statements of a program up to the end of the input, behind those
/// that were parsed already.
pub open spec fn program(tokens: Seq<TokenView>, pos: nat, parsed: Seq<StmtTree>) -> Parsed<
    Seq<StmtTree>,
>
    decreases left(tokens, pos),
{
    if current(tokens, pos).token_type == TokenType::EOF {
        Parsed { pos: pos, outcome: Ok(parsed) }
    } else {
        let next = statement(tokens, pos);
        match next.outcome {
            Err(error) => Parsed { pos: next.pos, outcome: Err(error) },
            Ok(stmt) => if left(tokens, next.pos) < left(tokens, pos) {
                program(tokens, next.pos, parsed.push(stmt))
            } else {
                Parsed { pos: next.pos, outcome: Ok(parsed.push(stmt)) }
            },
        }
    }
}

/// The parser and what it looks at, as plain data.
pub struct ParserView {
    pub tokens: Seq<TokenView>,
    pub pos: nat,
}

/// The parser of a sequence of tokens.
pub struct Parser {
    tokens: Vec<Token>,
    pos: usize,
}

impl View for Parser {
    type V = ParserView;

    closed spec fn view(&self) -> ParserView {
        ParserView { tokens: self.tokens@.map_values(|t: Token| t@), pos: self.pos as nat }
    }
}

impl Parser {
    /// A parser that stands at the first of `tokens`.
    pub fn new(tokens: Vec<Token>) -> (parser: Self)
        ensures
            parser@ == (ParserView { tokens: tokens@.map_values(|t: Token| t@), pos: 0 }),
    {
        Parser { tokens, pos: 0 }
    }

    /// The token at which the parser stands.
    fn current(&self) -> (token: Token)
        ensures
            token@ == current(self@.tokens, self@.pos),
    {
        if self.pos < self.tokens.len() {
            self.tokens[self.pos].clone()
        } else {
            Token {
                token_type: TokenType::EOF,
                value: TokenValue::Empty,
                position: 0,
                source_id: 0,
            }
        }
    }

    /// Moves behind the token at which the parser stands, and returns that
    /// token.
    fn advance(&mut self) -> (token: Token)
        ensures
            token@ == current(old(self)@.tokens, old(self)@.pos),
            final(self)@.tokens == old(self)@.tokens,
            final(self)@.pos == following(old(self)@.tokens, old(self)@.pos),
    {
        let token = self.current();
        if self.pos < self.tokens.len() {
            self.pos += 1;
        }
        token
    }

    /// Whether the parser stands at a token of kind `token_type`.
    fn check(&self, token_type: &TokenType) -> (found: bool)
        ensures
            found == (current(self@.tokens, self@.pos).token_type == *token_type),
    {
        self.current().token_type == *token_type
    }

    /// Moves behind the token at which the parser stands if it is of kind
    /// `kind`, and returns it. If it is of another kind, the diagnostic
    /// `msg` refers to its place.
    fn expect(&mut self, kind: &TokenType, msg: &str) -> (token: ParseResult<Token>)
        ensures
            final(self)@.tokens == old(self)@.tokens,
            final(self)@.pos == expect(old(self)@.tokens, old(self)@.pos, *kind, msg@).pos,
            match token {
                Ok(found) => expect(old(self)@.tokens, old(self)@.pos, *kind, msg@).outcome == Ok::<
                    TokenView,
                    ErrorView,
                >(found@),
                Err(error) => expect(old(self)@.tokens, old(self)@.pos, *kind, msg@).outcome
                    == Err::<TokenView, ErrorView>(error@),
            },
    {
        let token = self.current();
        if token.token_type == *kind {
            Ok(self.advance())
        } else {
            Err(
                CompileError {
                    message: String::from_str(msg),
                    position: token.position,
                    source_id: token.source_id,
                },
            )
        }
    }

    /// Whether the parser stands at the end of the input.
    fn is_at_end(&self) -> (ended: bool)
        ensures
            ended == (current(self@.tokens, self@.pos).token_type == TokenType::EOF),
    {
        self.current().token_type == TokenType::EOF
    }

    /// Parses statements up to the end of the input; see [`program`].
    ///
    /// The first token that fits nowhere ends the parsing with a
    /// diagnostic. The parser then stands where it stopped.
    pub fn parse_program(&mut self) -> (stmts: ParseResult<Vec<StmtNode>>)
        ensures
            final(self)@.tokens == old(self)@.tokens,
            final(self)@.pos == program(old(self)@.tokens, old(self)@.pos, Seq::empty()).pos,
            match stmts {
                Ok(all) => program(old(self)@.tokens, old(self)@.pos, Seq::empty()).outcome == Ok::<
                    Seq<StmtTree>,
                    ErrorView,
                >(stmt_trees(all@, all@.len())),
                Err(error) => program(old(self)@.tokens, old(self)@.pos, Seq::empty()).outcome
                    == Err::<Seq<StmtTree>, ErrorView>(error@),
            },
    {
        let mut stmts: Vec<StmtNode> = Vec::new();
        while !self.is_at_end()
            invariant
                self@.tokens == old(self)@.tokens,
                program(old(self)@.tokens, old(self)@.pos, Seq::empty()) == program(
                    self@.tokens,
                    self@.pos,
                    stmt_trees(stmts@, stmts@.len()),
                ),
            decreases left(self@.tokens, self@.pos),
        {
            let ghost before = stmts@;
            let stmt = self.parse_statement()?;
            proof {
                lemma_stmt_trees_push(before, stmt);
            }
            stmts.push(stmt);
        }
        Ok(stmts)
    }

    /// Parses a statement; see [`statement`].
    fn parse_statement(&mut self) -> (stmt: ParseResult<StmtNode>)
        ensures
            final(self)@.tokens == old(self)@.tokens,
            final(self)@.pos == statement(old(self)@.tokens, old(self)@.pos).pos,
            match stmt {
                Ok(node) => statement(old(self)@.tokens, old(self)@.pos).outcome == Ok::<
                    StmtTree,
                    ErrorView,
                >(stmt_tree(node)) && left(final(self)@.tokens, final(self)@.pos) < left(
                    old(self)@.tokens,
                    old(self)@.pos,
                ),
                Err(error) => statement(old(self)@.tokens, old(self)@.pos).outcome == Err::<
                    StmtTree,
                    ErrorView,
                >(error@),
            },
        decreases left(old(self)@.tokens, old(self)@.pos), 1nat,
    {
        let token = self.current();
        match token.token_type {
            TokenType::KEYWORD => match token.value {
                TokenValue::Keyword(Keyword::IF) => self.parse_if(),
                TokenValue::Keyword(Keyword::WHILE) => self.parse_while(),
                TokenValue::Keyword(Keyword::LET) => self.parse_decleration(),
                _ => Err(Self::unexpected(&token)),
            },
            TokenType::IDENTIFIER => self.parse_assignment(),
            _ => Err(Self::unexpected(&token)),
        }
    }

    /// The diagnostic for a token that starts no statement.
    fn unexpected(token: &Token) -> (error: CompileError)
        ensures
            error@ == (ErrorView {
                message: unexpected_token_text(token.token_type),
                position: token.position,
                source_id: token.source_id,
            }),
    {
        CompileError {
            message: String::from_str("unexpected token ").concat(token.token_type.name()),
            position: token.position,
            source_id: token.source_id,
        }
    }

    /// Parses a conditional; see [`conditional`].
    fn parse_if(&mut self) -> (stmt: ParseResult<StmtNode>)
        requires
            is_keyword(current(old(self)@.tokens, old(self)@.pos), Keyword::IF),
        ensures
            final(self)@.tokens == old(self)@.tokens,
            final(self)@.pos == conditional(old(self)@.tokens, old(self)@.pos).pos,
            match stmt {
                Ok(node) => conditional(old(self)@.tokens, old(self)@.pos).outcome == Ok::<
                    StmtTree,
                    ErrorView,
                >(stmt_tree(node)) && left(final(self)@.tokens, final(self)@.pos) < left(
                    old(self)@.tokens,
                    old(self)@.pos,
                ),
                Err(error) => conditional(old(self)@.tokens, old(self)@.pos).outcome == Err::<
                    StmtTree,
                    ErrorView,
                >(error@),
            },
        decreases left(old(self)@.tokens, old(self)@.pos), 0nat,
    {
        let keyword = self.advance();
        let condition = self.parse_expression()?;
        let block = self.parse_block()?;
        Ok(
            AstNode {
                node: Stmt::If { condition, body: block },
                position: keyword.position,
                source_id: keyword.source_id,
            },
        )
    }

    /// Parses a loop; see [`conditional`].
    fn parse_while(&mut self) -> (stmt: ParseResult<StmtNode>)
        requires
            is_keyword(current(old(self)@.tokens, old(self)@.pos), Keyword::WHILE),
        ensures
            final(self)@.tokens == old(self)@.tokens,
            final(self)@.pos == conditional(old(self)@.tokens, old(self)@.pos).pos,
            match stmt {
                Ok(node) => conditional(old(self)@.tokens, old(self)@.pos).outcome == Ok::<
                    StmtTree,
                    ErrorView,
                >(stmt_tree(node)) && left(final(self)@.tokens, final(self)@.pos) < left(
                    old(self)@.tokens,
                    old(self)@.pos,
                ),
                Err(error) => conditional(old(self)@.tokens, old(self)@.pos).outcome == Err::<
                    StmtTree,
                    ErrorView,
                >(error@),
            },
        decreases left(old(self)@.tokens, old(self)@.pos), 0nat,
    {
        let keyword = self.advance();
        let condition = self.parse_expression()?;
        let block = self.parse_block()?;
        Ok(
            AstNode {
                node: Stmt::While { condition, body: block },
                position: keyword.position,
                source_id: keyword.source_id,
            },
        )
    }

    /// Parses a block; see [`block`].
    fn parse_block(&mut self) -> (stmts: ParseResult<Vec<StmtNode>>)
        ensures
            final(self)@.tokens == old(self)@.tokens,
            final(self)@.pos == block(old(self)@.tokens, old(self)@.pos).pos,
            match stmts {
                Ok(all) => block(old(self)@.tokens, old(self)@.pos).outcome == Ok::<
                    Seq<StmtTree>,
                    ErrorView,
                >(stmt_trees(all@, all@.len())) && left(final(self)@.tokens, final(self)@.pos)
                    < left(old(self)@.tokens, old(self)@.pos),
                Err(error) => block(old(self)@.tokens, old(self)@.pos).outcome == Err::<
                    Seq<StmtTree>,
                    ErrorView,
                >(error@),
            },
        decreases left(old(self)@.tokens, old(self)@.pos), 3nat,
    {
        self.expect(&TokenType::LBRACE, "expected '{'")?;
        let mut stmts: Vec<StmtNode> = Vec::new();
        let ghost start = self@.pos;
        while !self.check(&TokenType::RBRACE)
            invariant
                self@.tokens == old(self)@.tokens,
                left(self@.tokens, self@.pos) <= left(self@.tokens, start),
                left(self@.tokens, start) < left(old(self)@.tokens, old(self)@.pos),
                block(old(self)@.tokens, old(self)@.pos) == items(
                    self@.tokens,
                    start,
                    Seq::empty(),
                ),
                items(self@.tokens, start, Seq::empty()) == items(
                    self@.tokens,
                    self@.pos,
                    stmt_trees(stmts@, stmts@.len()),
                ),
            decreases left(self@.tokens, self@.pos),
        {
            let ghost before = stmts@;
            let stmt = self.parse_statement()?;
            proof {
                lemma_stmt_trees_push(before, stmt);
            }
            stmts.push(stmt);
        }
        self.expect(&TokenType::RBRACE, "expected '}'")?;
        Ok(stmts)
    }

    /// Parses the target of a declaration or an assignment; see [`target`].
    fn parse_target(&mut self) -> (variable: ParseResult<ExprNode>)
        ensures
            final(self)@.tokens == old(self)@.tokens,
            final(self)@.pos == target(old(self)@.tokens, old(self)@.pos).pos,
            old(self)@.pos <= final(self)@.pos,
            match variable {
                Ok(node) => target(old(self)@.tokens, old(self)@.pos).outcome == Ok::<
                    ExprTree,
                    ErrorView,
                >(expr_tree(node)) && left(final(self)@.tokens, final(self)@.pos) < left(
                    old(self)@.tokens,
                    old(self)@.pos,
                ),
                Err(error) => target(old(self)@.tokens, old(self)@.pos).outcome == Err::<
                    ExprTree,
                    ErrorView,
                >(error@),
            },
    {
        let token = self.expect(&TokenType::IDENTIFIER, "expected identifier")?;
        match token.value {
            TokenValue::Identifier(n) => {
                let place = self.current();
                Ok(
                    AstNode {
                        node: Expr::Variable(n),
                        position: place.position,
                        source_id: place.source_id,
                    },
                )
            },
            _ => Err(
                CompileError {
                    message: String::from_str("expected identifier"),
                    position: token.position,
                    source_id: token.source_id,
                },
            ),
        }
    }

    /// Parses a target, `=`, an expression and `;`; see [`binding`].
    fn parse_binding(&mut self) -> (bound: ParseResult<(ExprNode, ExprNode)>)
        ensures
            final(self)@.tokens == old(self)@.tokens,
            final(self)@.pos == binding(old(self)@.tokens, old(self)@.pos).pos,
            match bound {
                Ok((variable, value)) => binding(old(self)@.tokens, old(self)@.pos).outcome == Ok::<
                    (ExprTree, ExprTree),
                    ErrorView,
                >((expr_tree(variable), expr_tree(value))) && left(
                    final(self)@.tokens,
                    final(self)@.pos,
                ) < left(old(self)@.tokens, old(self)@.pos),
                Err(error) => binding(old(self)@.tokens, old(self)@.pos).outcome == Err::<
                    (ExprTree, ExprTree),
                    ErrorView,
                >(error@),
            },
    {
        let target = self.parse_target()?;
        self.expect(&TokenType::ASSIGN, "expected '='")?;
        let value = self.parse_expression()?;
        self.expect(&TokenType::SEMICOLON, "expected ';'")?;
        Ok((target, value))
    }

    /// Parses a declaration; see [`declaration`].
    fn parse_decleration(&mut self) -> (stmt: ParseResult<StmtNode>)
        requires
            is_keyword(current(old(self)@.tokens, old(self)@.pos), Keyword::LET),
        ensures
            final(self)@.tokens == old(self)@.tokens,
            final(self)@.pos == declaration(old(self)@.tokens, old(self)@.pos).pos,
            match stmt {
                Ok(node) => declaration(old(self)@.tokens, old(self)@.pos).outcome == Ok::<
                    StmtTree,
                    ErrorView,
                >(stmt_tree(node)) && left(final(self)@.tokens, final(self)@.pos) < left(
                    old(self)@.tokens,
                    old(self)@.pos,
                ),
                Err(error) => declaration(old(self)@.tokens, old(self)@.pos).outcome == Err::<
                    StmtTree,
                    ErrorView,
                >(error@),
            },
    {
        let keyword = self.advance();
        let (target, value) = self.parse_binding()?;
        Ok(
            AstNode {
                node: Stmt::Declare { target, value },
                position: keyword.position,
                source_id: keyword.source_id,
            },
        )
    }

    /// Parses an assignment; see [`assignment`].
    fn parse_assignment(&mut self) -> (stmt: ParseResult<StmtNode>)
        ensures
            final(self)@.tokens == old(self)@.tokens,
            final(self)@.pos == assignment(old(self)@.tokens, old(self)@.pos).pos,
            match stmt {
                Ok(node) => assignment(old(self)@.tokens, old(self)@.pos).outcome == Ok::<
                    StmtTree,
                    ErrorView,
                >(stmt_tree(node)) && left(final(self)@.tokens, final(self)@.pos) < left(
                    old(self)@.tokens,
                    old(self)@.pos,
                ),
                Err(error) => assignment(old(self)@.tokens, old(self)@.pos).outcome == Err::<
                    StmtTree,
                    ErrorView,
                >(error@),
            },
    {
        let (target, value) = self.parse_binding()?;
        let position = target.position;
        let source_id = target.source_id;
        Ok(AstNode { node: Stmt::Assign { target, value }, position, source_id })
    }

    /// Parses an expression; see [`expression`].
    fn parse_expression(&mut self) -> (expr: ParseResult<ExprNode>)
        ensures
            final(self)@.tokens == old(self)@.tokens,
            final(self)@.pos == expression(old(self)@.tokens, old(self)@.pos).pos,
            left(final(self)@.tokens, final(self)@.pos) <= left(
                old(self)@.tokens,
                old(self)@.pos,
            ),
            match expr {
                Ok(node) => expression(old(self)@.tokens, old(self)@.pos).outcome == Ok::<
                    ExprTree,
                    ErrorView,
                >(expr_tree(node)) && left(final(self)@.tokens, final(self)@.pos) < left(
                    old(self)@.tokens,
                    old(self)@.pos,
                ),
                Err(error) => expression(old(self)@.tokens, old(self)@.pos).outcome == Err::<
                    ExprTree,
                    ErrorView,
                >(error@),
            },
        decreases left(old(self)@.tokens, old(self)@.pos), 5nat, 0nat,
    {
        self.parse_comparison()
    }

    /// Joins `lhs`, as the left side, with the operands that operators of
    /// a level add to it; see [`chain`].
    fn parse_chain(&mut self, level: Level, lhs: ExprNode) -> (joined: ParseResult<ExprNode>)
        ensures
            final(self)@.tokens == old(self)@.tokens,
            final(self)@.pos == chain(
                old(self)@.tokens,
                old(self)@.pos,
                level,
                expr_tree(lhs),
            ).pos,
            left(final(self)@.tokens, final(self)@.pos) <= left(
                old(self)@.tokens,
                old(self)@.pos,
            ),
            match joined {
                Ok(node) => chain(
                    old(self)@.tokens,
                    old(self)@.pos,
                    level,
                    expr_tree(lhs),
                ).outcome == Ok::<ExprTree, ErrorView>(expr_tree(node)),
                Err(error) => chain(
                    old(self)@.tokens,
                    old(self)@.pos,
                    level,
                    expr_tree(lhs),
                ).outcome == Err::<ExprTree, ErrorView>(error@),
            },
        decreases left(old(self)@.tokens, old(self)@.pos), 0nat, 1nat,
    {
        let ghost first = expr_tree(lhs);
        let mut expr = lhs;
        loop
            invariant
                first == expr_tree(lhs),
                self@.tokens == old(self)@.tokens,
                left(self@.tokens, self@.pos) <= left(old(self)@.tokens, old(self)@.pos),
                chain(old(self)@.tokens, old(self)@.pos, level, first) == chain(
                    self@.tokens,
                    self@.pos,
                    level,
                    expr_tree(expr),
                ),
            decreases left(self@.tokens, self@.pos),
        {
            let operator = self.current().token_type;
            if !Self::joins(level, operator) {
                return Ok(expr);
            }
            self.advance();
            let right = self.parse_operand(level)?;
            let position = expr.position;
            let source_id = expr.source_id;
            expr = AstNode {
                node: Expr::Binary { left: Box::new(expr), operator, right: Box::new(right) },
                position,
                source_id,
            };
        }
    }

    /// Whether a token of this kind is an operator of the level.
    fn joins(level: Level, kind: TokenType) -> (joined: bool)
        ensures
            joined == level.joins(kind),
    {
        match level {
            Level::Comparison => kind == TokenType::GT || kind == TokenType::GTE || kind
                == TokenType::LT || kind == TokenType::LTE || kind == TokenType::EQ || kind
                == TokenType::NEQ,
            Level::Term => kind == TokenType::PLUS || kind == TokenType::MINUS,
            Level::Factor => kind == TokenType::ASTERISK || kind == TokenType::SLASH,
        }
    }

    /// Parses an operand of an operator of a level; see [`operand`].
    fn parse_operand(&mut self, level: Level) -> (expr: ParseResult<ExprNode>)
        ensures
            final(self)@.tokens == old(self)@.tokens,
            final(self)@.pos == operand(old(self)@.tokens, old(self)@.pos, level).pos,
            left(final(self)@.tokens, final(self)@.pos) <= left(
                old(self)@.tokens,
                old(self)@.pos,
            ),
            match expr {
                Ok(node) => operand(old(self)@.tokens, old(self)@.pos, level).outcome == Ok::<
                    ExprTree,
                    ErrorView,
                >(expr_tree(node)) && left(final(self)@.tokens, final(self)@.pos) < left(
                    old(self)@.tokens,
                    old(self)@.pos,
                ),
                Err(error) => operand(old(self)@.tokens, old(self)@.pos, level).outcome == Err::<
                    ExprTree,
                    ErrorView,
                >(error@),
            },
        decreases left(old(self)@.tokens, old(self)@.pos), level.rank(), 0nat,
    {
        match level {
            Level::Factor => self.parse_unary(),
            Level::Term => self.parse_factor(),
            Level::Comparison => self.parse_term(),
        }
    }

    /// Parses an expression of a level; see [`binary`].
    fn parse_binary(&mut self, level: Level) -> (expr: ParseResult<ExprNode>)
        ensures
            final(self)@.tokens == old(self)@.tokens,
            final(self)@.pos == binary(old(self)@.tokens, old(self)@.pos, level).pos,
            left(final(self)@.tokens, final(self)@.pos) <= left(
                old(self)@.tokens,
                old(self)@.pos,
            ),
            match expr {
                Ok(node) => binary(old(self)@.tokens, old(self)@.pos, level).outcome == Ok::<
                    ExprTree,
                    ErrorView,
                >(expr_tree(node)) && left(final(self)@.tokens, final(self)@.pos) < left(
                    old(self)@.tokens,
                    old(self)@.pos,
                ),
                Err(error) => binary(old(self)@.tokens, old(self)@.pos, level).outcome == Err::<
                    ExprTree,
                    ErrorView,
                >(error@),
            },
        decreases left(old(self)@.tokens, old(self)@.pos), level.rank(), 1nat,
    {
        let first = self.parse_operand(level)?;
        self.parse_chain(level, first)
    }

    /// Parses a comparison: terms joined by comparison operators.
    fn parse_comparison(&mut self) -> (expr: ParseResult<ExprNode>)
        ensures
            final(self)@.tokens == old(self)@.tokens,
            final(self)@.pos == binary(old(self)@.tokens, old(self)@.pos, Level::Comparison).pos,
            left(final(self)@.tokens, final(self)@.pos) <= left(
                old(self)@.tokens,
                old(self)@.pos,
            ),
            match expr {
                Ok(node) => binary(old(self)@.tokens, old(self)@.pos, Level::Comparison).outcome
                    == Ok::<ExprTree, ErrorView>(expr_tree(node)) && left(
                    final(self)@.tokens,
                    final(self)@.pos,
                ) < left(old(self)@.tokens, old(self)@.pos),
                Err(error) => binary(
                    old(self)@.tokens,
                    old(self)@.pos,
                    Level::Comparison,
                ).outcome == Err::<ExprTree, ErrorView>(error@),
            },
        decreases left(old(self)@.tokens, old(self)@.pos), 4nat, 2nat,
    {
        self.parse_binary(Level::Comparison)
    }

    /// Parses a term: factors joined by `+` and `-`.
    fn parse_term(&mut self) -> (expr: ParseResult<ExprNode>)
        ensures
            final(self)@.tokens == old(self)@.tokens,
            final(self)@.pos == binary(old(self)@.tokens, old(self)@.pos, Level::Term).pos,
            left(final(self)@.tokens, final(self)@.pos) <= left(
                old(self)@.tokens,
                old(self)@.pos,
            ),
            match expr {
                Ok(node) => binary(old(self)@.tokens, old(self)@.pos, Level::Term).outcome == Ok::<
                    ExprTree,
                    ErrorView,
                >(expr_tree(node)) && left(final(self)@.tokens, final(self)@.pos) < left(
                    old(self)@.tokens,
                    old(self)@.pos,
                ),
                Err(error) => binary(old(self)@.tokens, old(self)@.pos, Level::Term).outcome
                    == Err::<ExprTree, ErrorView>(error@),
            },
        decreases left(old(self)@.tokens, old(self)@.pos), 3nat, 2nat,
    {
        self.parse_binary(Level::Term)
    }

    /// Parses a factor: unary expressions joined by `*` and `/`.
    fn parse_factor(&mut self) -> (expr: ParseResult<ExprNode>)
        ensures
            final(self)@.tokens == old(self)@.tokens,
            final(self)@.pos == binary(old(self)@.tokens, old(self)@.pos, Level::Factor).pos,
            left(final(self)@.tokens, final(self)@.pos) <= left(
                old(self)@.tokens,
                old(self)@.pos,
            ),
            match expr {
                Ok(node) => binary(old(self)@.tokens, old(self)@.pos, Level::Factor).outcome == Ok::<
                    ExprTree,
                    ErrorView,
                >(expr_tree(node)) && left(final(self)@.tokens, final(self)@.pos) < left(
                    old(self)@.tokens,
                    old(self)@.pos,
                ),
                Err(error) => binary(old(self)@.tokens, old(self)@.pos, Level::Factor).outcome
                    == Err::<ExprTree, ErrorView>(error@),
            },
        decreases left(old(self)@.tokens, old(self)@.pos), 2nat, 2nat,
    {
        self.parse_binary(Level::Factor)
    }

    /// Parses a unary expression; see [`unary`].
    fn parse_unary(&mut self) -> (expr: ParseResult<ExprNode>)
        ensures
            final(self)@.tokens == old(self)@.tokens,
            final(self)@.pos == unary(old(self)@.tokens, old(self)@.pos).pos,
            left(final(self)@.tokens, final(self)@.pos) <= left(
                old(self)@.tokens,
                old(self)@.pos,
            ),
            match expr {
                Ok(node) => unary(old(self)@.tokens, old(self)@.pos).outcome == Ok::<
                    ExprTree,
                    ErrorView,
                >(expr_tree(node)) && left(final(self)@.tokens, final(self)@.pos) < left(
                    old(self)@.tokens,
                    old(self)@.pos,
                ),
                Err(error) => unary(old(self)@.tokens, old(self)@.pos).outcome == Err::<
                    ExprTree,
                    ErrorView,
                >(error@),
            },
        decreases left(old(self)@.tokens, old(self)@.pos), 1nat, 0nat,
    {
        if self.check(&TokenType::MINUS) {
            let op = self.advance();
            let right = self.parse_unary()?;
            return Ok(
                AstNode {
                    node: Expr::Unary { operator: op.token_type, operand: Box::new(right) },
                    position: op.position,
                    source_id: op.source_id,
                },
            );
        }
        self.parse_primary()
    }

    /// Parses a primary expression; see [`primary`].
    fn parse_primary(&mut self) -> (expr: ParseResult<ExprNode>)
        ensures
            final(self)@.tokens == old(self)@.tokens,
            final(self)@.pos == primary(old(self)@.tokens, old(self)@.pos).pos,
            left(final(self)@.tokens, final(self)@.pos) <= left(
                old(self)@.tokens,
                old(self)@.pos,
            ),
            match expr {
                Ok(node) => primary(old(self)@.tokens, old(self)@.pos).outcome == Ok::<
                    ExprTree,
                    ErrorView,
                >(expr_tree(node)) && left(final(self)@.tokens, final(self)@.pos) < left(
                    old(self)@.tokens,
                    old(self)@.pos,
                ),
                Err(error) => primary(old(self)@.tokens, old(self)@.pos).outcome == Err::<
                    ExprTree,
                    ErrorView,
                >(error@),
            },
        decreases left(old(self)@.tokens, old(self)@.pos), 0nat, 0nat,
    {
        let token = self.advance();
        match token.token_type {
            TokenType::NUMBER => {
                if let TokenValue::Number(n) = token.value {
                    let place = self.current();
                    return Ok(
                        AstNode {
                            node: Expr::Number(n),
                            position: place.position,
                            source_id: place.source_id,
                        },
                    );
                }
            },
            TokenType::IDENTIFIER => {
                if let TokenValue::Identifier(name) = token.value {
                    let place = self.current();
                    return Ok(
                        AstNode {
                            node: Expr::Variable(name),
                            position: place.position,
                            source_id: place.source_id,
                        },
                    );
                }
            },
            TokenType::LPAREN => {
                let expr = self.parse_expression()?;
                self.expect(&TokenType::RPAREN, "expected ')'")?;
                return Ok(expr);
            },
            _ => {},
        }
        Err(
            CompileError {
                message: String::from_str("expected expression, found ").concat(
                    token.token_type.name(),
                ),
                position: token.position,
                source_id: token.source_id,
            },
        )
    }
}

} // verus!
