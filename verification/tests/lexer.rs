use torch::errors::CompileError;
use torch::lexer::Lexer;
use torch::source::Source;
use torch::source_map::SourceMap;
use torch::token::{Keyword, Token, TokenType, TokenValue};

fn map_of(text: &str) -> SourceMap {
    let mut map = SourceMap::new();
    map.add(Source::new(text.to_string(), "main.torch".to_string()));
    map
}

fn lex(text: &str) -> Result<Vec<Token>, CompileError> {
    let mut map = map_of(text);
    let mut lexer = Lexer::new(&mut map);
    lexer.read_all()
}

fn kinds(text: &str) -> Vec<TokenType> {
    lex(text).unwrap().iter().map(|t| t.token_type).collect()
}

fn token(token_type: TokenType, value: TokenValue, position: usize) -> Token {
    Token { token_type, value, position, source_id: 0 }
}

#[test]
fn lexes_a_declaration() {
    assert_eq!(
        lex("let x = 12;").unwrap(),
        vec![
            token(TokenType::KEYWORD, TokenValue::Keyword(Keyword::LET), 0),
            token(TokenType::IDENTIFIER, TokenValue::Identifier("x".to_string()), 4),
            token(TokenType::ASSIGN, TokenValue::Empty, 6),
            token(TokenType::NUMBER, TokenValue::Number(12), 8),
            token(TokenType::SEMICOLON, TokenValue::Empty, 10),
            token(TokenType::EOF, TokenValue::Empty, 11),
        ]
    );
}

#[test]
fn an_empty_source_is_the_end_of_input() {
    assert_eq!(lex("").unwrap(), vec![token(TokenType::EOF, TokenValue::Empty, 0)]);
}

#[test]
fn directive_waits_for_the_file() {
    let mut map = map_of("a !include \"lib.torch\" b");
    let mut lexer = Lexer::new(&mut map);
    let first = lexer.read_all().unwrap();
    assert_eq!(first, vec![token(TokenType::IDENTIFIER, TokenValue::Identifier("a".to_string()), 0)]);
    assert_eq!(lexer.pending, Some("lib.torch".to_string()));
    assert_eq!(lexer.read_all().unwrap(), vec![]);
    assert!(lexer.enter_include("c\n".to_string()));
    assert!(!lexer.enter_include("d".to_string()));
    let rest = lexer.read_all().unwrap();
    assert_eq!(
        rest,
        vec![
            Token {
                token_type: TokenType::IDENTIFIER,
                value: TokenValue::Identifier("c".to_string()),
                position: 0,
                source_id: 1,
            },
            token(TokenType::IDENTIFIER, TokenValue::Identifier("b".to_string()), 23),
            token(TokenType::EOF, TokenValue::Empty, 24),
        ]
    );
    assert_eq!(map.files.len(), 2);
    assert_eq!(map.files[1].file_name, "lib.torch");
    assert_eq!(map.files[1].line_starts, vec![0, 2]);
}

#[test]
fn operators_of_one_and_two_characters() {
    assert_eq!(
        kinds("= == < <= > >= != + - * / { } ( ) [ ] , ;"),
        vec![
            TokenType::ASSIGN,
            TokenType::EQ,
            TokenType::LT,
            TokenType::LTE,
            TokenType::GT,
            TokenType::GTE,
            TokenType::NEQ,
            TokenType::PLUS,
            TokenType::MINUS,
            TokenType::ASTERISK,
            TokenType::SLASH,
            TokenType::LBRACE,
            TokenType::RBRACE,
            TokenType::LPAREN,
            TokenType::RPAREN,
            TokenType::LBRACKET,
            TokenType::RBRACKET,
            TokenType::COMMA,
            TokenType::SEMICOLON,
            TokenType::EOF,
        ]
    );
}

fn error(message: &str, position: usize) -> CompileError {
    CompileError { message: message.to_string(), position, source_id: 0 }
}

fn directive(rest: &str) -> String {
    format!("!include{}", rest)
}

#[test]
fn white_space_and_comments_are_skipped() {
    assert_eq!(
        lex(" \t\r\n# a comment ! @ \n  x# to the end").unwrap(),
        vec![
            token(TokenType::IDENTIFIER, TokenValue::Identifier("x".to_string()), 23),
            token(TokenType::EOF, TokenValue::Empty, 36),
        ]
    );
    assert_eq!(lex("#").unwrap(), vec![token(TokenType::EOF, TokenValue::Empty, 1)]);
    assert_eq!(lex("#\n#\n").unwrap(), vec![token(TokenType::EOF, TokenValue::Empty, 4)]);
    assert_eq!(lex("  ").unwrap(), vec![token(TokenType::EOF, TokenValue::Empty, 2)]);
}

#[test]
fn keywords_are_whole_words() {
    assert_eq!(
        lex("let if while lets iff While _let let1").unwrap().iter().map(|t| t.value.clone()).collect::<Vec<_>>(),
        vec![
            TokenValue::Keyword(Keyword::LET),
            TokenValue::Keyword(Keyword::IF),
            TokenValue::Keyword(Keyword::WHILE),
            TokenValue::Identifier("lets".to_string()),
            TokenValue::Identifier("iff".to_string()),
            TokenValue::Identifier("While".to_string()),
            TokenValue::Identifier("_let".to_string()),
            TokenValue::Identifier("let1".to_string()),
            TokenValue::Empty,
        ]
    );
    assert_eq!(
        kinds("let x"),
        vec![TokenType::KEYWORD, TokenType::IDENTIFIER, TokenType::EOF]
    );
}

#[test]
fn identifiers_take_letters_digits_and_underscores() {
    assert_eq!(
        lex("a_1B+__").unwrap(),
        vec![
            token(TokenType::IDENTIFIER, TokenValue::Identifier("a_1B".to_string()), 0),
            token(TokenType::PLUS, TokenValue::Empty, 4),
            token(TokenType::IDENTIFIER, TokenValue::Identifier("__".to_string()), 5),
            token(TokenType::EOF, TokenValue::Empty, 7),
        ]
    );
}

#[test]
fn a_number_ends_where_its_digits_end() {
    assert_eq!(
        lex("007x 42").unwrap(),
        vec![
            token(TokenType::NUMBER, TokenValue::Number(7), 0),
            token(TokenType::IDENTIFIER, TokenValue::Identifier("x".to_string()), 3),
            token(TokenType::NUMBER, TokenValue::Number(42), 5),
            token(TokenType::EOF, TokenValue::Empty, 7),
        ]
    );
}

#[test]
fn numbers_wrap_around_in_32_bits() {
    let value = |text: &str| lex(text).unwrap()[0].value.clone();
    assert_eq!(value("2147483647"), TokenValue::Number(i32::MAX));
    assert_eq!(value("2147483648"), TokenValue::Number(i32::MIN));
    assert_eq!(value("4294967295"), TokenValue::Number(-1));
    assert_eq!(value("4294967296"), TokenValue::Number(0));
    assert_eq!(value("4294967297"), TokenValue::Number(1));
    assert_eq!(value("0"), TokenValue::Number(0));
}

#[test]
fn a_minus_is_a_token_of_its_own() {
    assert_eq!(
        lex("-5").unwrap(),
        vec![
            token(TokenType::MINUS, TokenValue::Empty, 0),
            token(TokenType::NUMBER, TokenValue::Number(5), 1),
            token(TokenType::EOF, TokenValue::Empty, 2),
        ]
    );
}

#[test]
fn two_character_operators_need_both_characters_together() {
    assert_eq!(
        kinds("= = ==="),
        vec![TokenType::ASSIGN, TokenType::ASSIGN, TokenType::EQ, TokenType::ASSIGN, TokenType::EOF]
    );
    assert_eq!(kinds("<"), vec![TokenType::LT, TokenType::EOF]);
    assert_eq!(kinds(">="), vec![TokenType::GTE, TokenType::EOF]);
    assert_eq!(
        lex("a!=b").unwrap()[1],
        token(TokenType::NEQ, TokenValue::Empty, 1)
    );
}

#[test]
fn an_unknown_character_is_reported() {
    assert_eq!(lex("x @ y"), Err(error("unexpected character '@'", 2)));
    assert_eq!(lex("$"), Err(error("unexpected character '$'", 0)));
    assert_eq!(lex("\"a\""), Err(error("unexpected character '\"'", 0)));
    assert_eq!(lex("a.b"), Err(error("unexpected character '.'", 1)));
}

#[test]
fn a_byte_beyond_ascii_is_reported_as_the_character_of_its_value() {
    // The letter is encoded as 0xC3 0xA4; the first byte is at fault.
    assert_eq!(lex("x \u{e4}"), Err(error("unexpected character '\u{c3}'", 2)));
}

#[test]
fn a_lone_bang_is_reported() {
    assert_eq!(lex("!"), Err(error("unexpected character '!'", 0)));
    assert_eq!(lex("a ! b"), Err(error("unexpected character '!'", 2)));
    assert_eq!(lex("!inclusive"), Err(error("unexpected character '!'", 0)));
    assert_eq!(lex("! ="), Err(error("unexpected character '!'", 0)));
}

#[test]
fn a_diagnostic_leaves_the_lexer_at_the_place_at_fault() {
    let mut map = map_of("ab  @");
    let mut lexer = Lexer::new(&mut map);
    assert_eq!(lexer.read_all(), Err(error("unexpected character '@'", 4)));
    assert_eq!(lexer.pos(), 4);
    assert_eq!(lexer.read_all(), Err(error("unexpected character '@'", 4)));
}

#[test]
fn a_directive_needs_a_quoted_name() {
    assert_eq!(
        lex(&directive(" lib")),
        Err(error("Expected '\"', found Some('l')", 9))
    );
    assert_eq!(lex(&directive("")), Err(error("Expected '\"', found None", 8)));
    assert_eq!(lex(&directive("  \n")), Err(error("Expected '\"', found None", 11)));
    assert_eq!(
        lex(&directive("\n'lib'")),
        Err(error("Expected '\"', found Some('\\'')", 9))
    );
    assert_eq!(
        lex(&directive(" \"lib")),
        Err(error("Unterminated string literal", 10))
    );
    assert_eq!(lex(&directive("\"")), Err(error("Unterminated string literal", 9)));
}

#[test]
fn a_comment_does_not_set_a_directive_apart_from_its_name() {
    assert_eq!(
        lex(&directive(" # no\n\"lib\"")),
        Err(error("Expected '\"', found Some('#')", 9))
    );
}

#[test]
fn a_file_name_is_taken_as_it_stands() {
    let pending = |rest: &str| {
        let text = directive(rest);
        let mut map = map_of(&text);
        let mut lexer = Lexer::new(&mut map);
        assert_eq!(lexer.read_all().unwrap(), vec![]);
        lexer.pending.clone()
    };
    assert_eq!(pending("\"a b/c.torch\""), Some("a b/c.torch".to_string()));
    assert_eq!(pending("\"\""), Some(String::new()));
    assert_eq!(pending("   \"# no comment\" x"), Some("# no comment".to_string()));
    assert_eq!(pending("\"gr\u{fc}\u{df}e \u{1f525}\""), Some("gr\u{fc}\u{df}e \u{1f525}".to_string()));
    assert_eq!(pending("\"line\nbreak\""), Some("line\nbreak".to_string()));
}

#[test]
fn files_can_bring_in_files() {
    let first = format!("a {} z", directive("\"one\""));
    let second = format!("b {} y", directive("\"two\""));
    let mut map = map_of(&first);
    let mut lexer = Lexer::new(&mut map);
    let mut names = Vec::new();
    let mut all = lexer.read_all().unwrap();
    assert_eq!(lexer.pending, Some("one".to_string()));
    assert!(lexer.enter_include(second));
    all.extend(lexer.read_all().unwrap());
    assert_eq!(lexer.pending, Some("two".to_string()));
    assert!(lexer.enter_include("c".to_string()));
    all.extend(lexer.read_all().unwrap());
    assert_eq!(lexer.pending, None);
    for t in &all {
        if let TokenValue::Identifier(name) = &t.value {
            names.push((name.clone(), t.source_id));
        }
    }
    assert_eq!(
        names,
        vec![
            ("a".to_string(), 0),
            ("b".to_string(), 1),
            ("c".to_string(), 2),
            ("y".to_string(), 1),
            ("z".to_string(), 0),
        ]
    );
    assert_eq!(all.last().unwrap().token_type, TokenType::EOF);
    assert_eq!(all.last().unwrap().source_id, 0);
    assert_eq!(all.iter().filter(|t| t.token_type == TokenType::EOF).count(), 1);
    assert_eq!(map.files.len(), 3);
    assert_eq!(map.files[1].file_name, "one");
    assert_eq!(map.files[2].file_name, "two");
}

#[test]
fn an_empty_file_brings_in_nothing() {
    let text = format!("a {} b", directive("\"empty\""));
    let mut map = map_of(&text);
    let mut lexer = Lexer::new(&mut map);
    let mut all = lexer.read_all().unwrap();
    assert!(lexer.enter_include("  # nothing\n".to_string()));
    all.extend(lexer.read_all().unwrap());
    assert_eq!(
        all.iter().map(|t| t.token_type).collect::<Vec<_>>(),
        vec![TokenType::IDENTIFIER, TokenType::IDENTIFIER, TokenType::EOF]
    );
}

#[test]
fn a_diagnostic_in_a_file_names_that_file() {
    let text = format!("a {} b", directive("\"bad\""));
    let mut map = map_of(&text);
    let mut lexer = Lexer::new(&mut map);
    lexer.read_all().unwrap();
    assert!(lexer.enter_include("ok\n  ?".to_string()));
    assert_eq!(
        lexer.read_all(),
        Err(CompileError {
            message: "unexpected character '?'".to_string(),
            position: 5,
            source_id: 1,
        })
    );
}

#[test]
fn a_new_lexer_stands_at_the_start_of_the_first_source() {
    let mut map = map_of("x");
    let lexer = Lexer::new(&mut map);
    assert_eq!(lexer.contexts.len(), 1);
    assert_eq!(lexer.contexts[0].source_id, 0);
    assert_eq!(lexer.contexts[0].pos, 0);
    assert_eq!(lexer.context_id, 0);
    assert_eq!(lexer.pending, None);
    assert_eq!(lexer.pos(), 0);
}

#[test]
fn reading_again_behind_the_end_yields_the_end_again() {
    let mut map = map_of("x ");
    let mut lexer = Lexer::new(&mut map);
    assert_eq!(lexer.read_all().unwrap().len(), 2);
    assert_eq!(lexer.read_all().unwrap(), vec![token(TokenType::EOF, TokenValue::Empty, 2)]);
}

#[test]
fn a_file_that_cannot_be_handed_in_is_reported_behind_the_directive() {
    let mut map = map_of("a\n  !include \"gone.torch\" b");
    let mut lexer = Lexer::new(&mut map);
    assert_eq!(lexer.read_all().unwrap().len(), 1);
    assert_eq!(
        lexer.include_failed("No such file or directory (os error 2)"),
        Some(error(
            "Failed to include file 'gone.torch': No such file or directory (os error 2)",
            25
        ))
    );
    assert_eq!(lexer.pending, None);
    assert_eq!(lexer.include_failed("again"), None);
    // The lexer goes on behind the directive.
    assert_eq!(
        lexer.read_all().unwrap(),
        vec![
            token(TokenType::IDENTIFIER, TokenValue::Identifier("b".to_string()), 26),
            token(TokenType::EOF, TokenValue::Empty, 27),
        ]
    );
}
