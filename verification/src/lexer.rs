//! The lexer: from the bytes of the sources to tokens.
//!
//! White space and comments, which run from `#` to the end of the line, set
//! tokens apart and are skipped. The directive `!include "file"` names a
//! file whose tokens take the place of the directive. The lexer does not
//! read files: it stops at a directive and goes on once it was handed the
//! file's text.

use vstd::prelude::*;
use vstd::slice::{slice_subrange, slice_to_vec};
use vstd::string::StringExecFns;
use vstd::utf8::{
    decode_utf8, encode_utf8, encode_utf8_decode_utf8, encode_utf8_valid_utf8,
    is_char_boundary_iff_not_is_continuation_byte, is_leading_byte_width_1, partial_valid_utf8,
    partial_valid_utf8_extend_ascii_block, valid_utf8, valid_utf8_split,
};
use crate::errors::{CompileError, ErrorView};
use crate::search::{first_index, lemma_first_index, lemma_first_index_found, lemma_first_index_none};
use crate::source::Source;
use crate::source_map::SourceMap;
use crate::token::{Keyword, Token, TokenType, TokenValue, TokenView, ValueView};

verus! {

pub type LexResult<T> = Result<T, CompileError>;

pub const TAB: u8 = 9;

pub const LINE_FEED: u8 = 10;

pub const CARRIAGE_RETURN: u8 = 13;

pub const SPACE: u8 = 32;

pub const BANG: u8 = 33;

pub const QUOTE: u8 = 34;

pub const HASH: u8 = 35;

pub const PAREN_OPEN: u8 = 40;

pub const PAREN_CLOSE: u8 = 41;

pub const STAR: u8 = 42;

pub const PLUS: u8 = 43;

pub const COMMA: u8 = 44;

pub const MINUS: u8 = 45;

pub const SLASH: u8 = 47;

pub const DIGIT_ZERO: u8 = 48;

pub const DIGIT_NINE: u8 = 57;

pub const SEMICOLON: u8 = 59;

pub const LESS: u8 = 60;

pub const EQUALS: u8 = 61;

pub const GREATER: u8 = 62;

pub const UPPER_A: u8 = 65;

pub const UPPER_Z: u8 = 90;

pub const BRACKET_OPEN: u8 = 91;

pub const BRACKET_CLOSE: u8 = 93;

pub const UNDERSCORE: u8 = 95;

pub const LOWER_A: u8 = 97;

pub const LOWER_Z: u8 = 122;

pub const BRACE_OPEN: u8 = 123;

pub const BRACE_CLOSE: u8 = 125;

/// A class of bytes that a run is made of.
#[derive(Debug, Clone, Copy, PartialEq, Eq, Structural)]
pub enum Class {
    /// Blank, line feed, tab and carriage return.
    Space,
    /// The decimal digits.
    Digit,
    /// Letters, digits and the underscore.
    Word,
    /// Everything but the line feed.
    Comment,
    /// Everything but the double quote.
    Quoted,
}

impl Class {
    /// Whether the byte belongs to the class.
    pub open spec fn holds(self, b: u8) -> bool {
        match self {
            Class::Space => b == SPACE || b == LINE_FEED || b == TAB || b == CARRIAGE_RETURN,
            Class::Digit => DIGIT_ZERO <= b <= DIGIT_NINE,
            Class::Word => LOWER_A <= b <= LOWER_Z || UPPER_A <= b <= UPPER_Z || DIGIT_ZERO <= b
                <= DIGIT_NINE || b == UNDERSCORE,
            Class::Comment => b != LINE_FEED,
            Class::Quoted => b != QUOTE,
        }
    }

    /// Whether the byte belongs to the class.
    fn has(self, b: u8) -> (held: bool)
        ensures
            held == self.holds(b),
    {
        match self {
            Class::Space => b == SPACE || b == LINE_FEED || b == TAB || b == CARRIAGE_RETURN,
            Class::Digit => DIGIT_ZERO <= b && b <= DIGIT_NINE,
            Class::Word => (LOWER_A <= b && b <= LOWER_Z) || (UPPER_A <= b && b <= UPPER_Z) || (
            DIGIT_ZERO <= b && b <= DIGIT_NINE) || b == UNDERSCORE,
            Class::Comment => b != LINE_FEED,
            Class::Quoted => b != QUOTE,
        }
    }
}

/// Whether the byte at an index is outside a class.
pub open spec fn leaves(bytes: Seq<u8>, class: Class) -> spec_fn(int) -> bool {
    |i: int| !class.holds(bytes[i])
}

/// Where the run of bytes of a class that starts at `pos` ends: at the first
/// byte outside the class, or at the end of the text.
pub open spec fn run_end(bytes: Seq<u8>, pos: int, class: Class) -> int {
    match first_index(leaves(bytes, class), pos, bytes.len() as int) {
        Some(end) => end,
        None => if pos <= bytes.len() {
            bytes.len() as int
        } else {
            pos
        },
    }
}

/// Where white space and comments that start at `pos` end: at the first
/// byte that belongs to neither, or at the end of the text.
pub open spec fn skip_blank(bytes: Seq<u8>, pos: int) -> int
    decreases bytes.len() - pos,
{
    let seen = run_end(bytes, pos, Class::Space);
    let line_end = run_end(bytes, seen + 1, Class::Comment);
    if byte_at(bytes, seen) == Some(HASH) && pos < line_end <= bytes.len() {
        skip_blank(bytes, line_end)
    } else {
        seen
    }
}

/// The number that the first `count` digits stand for. It wraps around in
/// 32 bits.
pub open spec fn digits_value(digits: Seq<u8>, count: nat) -> i32
    decreases count,
{
    if count == 0 {
        0
    } else {
        digits_value(digits, (count - 1) as nat).wrapping_mul(10).wrapping_add(
            (digits[count - 1] - DIGIT_ZERO) as i32,
        )
    }
}

/// The characters `let`.
pub open spec fn word_let() -> Seq<u8> {
    seq![108u8, 101u8, 116u8]
}

/// The characters `if`.
pub open spec fn word_if() -> Seq<u8> {
    seq![105u8, 102u8]
}

/// The characters `while`.
pub open spec fn word_while() -> Seq<u8> {
    seq![119u8, 104u8, 105u8, 108u8, 101u8]
}

/// The characters `include`: the name of the directive that brings in
/// another file. It follows a `!` directly.
pub open spec fn directive_name() -> Seq<u8> {
    seq![105u8, 110u8, 99u8, 108u8, 117u8, 100u8, 101u8]
}

/// The message for a byte that starts no token.
pub open spec fn unexpected_character_text(c: char) -> Seq<char> {
    "unexpected character '"@.push(c) + "'"@
}

/// The message for a directive whose file name starts with the character
/// `found` and not with a double quote: it shows the character the way the
/// standard library shows an optional character for debugging, with what
/// has no picture of its own escaped.
pub uninterp spec fn expected_quote_found_text(found: char) -> Seq<char>;

/// The message for a directive whose file name does not start with a
/// double quote: it shows what was found in its place, if anything.
pub open spec fn expected_quote_text(found: Option<char>) -> Seq<char> {
    match found {
        Some(c) => expected_quote_found_text(c),
        None => "Expected '\"', found None"@,
    }
}

/// The message for a file that a directive names and that could not be
/// handed in.
pub open spec fn include_failed_text(file_name: Seq<char>, reason: Seq<char>) -> Seq<char> {
    "Failed to include file '"@ + file_name + "': "@ + reason
}

/// The message for a file name without a closing quote.
pub open spec fn unterminated_text() -> Seq<char> {
    "Unterminated string literal"@
}

/// What starts at a place in a text.
pub enum Lexeme {
    /// A token, which ends before `end`.
    Token { token_type: TokenType, value: ValueView, end: int },
    /// A directive that names a file, and which ends before `end`.
    Include { name: Seq<u8>, end: int },
    /// Nothing that the language knows: the place is at fault.
    Error { message: Seq<char>, position: int },
}

/// The byte at `pos`, if the text reaches that far.
pub open spec fn byte_at(bytes: Seq<u8>, pos: int) -> Option<u8> {
    if 0 <= pos < bytes.len() {
        Some(bytes[pos])
    } else {
        None
    }
}

/// A token of one byte.
pub open spec fn single(token_type: TokenType, pos: int) -> Lexeme {
    Lexeme::Token { token_type: token_type, value: ValueView::Empty, end: pos + 1 }
}

/// The token `paired` if `=` follows the byte at `pos`, and the token
/// `alone` if not.
pub open spec fn with_equals(bytes: Seq<u8>, pos: int, paired: TokenType, alone: TokenType) -> Lexeme {
    if byte_at(bytes, pos + 1) == Some(EQUALS) {
        Lexeme::Token { token_type: paired, value: ValueView::Empty, end: pos + 2 }
    } else {
        single(alone, pos)
    }
}

/// The number that starts at `pos`: the longest run of digits.
pub open spec fn number(bytes: Seq<u8>, pos: int) -> Lexeme {
    let end = run_end(bytes, pos, Class::Digit);
    Lexeme::Token {
        token_type: TokenType::NUMBER,
        value: ValueView::Number(digits_value(bytes.subrange(pos, end), (end - pos) as nat)),
        end: end,
    }
}

/// The word that starts at `pos`, the longest run of letters, digits and
/// underscores: a keyword if it is one, and an identifier if not.
pub open spec fn word(bytes: Seq<u8>, pos: int) -> Lexeme {
    let end = run_end(bytes, pos, Class::Word);
    let text = bytes.subrange(pos, end);
    if text == word_let() {
        Lexeme::Token {
            token_type: TokenType::KEYWORD,
            value: ValueView::Keyword(Keyword::LET),
            end: end,
        }
    } else if text == word_if() {
        Lexeme::Token {
            token_type: TokenType::KEYWORD,
            value: ValueView::Keyword(Keyword::IF),
            end: end,
        }
    } else if text == word_while() {
        Lexeme::Token {
            token_type: TokenType::KEYWORD,
            value: ValueView::Keyword(Keyword::WHILE),
            end: end,
        }
    } else {
        Lexeme::Token {
            token_type: TokenType::IDENTIFIER,
            value: ValueView::Identifier(decode_utf8(text)),
            end: end,
        }
    }
}

/// The file name that is expected at `pos`: the bytes between a double
/// quote at `pos` and the next one.
pub open spec fn string_literal(bytes: Seq<u8>, pos: int) -> Lexeme {
    if byte_at(bytes, pos) != Some(QUOTE) {
        Lexeme::Error {
            message: expected_quote_text(
                match byte_at(bytes, pos) {
                    Some(b) => Some(b as char),
                    None => None,
                },
            ),
            position: pos,
        }
    } else {
        let close = run_end(bytes, pos + 1, Class::Quoted);
        if close >= bytes.len() {
            Lexeme::Error { message: unterminated_text(), position: pos + 1 }
        } else {
            Lexeme::Include { name: bytes.subrange(pos + 1, close), end: close + 1 }
        }
    }
}

/// What the `!` at `pos` starts: the operator `!=`, or the directive, whose
/// name may be set apart from the file name by white space. A `!` that
/// starts neither is at fault.
pub open spec fn bang(bytes: Seq<u8>, pos: int) -> Lexeme {
    if byte_at(bytes, pos + 1) == Some(EQUALS) {
        Lexeme::Token { token_type: TokenType::NEQ, value: ValueView::Empty, end: pos + 2 }
    } else if pos + 8 <= bytes.len() && bytes.subrange(pos + 1, pos + 8) == directive_name() {
        string_literal(bytes, run_end(bytes, pos + 8, Class::Space))
    } else {
        Lexeme::Error { message: unexpected_character_text(BANG as char), position: pos }
    }
}

/// What starts at `pos`, where a byte stands that is neither white space
/// nor the start of a comment.
pub open spec fn scan(bytes: Seq<u8>, pos: int) -> Lexeme {
    let c = bytes[pos];
    if c == PLUS {
        single(TokenType::PLUS, pos)
    } else if c == MINUS {
        single(TokenType::MINUS, pos)
    } else if c == STAR {
        single(TokenType::ASTERISK, pos)
    } else if c == SLASH {
        single(TokenType::SLASH, pos)
    } else if c == EQUALS {
        with_equals(bytes, pos, TokenType::EQ, TokenType::ASSIGN)
    } else if c == LESS {
        with_equals(bytes, pos, TokenType::LTE, TokenType::LT)
    } else if c == GREATER {
        with_equals(bytes, pos, TokenType::GTE, TokenType::GT)
    } else if c == BRACE_OPEN {
        single(TokenType::LBRACE, pos)
    } else if c == BRACE_CLOSE {
        single(TokenType::RBRACE, pos)
    } else if c == PAREN_OPEN {
        single(TokenType::LPAREN, pos)
    } else if c == PAREN_CLOSE {
        single(TokenType::RPAREN, pos)
    } else if c == BRACKET_OPEN {
        single(TokenType::LBRACKET, pos)
    } else if c == BRACKET_CLOSE {
        single(TokenType::RBRACKET, pos)
    } else if c == COMMA {
        single(TokenType::COMMA, pos)
    } else if c == SEMICOLON {
        single(TokenType::SEMICOLON, pos)
    } else if c == BANG {
        bang(bytes, pos)
    } else if Class::Digit.holds(c) {
        number(bytes, pos)
    } else if Class::Word.holds(c) {
        word(bytes, pos)
    } else {
        Lexeme::Error { message: unexpected_character_text(c as char), position: pos }
    }
}

/// A run ends at or behind its start and within the text, at a byte outside
/// the class if it ends before the end of the text; and every byte of the
/// run belongs to the class.
pub proof fn lemma_run_end(bytes: Seq<u8>, pos: int, class: Class)
    requires
        0 <= pos <= bytes.len(),
    ensures
        pos <= run_end(bytes, pos, class) <= bytes.len(),
        run_end(bytes, pos, class) < bytes.len() ==> !class.holds(
            bytes[run_end(bytes, pos, class)],
        ),
        forall|i: int| pos <= i < run_end(bytes, pos, class) ==> class.holds(#[trigger] bytes[i]),
{
    lemma_first_index(leaves(bytes, class), pos, bytes.len() as int);
    assert forall|i: int| pos <= i < run_end(bytes, pos, class) implies class.holds(
        #[trigger] bytes[i],
    ) by {
        assert(!leaves(bytes, class)(i));
    }
}

/// White space and comments end at or behind their start and within the
/// text, and not at a byte that belongs to either.
pub proof fn lemma_skip_blank(bytes: Seq<u8>, pos: int)
    requires
        0 <= pos <= bytes.len(),
    ensures
        pos <= skip_blank(bytes, pos) <= bytes.len(),
        skip_blank(bytes, pos) < bytes.len() ==> !Class::Space.holds(
            bytes[skip_blank(bytes, pos)],
        ) && bytes[skip_blank(bytes, pos)] != HASH,
    decreases bytes.len() - pos,
{
    lemma_run_end(bytes, pos, Class::Space);
    let seen = run_end(bytes, pos, Class::Space);
    if byte_at(bytes, seen) == Some(HASH) {
        lemma_run_end(bytes, seen + 1, Class::Comment);
        lemma_skip_blank(bytes, run_end(bytes, seen + 1, Class::Comment));
    }
}

/// What starts at a byte that is no white space takes up at least that
/// byte, and ends within the text.
pub proof fn lemma_scan_advances(bytes: Seq<u8>, pos: int)
    requires
        0 <= pos < bytes.len(),
    ensures
        scan(bytes, pos) matches Lexeme::Token { end, .. } ==> pos < end <= bytes.len(),
        scan(bytes, pos) matches Lexeme::Include { end, .. } ==> pos < end <= bytes.len(),
        scan(bytes, pos) matches Lexeme::Error { position, .. } ==> pos <= position <= bytes.len(),
{
    lemma_run_end(bytes, pos, Class::Digit);
    lemma_run_end(bytes, pos, Class::Word);
    if pos + 8 <= bytes.len() {
        lemma_run_end(bytes, pos + 8, Class::Space);
        let quote = run_end(bytes, pos + 8, Class::Space);
        if quote < bytes.len() {
            lemma_run_end(bytes, quote + 1, Class::Quoted);
        }
    }
    if Class::Digit.holds(bytes[pos]) {
        assert(!leaves(bytes, Class::Digit)(pos));
        lemma_first_index(leaves(bytes, Class::Digit), pos, bytes.len() as int);
    }
    if Class::Word.holds(bytes[pos]) {
        assert(!leaves(bytes, Class::Word)(pos));
        lemma_first_index(leaves(bytes, Class::Word), pos, bytes.len() as int);
    }
}

/// The number that the first `count` digits stand for in decimal notation.
pub open spec fn decimal_value(digits: Seq<u8>, count: nat) -> nat
    decreases count,
{
    if count == 0 {
        0
    } else {
        decimal_value(digits, (count - 1) as nat) * 10 + (digits[count - 1] - DIGIT_ZERO) as nat
    }
}

/// Digits stand for their decimal value as long as that fits in 32 bits
/// with a sign: nothing wraps around then.
pub proof fn lemma_digits_value(digits: Seq<u8>, count: nat)
    requires
        count <= digits.len(),
        forall|i: int| 0 <= i < count ==> Class::Digit.holds(#[trigger] digits[i]),
        decimal_value(digits, count) <= i32::MAX,
    ensures
        digits_value(digits, count) == decimal_value(digits, count),
    decreases count,
{
    if count > 0 {
        assert(Class::Digit.holds(digits[count - 1]));
        lemma_digits_value(digits, (count - 1) as nat);
        let before = decimal_value(digits, (count - 1) as nat);
        assert(0 <= before * 10 <= i32::MAX);
        assert((before * 10) % 0x1_0000_0000 == before * 10);
    }
}

/// A text of bytes below 128 is well-formed UTF-8.
proof fn lemma_ascii_is_valid(text: Seq<u8>)
    requires
        forall|i: int| 0 <= i < text.len() ==> #[trigger] text[i] < 128,
    ensures
        valid_utf8(text),
{
    assert(text.subrange(0, 0) =~= Seq::<u8>::empty());
    assert(partial_valid_utf8(text, 0));
    assert forall|i: int| 0 <= 0 <= i < text.len() <= text.len() implies #[trigger] is_leading_byte_width_1(
        text[i],
    ) by {}
    partial_valid_utf8_extend_ascii_block(text, 0, text.len() as int);
    assert(text.subrange(0, text.len() as int) =~= text);
}

/// In well-formed UTF-8, what stands between a double quote and the next
/// one is well-formed UTF-8.
proof fn lemma_quoted_is_valid(bytes: Seq<u8>, open: int, close: int)
    requires
        valid_utf8(bytes),
        0 <= open < close < bytes.len(),
        bytes[open] == QUOTE,
        bytes[close] == QUOTE,
    ensures
        valid_utf8(bytes.subrange(open + 1, close)),
{
    is_char_boundary_iff_not_is_continuation_byte(bytes, open);
    valid_utf8_split(bytes, open);
    let tail = bytes.subrange(open, bytes.len() as int);
    assert(tail[0] == QUOTE);
    reveal_with_fuel(valid_utf8, 2);
    let rest = tail.subrange(1, tail.len() as int);
    assert(valid_utf8(rest));
    assert(rest =~= bytes.subrange(open + 1, bytes.len() as int));
    assert(rest[close - open - 1] == bytes[close]);
    is_char_boundary_iff_not_is_continuation_byte(rest, close - open - 1);
    valid_utf8_split(rest, close - open - 1);
    assert(rest.subrange(0, close - open - 1) =~= bytes.subrange(open + 1, close));
}

/// The text that the bytes encode in UTF-8, if they encode one: the call
/// is `String::from_utf8`, which keeps the bytes as they are and fails just
/// when they are not well-formed.
#[verifier::external_body]
fn string_from_utf8(bytes: Vec<u8>) -> (text: Option<String>)
    ensures
        text is Some <==> valid_utf8(bytes@),
        text matches Some(s) ==> encode_utf8(s@) == bytes@,
{
    String::from_utf8(bytes).ok()
}

/// The message for a byte that starts no token, as `format!` puts it
/// together: the character goes between the quotes as it is.
#[verifier::external_body]
fn unexpected_character_message(c: char) -> (text: String)
    ensures
        text@ == unexpected_character_text(c),
{
    format!("unexpected character '{}'", c)
}

/// The message for a character that stands where a double quote is
/// missing, as `format!` puts it together: the character is shown the way
/// `Debug` shows an optional character that is there. Nothing is claimed of
/// the text but that it depends on the character alone.
#[verifier::external_body]
fn expected_quote_message(found: char) -> (text: String)
    ensures
        text@ == expected_quote_found_text(found),
{
    format!("Expected '\"', found {:?}", Some(found))
}

/// What the lexer finds at a place in a text.
pub enum Scanned {
    Token { token_type: TokenType, value: TokenValue, end: usize },
    Include { name: String, end: usize },
    Error { message: String, position: usize },
}

impl View for Scanned {
    type V = Lexeme;

    open spec fn view(&self) -> Lexeme {
        match *self {
            Scanned::Token { token_type, value, end } => Lexeme::Token {
                token_type: token_type,
                value: value@,
                end: end as int,
            },
            Scanned::Include { name, end } => Lexeme::Include {
                name: encode_utf8(name@),
                end: end as int,
            },
            Scanned::Error { message, position } => Lexeme::Error {
                message: message@,
                position: position as int,
            },
        }
    }
}

/// One source that is being read, and how far it was read.
pub struct LexerContext {
    pub source_id: usize,
    pub pos: usize,
}

/// What a step of the lexer comes upon.
pub enum Event {
    /// A token.
    Token(TokenView),
    /// A directive that names a file.
    Include(Seq<char>),
    /// A place that is at fault.
    Error(ErrorView),
}

/// The outcome of a step of the lexer: the sources that are still being
/// read, and what the step came upon.
pub struct Stepped {
    pub contexts: Seq<LexerContext>,
    pub event: Event,
}

/// How a reading ends.
pub enum Ending {
    /// At the end of the first source.
    Finished,
    /// At a directive, behind which the reading goes on once the file that
    /// it names was handed in.
    Include(Seq<char>),
    /// At a place that is at fault.
    Error(ErrorView),
}

/// The outcome of a reading: the tokens that were read, the sources that
/// are still being read, and how the reading ended.
pub struct Reading {
    pub tokens: Seq<TokenView>,
    pub contexts: Seq<LexerContext>,
    pub ending: Ending,
}

/// The token that ends the input.
pub open spec fn end_of_input(position: usize, source_id: usize) -> TokenView {
    TokenView {
        token_type: TokenType::EOF,
        value: ValueView::Empty,
        position: position,
        source_id: source_id,
    }
}

/// Every source that is being read is a source of the map, and was not read
/// beyond its end.
pub open spec fn contexts_wf(files: Seq<Source>, contexts: Seq<LexerContext>) -> bool {
    forall|k: int|
        0 <= k < contexts.len() ==> (#[trigger] contexts[k]).source_id < files.len()
            && contexts[k].pos <= files[contexts[k].source_id as int].bytes().len()
}

/// The sources that are being read, with the innermost read up to `pos`.
pub open spec fn moved_to(contexts: Seq<LexerContext>, pos: int) -> Seq<LexerContext> {
    contexts.update(
        contexts.len() - 1,
        LexerContext { source_id: contexts.last().source_id, pos: pos as usize },
    )
}

/// One step of the lexer.
///
/// White space and comments of the innermost source are skipped. If that
/// source ends there, the step goes on in the source that brought it in;
/// the first source ends with the token `EOF`. Otherwise the step comes
/// upon what starts there, and reads on behind it. A place that is at
/// fault is not read beyond.
pub open spec fn step(files: Seq<Source>, contexts: Seq<LexerContext>) -> Stepped
    decreases contexts.len(),
{
    if contexts.len() == 0 {
        Stepped { contexts: contexts, event: Event::Token(end_of_input(0, 0)) }
    } else {
        let top = contexts.last();
        let bytes = files[top.source_id as int].bytes();
        let at = skip_blank(bytes, top.pos as int);
        if at >= bytes.len() {
            if contexts.len() > 1 {
                step(files, contexts.drop_last())
            } else {
                Stepped {
                    contexts: moved_to(contexts, at),
                    event: Event::Token(end_of_input(at as usize, top.source_id)),
                }
            }
        } else {
            match scan(bytes, at) {
                Lexeme::Token { token_type, value, end } => Stepped {
                    contexts: moved_to(contexts, end),
                    event: Event::Token(
                        TokenView {
                            token_type: token_type,
                            value: value,
                            position: at as usize,
                            source_id: top.source_id,
                        },
                    ),
                },
                Lexeme::Include { name, end } => Stepped {
                    contexts: moved_to(contexts, end),
                    event: Event::Include(decode_utf8(name)),
                },
                Lexeme::Error { message, position } => Stepped {
                    contexts: moved_to(contexts, at),
                    event: Event::Error(
                        ErrorView {
                            message: message,
                            position: position as usize,
                            source_id: top.source_id,
                        },
                    ),
                },
            }
        }
    }
}

/// How much is left to read of the first `count` sources that are being
/// read: their unread bytes, and one more for each of them.
pub open spec fn remaining(files: Seq<Source>, contexts: Seq<LexerContext>, count: nat) -> int
    decreases count,
{
    if count == 0 {
        0
    } else {
        remaining(files, contexts, (count - 1) as nat) + files[contexts[count
            - 1].source_id as int].bytes().len() - contexts[count - 1].pos + 1
    }
}

/// Reads tokens until the input ends, a directive names a file, or a place
/// is at fault. The token `EOF` is the last token of a finished reading.
pub open spec fn read(files: Seq<Source>, contexts: Seq<LexerContext>) -> Reading
    decreases remaining(files, contexts, contexts.len()),
{
    let next = step(files, contexts);
    match next.event {
        Event::Token(token) => if token.token_type != TokenType::EOF && 0 <= remaining(
            files,
            next.contexts,
            next.contexts.len(),
        ) < remaining(files, contexts, contexts.len()) {
            let rest = read(files, next.contexts);
            Reading { tokens: seq![token] + rest.tokens, ..rest }
        } else {
            Reading { tokens: seq![token], contexts: next.contexts, ending: Ending::Finished }
        },
        Event::Include(name) => Reading {
            tokens: Seq::empty(),
            contexts: next.contexts,
            ending: Ending::Include(name),
        },
        Event::Error(error) => Reading {
            tokens: Seq::empty(),
            contexts: next.contexts,
            ending: Ending::Error(error),
        },
    }
}

/// What is left to read depends on the sources that are counted alone.
proof fn lemma_remaining_prefix(
    files: Seq<Source>,
    a: Seq<LexerContext>,
    b: Seq<LexerContext>,
    count: nat,
)
    requires
        count <= a.len(),
        count <= b.len(),
        forall|k: int| 0 <= k < count ==> a[k] == b[k],
    ensures
        remaining(files, a, count) == remaining(files, b, count),
    decreases count,
{
    if count > 0 {
        lemma_remaining_prefix(files, a, b, (count - 1) as nat);
    }
}

/// Something is left to read of every source that is being read.
proof fn lemma_remaining_positive(files: Seq<Source>, contexts: Seq<LexerContext>, count: nat)
    requires
        count <= contexts.len(),
        contexts_wf(files, contexts),
    ensures
        remaining(files, contexts, count) >= count,
    decreases count,
{
    if count > 0 {
        lemma_remaining_positive(files, contexts, (count - 1) as nat);
    }
}

/// A step keeps the sources that are being read in order, and never adds
/// to what is left to read. A token other than `EOF` takes away from it.
pub proof fn lemma_step(files: Seq<Source>, contexts: Seq<LexerContext>)
    requires
        contexts.len() > 0,
        contexts_wf(files, contexts),
        forall|i: int| 0 <= i < files.len() ==> (#[trigger] files[i]).wf(),
    ensures
        step(files, contexts).contexts.len() > 0,
        step(files, contexts).contexts.len() <= contexts.len(),
        contexts_wf(files, step(files, contexts).contexts),
        0 <= remaining(
            files,
            step(files, contexts).contexts,
            step(files, contexts).contexts.len(),
        ) <= remaining(files, contexts, contexts.len()),
        step(files, contexts).event matches Event::Token(token) && token.token_type
            != TokenType::EOF ==> remaining(
            files,
            step(files, contexts).contexts,
            step(files, contexts).contexts.len(),
        ) < remaining(files, contexts, contexts.len()),
    decreases contexts.len(),
{
    let top = contexts.last();
    let bytes = files[top.source_id as int].bytes();
    let at = skip_blank(bytes, top.pos as int);
    let count = contexts.len();
    lemma_skip_blank(bytes, top.pos as int);
    lemma_remaining_positive(files, contexts, (count - 1) as nat);
    assert(files[top.source_id as int].wf());
    assert(remaining(files, contexts, count) == remaining(files, contexts, (count - 1) as nat)
        + bytes.len() - top.pos + 1);
    if at >= bytes.len() {
        if count > 1 {
            let outer = contexts.drop_last();
            lemma_step(files, outer);
            lemma_remaining_prefix(files, outer, contexts, (count - 1) as nat);
        } else {
            let next = moved_to(contexts, at);
            lemma_remaining_prefix(files, next, contexts, (count - 1) as nat);
            assert(remaining(files, next, count) == remaining(files, next, (count - 1) as nat)
                + bytes.len() - next[count - 1].pos + 1);
        }
    } else {
        lemma_scan_advances(bytes, at);
        let next = step(files, contexts).contexts;
        lemma_remaining_prefix(files, next, contexts, (count - 1) as nat);
        assert(next[count - 1].source_id == top.source_id);
        assert(remaining(files, next, count) == remaining(files, next, (count - 1) as nat)
            + bytes.len() - next[count - 1].pos + 1);
    }
}

/// What a step of the lexer yields.
pub enum LexStep {
    /// A token.
    Token(Token),
    /// The name of a file that a directive brings in.
    Include(String),
}

/// The lexer of the sources of a source map, of which the first is the one
/// to start with.
pub struct Lexer<'a> {
    /// The sources that are being read: the first source, then each source
    /// that was brought in and has not ended.
    pub contexts: Vec<LexerContext>,
    pub source_map: &'a mut SourceMap,
    /// The index of the innermost source that is being read.
    pub context_id: usize,
    /// The name of the file that the lexer waits for, if it stopped at a
    /// directive.
    pub pending: Option<String>,
}

impl<'a> Lexer<'a> {
    /// The sources are those of the map, whose line starts are in order;
    /// one source at least is being read, and none was read beyond its end.
    pub open spec fn wf(&self) -> bool {
        &&& self.source_map.wf()
        &&& self.contexts@.len() > 0
        &&& self.context_id == self.contexts@.len() - 1
        &&& contexts_wf(self.source_map.files@, self.contexts@)
    }

    /// The bytes of the innermost source that is being read.
    pub open spec fn text(&self) -> Seq<u8> {
        self.source_map.files@[self.contexts@.last().source_id as int].bytes()
    }

    /// A lexer that starts at the beginning of the first source of the map.
    pub fn new(source_map: &'a mut SourceMap) -> (lexer: Self)
        ensures
            lexer.contexts@ == seq![LexerContext { source_id: 0, pos: 0 }],
            lexer.context_id == 0,
            lexer.pending is None,
            *lexer.source_map == *old(source_map),
            *final(lexer.source_map) == *final(source_map),
            old(source_map).wf() && old(source_map).files@.len() > 0 ==> lexer.wf(),
    {
        let mut contexts: Vec<LexerContext> = Vec::new();
        contexts.push(LexerContext { source_id: 0, pos: 0 });
        Lexer { contexts, source_map, context_id: 0, pending: None }
    }

    /// The bytes of the innermost source that is being read.
    fn src(&self) -> (bytes: &[u8])
        requires
            self.wf(),
        ensures
            bytes@ == self.text(),
            valid_utf8(bytes@),
    {
        proof {
            encode_utf8_valid_utf8(
                self.source_map.files@[self.contexts@.last().source_id as int].content@,
            );
        }
        self.source_map.files[self.contexts[self.context_id].source_id].content.as_str().as_bytes()
    }

    /// How far the innermost source was read.
    pub fn pos(&self) -> (pos: usize)
        requires
            self.wf(),
        ensures
            pos == self.contexts@.last().pos,
    {
        self.contexts[self.context_id].pos
    }

    /// Goes on reading the innermost source at `pos`.
    fn set_pos(&mut self, pos: usize)
        requires
            old(self).wf(),
            pos <= old(self).source_map.files@[old(self).contexts@.last().source_id as int].bytes().len(),
        ensures
            final(self).wf(),
            final(self).contexts@ == moved_to(old(self).contexts@, pos as int),
            final(self).context_id == old(self).context_id,
            final(self).pending == old(self).pending,
            *final(self).source_map == *old(self).source_map,
            *final(final(self).source_map) == *final(old(self).source_map),
    {
        let source_id = self.contexts[self.context_id].source_id;
        let context_id = self.context_id;
        self.contexts.set(context_id, LexerContext { source_id, pos });
    }

    /// One step: see [`step`].
    fn get_token(&mut self) -> (got: LexResult<LexStep>)
        requires
            old(self).wf(),
        ensures
            final(self).wf(),
            final(self).pending == old(self).pending,
            *final(self).source_map == *old(self).source_map,
            *final(final(self).source_map) == *final(old(self).source_map),
            final(self).contexts@ == step(old(self).source_map.files@, old(self).contexts@).contexts,
            match got {
                Ok(LexStep::Token(token)) => step(
                    old(self).source_map.files@,
                    old(self).contexts@,
                ).event == Event::Token(token@),
                Ok(LexStep::Include(name)) => step(
                    old(self).source_map.files@,
                    old(self).contexts@,
                ).event == Event::Include(name@),
                Err(error) => step(old(self).source_map.files@, old(self).contexts@).event
                    == Event::Error(error@),
            },
    {
        loop
            invariant
                self.wf(),
                self.pending == old(self).pending,
                *self.source_map == *old(self).source_map,
                *final(self.source_map) == *final(old(self).source_map),
                step(old(self).source_map.files@, old(self).contexts@) == step(
                    self.source_map.files@,
                    self.contexts@,
                ),
            decreases self.contexts@.len(),
        {
            let source_id = self.contexts[self.context_id].source_id;
            let start = self.contexts[self.context_id].pos;
            let ghost before = self.contexts@;
            let bytes = self.src();
            let at = Self::skip_blanks(bytes, start);
            if at >= bytes.len() {
                if self.contexts.len() > 1 {
                    self.contexts.pop();
                    self.context_id -= 1;
                    assert(self.contexts@ =~= before.drop_last());
                } else {
                    self.set_pos(at);
                    return Ok(
                        LexStep::Token(
                            Token {
                                token_type: TokenType::EOF,
                                value: TokenValue::Empty,
                                position: at,
                                source_id,
                            },
                        ),
                    );
                }
            } else {
                proof {
                    lemma_scan_advances(bytes@, at as int);
                }
                match Self::scan(bytes, at) {
                    Scanned::Token { token_type, value, end } => {
                        self.set_pos(end);
                        return Ok(
                            LexStep::Token(Token { token_type, value, position: at, source_id }),
                        );
                    },
                    Scanned::Include { name, end } => {
                        proof {
                            encode_utf8_decode_utf8(name@);
                        }
                        self.set_pos(end);
                        return Ok(LexStep::Include(name));
                    },
                    Scanned::Error { message, position } => {
                        self.set_pos(at);
                        return Err(CompileError { message, position, source_id });
                    },
                }
            }
        }
    }

    /// Reads tokens up to the end of the input, which the token `EOF`
    /// marks, or up to a directive: see [`read`].
    ///
    /// At a directive the lexer remembers the name of the file and waits
    /// for [`Lexer::enter_include`]. While it waits, nothing is read. A
    /// place that is at fault ends the reading with a diagnostic, and the
    /// tokens that were read up to it are dropped.
    pub fn read_all(&mut self) -> (tokens: LexResult<Vec<Token>>)
        requires
            old(self).wf(),
        ensures
            final(self).wf(),
            *final(self).source_map == *old(self).source_map,
            *final(final(self).source_map) == *final(old(self).source_map),
            old(self).pending is Some ==> final(self).contexts@ == old(self).contexts@
                && final(self).pending == old(self).pending && (tokens matches Ok(none)
                && none@.len() == 0),
            old(self).pending is None ==> ({
                let reading = read(old(self).source_map.files@, old(self).contexts@);
                &&& final(self).contexts@ == reading.contexts
                &&& match tokens {
                    Ok(all) => all@.map_values(|t: Token| t@) == reading.tokens && match reading.ending {
                        Ending::Finished => final(self).pending is None,
                        Ending::Include(name) => final(self).pending matches Some(file)
                            && file@ == name,
                        Ending::Error(_) => false,
                    },
                    Err(error) => reading.ending == Ending::Error(error@) && final(self).pending is None,
                }
            }),
    {
        let mut tokens: Vec<Token> = Vec::new();
        if self.pending.is_some() {
            return Ok(tokens);
        }
        let ghost files = self.source_map.files@;
        let ghost whole = read(files, self.contexts@);
        assert(tokens@.map_values(|t: Token| t@) =~= Seq::<TokenView>::empty());
        loop
            invariant
                self.wf(),
                self.pending is None,
                old(self).pending is None,
                files == self.source_map.files@,
                *self.source_map == *old(self).source_map,
                *final(self.source_map) == *final(old(self).source_map),
                whole == read(old(self).source_map.files@, old(self).contexts@),
                whole.tokens == tokens@.map_values(|t: Token| t@) + read(
                    files,
                    self.contexts@,
                ).tokens,
                whole.contexts == read(files, self.contexts@).contexts,
                whole.ending == read(files, self.contexts@).ending,
            decreases remaining(self.source_map.files@, self.contexts@, self.contexts@.len()),
        {
            proof {
                lemma_step(files, self.contexts@);
            }
            let ghost before = tokens@.map_values(|t: Token| t@);
            let token = match self.get_token() {
                Ok(LexStep::Token(token)) => token,
                Ok(LexStep::Include(name)) => {
                    self.pending = Some(name);
                    assert(tokens@.map_values(|t: Token| t@) + Seq::<TokenView>::empty()
                        =~= tokens@.map_values(|t: Token| t@));
                    return Ok(tokens);
                },
                Err(error) => {
                    return Err(error);
                },
            };
            let finished = token.token_type == TokenType::EOF;
            let ghost view = token@;
            tokens.push(token);
            assert(tokens@.map_values(|t: Token| t@) =~= before + seq![view]);
            if finished {
                return Ok(tokens);
            }
            assert(before + (seq![view] + read(files, self.contexts@).tokens) =~= before + seq![
                view,
            ] + read(files, self.contexts@).tokens);
        }
    }

    /// Goes on after a directive: `content` is the text of the file that
    /// the directive names. The text becomes a source of the map under the
    /// name that the directive gave, and is read before the rest of the
    /// source that brought it in.
    ///
    /// It returns whether the lexer was waiting for a file. If it was not,
    /// nothing changes.
    pub fn enter_include(&mut self, content: String) -> (entered: bool)
        requires
            old(self).wf(),
        ensures
            final(self).wf(),
            final(self).pending is None,
            *final(final(self).source_map) == *final(old(self).source_map),
            entered == old(self).pending is Some,
            !entered ==> final(self).contexts@ == old(self).contexts@ && *final(self).source_map
                == *old(self).source_map,
            entered ==> ({
                let added = final(self).source_map.files@.last();
                &&& final(self).source_map.files@.len() == old(self).source_map.files@.len() + 1
                &&& final(self).source_map.files@.drop_last() == old(self).source_map.files@
                &&& added.content == content
                &&& added.file_name == old(self).pending->0
                &&& added.wf()
                &&& final(self).contexts@ == old(self).contexts@.push(
                    LexerContext { source_id: old(self).source_map.files@.len() as usize, pos: 0 },
                )
            }),
    {
        let file_name = match self.pending.take() {
            Some(name) => name,
            None => {
                return false;
            },
        };
        let source = Source::new(content, file_name);
        let new_id = self.source_map.add(source);
        self.contexts.push(LexerContext { source_id: new_id, pos: 0 });
        self.context_id = self.contexts.len() - 1;
        assert(self.source_map.files@.drop_last() =~= old(self).source_map.files@);
        true
    }

    /// Gives up after a directive: the file that it names could not be
    /// handed in, for the reason `reason`. The diagnostic refers to the
    /// place behind the directive, and the lexer waits no longer.
    ///
    /// There is no diagnostic if the lexer was not waiting for a file.
    pub fn include_failed(&mut self, reason: &str) -> (error: Option<CompileError>)
        requires
            old(self).wf(),
        ensures
            final(self).wf(),
            final(self).pending is None,
            final(self).contexts@ == old(self).contexts@,
            *final(self).source_map == *old(self).source_map,
            *final(final(self).source_map) == *final(old(self).source_map),
            match error {
                Some(failed) => old(self).pending matches Some(file_name) && failed@ == (ErrorView {
                    message: include_failed_text(file_name@, reason@),
                    position: old(self).contexts@.last().pos,
                    source_id: old(self).contexts@.last().source_id,
                }),
                None => old(self).pending is None,
            },
    {
        let file_name = match self.pending.take() {
            Some(name) => name,
            None => {
                return None;
            },
        };
        let message = String::from_str("Failed to include file '").concat(
            file_name.as_str(),
        ).concat("': ").concat(reason);
        Some(
            CompileError {
                message,
                position: self.contexts[self.context_id].pos,
                source_id: self.contexts[self.context_id].source_id,
            },
        )
    }

    /// The end of the run of bytes of a class that starts at `pos`.
    fn scan_run(bytes: &[u8], pos: usize, class: Class) -> (end: usize)
        requires
            pos <= bytes@.len(),
        ensures
            end == run_end(bytes@, pos as int, class),
            pos <= end <= bytes@.len(),
    {
        let ghost outside = leaves(bytes@, class);
        let mut end = pos;
        while end < bytes.len()
            invariant
                pos <= end <= bytes@.len(),
                outside == leaves(bytes@, class),
                forall|i: int| pos <= i < end ==> !#[trigger] outside(i),
            decreases bytes@.len() - end,
        {
            if !class.has(bytes[end]) {
                proof {
                    lemma_first_index_found(outside, pos as int, bytes@.len() as int, end as int);
                }
                return end;
            }
            end += 1;
        }
        proof {
            lemma_first_index_none(outside, pos as int, bytes@.len() as int);
        }
        end
    }

    /// The end of the white space that starts at `pos`.
    fn skip_whitespace(bytes: &[u8], pos: usize) -> (end: usize)
        requires
            pos <= bytes@.len(),
        ensures
            end == run_end(bytes@, pos as int, Class::Space),
            pos <= end <= bytes@.len(),
    {
        Self::scan_run(bytes, pos, Class::Space)
    }

    /// The end of the comment whose `#` stands at `pos`: the line feed that
    /// ends the line, or the end of the text.
    fn skip_line_comment(bytes: &[u8], pos: usize) -> (end: usize)
        requires
            pos < bytes@.len() <= usize::MAX,
        ensures
            end == run_end(bytes@, pos + 1, Class::Comment),
            pos < end <= bytes@.len(),
    {
        Self::scan_run(bytes, pos + 1, Class::Comment)
    }

    /// The end of the white space and the comments that start at `pos`.
    fn skip_blanks(bytes: &[u8], pos: usize) -> (end: usize)
        requires
            pos <= bytes@.len(),
        ensures
            end == skip_blank(bytes@, pos as int),
            pos <= end <= bytes@.len(),
    {
        let mut at = pos;
        loop
            invariant
                pos <= at <= bytes@.len(),
                skip_blank(bytes@, pos as int) == skip_blank(bytes@, at as int),
            decreases bytes@.len() - at,
        {
            let seen = Self::skip_whitespace(bytes, at);
            if seen < bytes.len() && bytes[seen] == HASH {
                at = Self::skip_line_comment(bytes, seen);
            } else {
                return seen;
            }
        }
    }

    /// The number that digits stand for, wrapping around in 32 bits.
    fn parse_i32_ascii(bytes: &[u8]) -> (value: i32)
        requires
            forall|i: int| 0 <= i < bytes@.len() ==> Class::Digit.holds(#[trigger] bytes@[i]),
        ensures
            value == digits_value(bytes@, bytes@.len()),
    {
        let mut value: i32 = 0;
        let mut i: usize = 0;
        while i < bytes.len()
            invariant
                i <= bytes@.len(),
                value == digits_value(bytes@, i as nat),
                forall|i: int| 0 <= i < bytes@.len() ==> Class::Digit.holds(#[trigger] bytes@[i]),
            decreases bytes@.len() - i,
        {
            value = value.wrapping_mul(10).wrapping_add((bytes[i] - DIGIT_ZERO) as i32);
            i += 1;
        }
        value
    }

    /// Whether two texts are the same.
    fn same_bytes(left: &[u8], right: &[u8]) -> (same: bool)
        ensures
            same == (left@ == right@),
    {
        if left.len() != right.len() {
            return false;
        }
        let mut i: usize = 0;
        while i < left.len()
            invariant
                i <= left@.len(),
                left@.len() == right@.len(),
                forall|k: int| 0 <= k < i ==> left@[k] == right@[k],
            decreases left@.len() - i,
        {
            if left[i] != right[i] {
                return false;
            }
            i += 1;
        }
        assert(left@ =~= right@);
        true
    }

    /// The token `paired` if `=` follows the byte at `pos`, and the token
    /// `alone` if not.
    fn with_equals(bytes: &[u8], pos: usize, paired: TokenType, alone: TokenType) -> (found: Scanned)
        requires
            pos < bytes@.len() <= usize::MAX,
        ensures
            found@ == with_equals(bytes@, pos as int, paired, alone),
    {
        if pos + 1 < bytes.len() && bytes[pos + 1] == EQUALS {
            Scanned::Token { token_type: paired, value: TokenValue::Empty, end: pos + 2 }
        } else {
            Scanned::Token { token_type: alone, value: TokenValue::Empty, end: pos + 1 }
        }
    }

    /// What `=` starts: `==` or `=`.
    fn equals(bytes: &[u8], pos: usize) -> (found: Scanned)
        requires
            pos < bytes@.len() <= usize::MAX,
        ensures
            found@ == with_equals(bytes@, pos as int, TokenType::EQ, TokenType::ASSIGN),
    {
        Self::with_equals(bytes, pos, TokenType::EQ, TokenType::ASSIGN)
    }

    /// What `<` starts: `<=` or `<`.
    fn less_than(bytes: &[u8], pos: usize) -> (found: Scanned)
        requires
            pos < bytes@.len() <= usize::MAX,
        ensures
            found@ == with_equals(bytes@, pos as int, TokenType::LTE, TokenType::LT),
    {
        Self::with_equals(bytes, pos, TokenType::LTE, TokenType::LT)
    }

    /// What `>` starts: `>=` or `>`.
    fn greater_than(bytes: &[u8], pos: usize) -> (found: Scanned)
        requires
            pos < bytes@.len() <= usize::MAX,
        ensures
            found@ == with_equals(bytes@, pos as int, TokenType::GTE, TokenType::GT),
    {
        Self::with_equals(bytes, pos, TokenType::GTE, TokenType::GT)
    }

    /// The number that starts at `pos`.
    fn number(bytes: &[u8], pos: usize) -> (found: Scanned)
        requires
            pos <= bytes@.len(),
        ensures
            found@ == number(bytes@, pos as int),
    {
        let end = Self::scan_run(bytes, pos, Class::Digit);
        proof {
            lemma_run_end(bytes@, pos as int, Class::Digit);
        }
        let digits = slice_subrange(bytes, pos, end);
        let value = Self::parse_i32_ascii(digits);
        Scanned::Token { token_type: TokenType::NUMBER, value: TokenValue::Number(value), end }
    }

    /// The keyword or identifier that starts at `pos`.
    fn literal(bytes: &[u8], pos: usize) -> (found: Scanned)
        requires
            pos <= bytes@.len(),
        ensures
            found@ == word(bytes@, pos as int),
    {
        let end = Self::scan_run(bytes, pos, Class::Word);
        let text = slice_subrange(bytes, pos, end);
        let key_let: [u8; 3] = [108, 101, 116];
        let key_if: [u8; 2] = [105, 102];
        let key_while: [u8; 5] = [119, 104, 105, 108, 101];
        assert(key_let@ =~= word_let());
        assert(key_if@ =~= word_if());
        assert(key_while@ =~= word_while());
        if Self::same_bytes(text, &key_let) {
            Scanned::Token {
                token_type: TokenType::KEYWORD,
                value: TokenValue::Keyword(Keyword::LET),
                end,
            }
        } else if Self::same_bytes(text, &key_if) {
            Scanned::Token { token_type: TokenType::KEYWORD, value: TokenValue::Keyword(Keyword::IF), end }
        } else if Self::same_bytes(text, &key_while) {
            Scanned::Token {
                token_type: TokenType::KEYWORD,
                value: TokenValue::Keyword(Keyword::WHILE),
                end,
            }
        } else {
            proof {
                lemma_run_end(bytes@, pos as int, Class::Word);
                lemma_ascii_is_valid(text@);
            }
            let identifier = string_from_utf8(slice_to_vec(text)).unwrap();
            proof {
                encode_utf8_decode_utf8(identifier@);
            }
            Scanned::Token {
                token_type: TokenType::IDENTIFIER,
                value: TokenValue::Identifier(identifier),
                end,
            }
        }
    }

    /// The file name that is expected at `pos`, between double quotes.
    fn string_literal(bytes: &[u8], pos: usize) -> (found: Scanned)
        requires
            pos <= bytes@.len(),
            valid_utf8(bytes@),
        ensures
            found@ == string_literal(bytes@, pos as int),
    {
        if pos >= bytes.len() {
            return Scanned::Error {
                message: String::from_str("Expected '\"', found None"),
                position: pos,
            };
        }
        if bytes[pos] != QUOTE {
            return Scanned::Error {
                message: expected_quote_message(bytes[pos] as char),
                position: pos,
            };
        }
        let start = pos + 1;
        let close = Self::scan_run(bytes, start, Class::Quoted);
        if close >= bytes.len() {
            return Scanned::Error {
                message: "Unterminated string literal".to_string(),
                position: start,
            };
        }
        proof {
            lemma_run_end(bytes@, start as int, Class::Quoted);
            if start < close {
                lemma_quoted_is_valid(bytes@, pos as int, close as int);
            } else {
                assert(bytes@.subrange(start as int, close as int) =~= Seq::<u8>::empty());
            }
        }
        let name = string_from_utf8(slice_to_vec(slice_subrange(bytes, start, close))).unwrap();
        Scanned::Include { name, end: close + 1 }
    }

    /// What the `!` at `pos` starts.
    fn bang(bytes: &[u8], pos: usize) -> (found: Scanned)
        requires
            pos < bytes@.len() <= usize::MAX,
            valid_utf8(bytes@),
        ensures
            found@ == bang(bytes@, pos as int),
    {
        if pos + 1 < bytes.len() && bytes[pos + 1] == EQUALS {
            return Scanned::Token { token_type: TokenType::NEQ, value: TokenValue::Empty, end: pos + 2 };
        }
        let name: [u8; 7] = [105, 110, 99, 108, 117, 100, 101];
        assert(name@ =~= directive_name());
        if bytes.len() - pos >= 8 && Self::same_bytes(slice_subrange(bytes, pos + 1, pos + 8), &name) {
            let quote = Self::skip_whitespace(bytes, pos + 8);
            Self::string_literal(bytes, quote)
        } else {
            Scanned::Error { message: unexpected_character_message(BANG as char), position: pos }
        }
    }

    /// What starts at `pos`, where a byte stands that is neither white space
    /// nor the start of a comment.
    fn scan(bytes: &[u8], pos: usize) -> (found: Scanned)
        requires
            pos < bytes@.len() <= usize::MAX,
            valid_utf8(bytes@),
        ensures
            found@ == scan(bytes@, pos as int),
    {
        let c = bytes[pos];
        let one = pos + 1;
        if c == PLUS {
            Scanned::Token { token_type: TokenType::PLUS, value: TokenValue::Empty, end: one }
        } else if c == MINUS {
            Scanned::Token { token_type: TokenType::MINUS, value: TokenValue::Empty, end: one }
        } else if c == STAR {
            Scanned::Token { token_type: TokenType::ASTERISK, value: TokenValue::Empty, end: one }
        } else if c == SLASH {
            Scanned::Token { token_type: TokenType::SLASH, value: TokenValue::Empty, end: one }
        } else if c == EQUALS {
            Self::equals(bytes, pos)
        } else if c == LESS {
            Self::less_than(bytes, pos)
        } else if c == GREATER {
            Self::greater_than(bytes, pos)
        } else if c == BRACE_OPEN {
            Scanned::Token { token_type: TokenType::LBRACE, value: TokenValue::Empty, end: one }
        } else if c == BRACE_CLOSE {
            Scanned::Token { token_type: TokenType::RBRACE, value: TokenValue::Empty, end: one }
        } else if c == PAREN_OPEN {
            Scanned::Token { token_type: TokenType::LPAREN, value: TokenValue::Empty, end: one }
        } else if c == PAREN_CLOSE {
            Scanned::Token { token_type: TokenType::RPAREN, value: TokenValue::Empty, end: one }
        } else if c == BRACKET_OPEN {
            Scanned::Token { token_type: TokenType::LBRACKET, value: TokenValue::Empty, end: one }
        } else if c == BRACKET_CLOSE {
            Scanned::Token { token_type: TokenType::RBRACKET, value: TokenValue::Empty, end: one }
        } else if c == COMMA {
            Scanned::Token { token_type: TokenType::COMMA, value: TokenValue::Empty, end: one }
        } else if c == SEMICOLON {
            Scanned::Token { token_type: TokenType::SEMICOLON, value: TokenValue::Empty, end: one }
        } else if c == BANG {
            Self::bang(bytes, pos)
        } else if Class::Digit.has(c) {
            Self::number(bytes, pos)
        } else if Class::Word.has(c) {
            Self::literal(bytes, pos)
        } else {
            Scanned::Error { message: unexpected_character_message(c as char), position: pos }
        }
    }
}

} // verus!
