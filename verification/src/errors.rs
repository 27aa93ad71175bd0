//! What can go wrong: diagnostics of the front end, and the faults of the
//! back end.

use vstd::prelude::*;
use vstd::string::StringExecFns;
use crate::source::line_index;
use crate::source_map::SourceMap;

verus! {

/// A diagnostic of the front end: a message and the place it refers to.
#[derive(Debug, PartialEq, Eq)]
pub struct CompileError {
    pub message: String,
    pub position: usize,
    pub source_id: usize,
}

/// A diagnostic as plain data.
pub struct ErrorView {
    pub message: Seq<char>,
    pub position: usize,
    pub source_id: usize,
}

impl View for CompileError {
    type V = ErrorView;

    open spec fn view(&self) -> ErrorView {
        ErrorView { message: self.message@, position: self.position, source_id: self.source_id }
    }
}

/// Renders diagnostics for a reader.
pub struct ErrorReporter;

/// The numeral of a digit.
pub open spec fn digit_text(digit: nat) -> Seq<char> {
    if digit == 0 {
        "0"@
    } else if digit == 1 {
        "1"@
    } else if digit == 2 {
        "2"@
    } else if digit == 3 {
        "3"@
    } else if digit == 4 {
        "4"@
    } else if digit == 5 {
        "5"@
    } else if digit == 6 {
        "6"@
    } else if digit == 7 {
        "7"@
    } else if digit == 8 {
        "8"@
    } else {
        "9"@
    }
}

/// The decimal numeral of a number, without leading zeros.
pub open spec fn decimal_text(n: nat) -> Seq<char>
    decreases n,
{
    if n < 10 {
        digit_text(n)
    } else {
        decimal_text(n / 10) + digit_text(n % 10)
    }
}

/// A diagnostic as it is shown: the message, then the file, the line and
/// the column that it refers to.
pub open spec fn report_text(
    message: Seq<char>,
    file_name: Seq<char>,
    line: nat,
    col: nat,
) -> Seq<char> {
    "error: "@ + message + "\n --> "@ + file_name + ":"@ + decimal_text(line) + ":"@ + decimal_text(
        col,
    )
}

/// The numeral of a digit.
fn digit(d: usize) -> (text: &'static str)
    requires
        d < 10,
    ensures
        text@ == digit_text(d as nat),
{
    if d == 0 {
        "0"
    } else if d == 1 {
        "1"
    } else if d == 2 {
        "2"
    } else if d == 3 {
        "3"
    } else if d == 4 {
        "4"
    } else if d == 5 {
        "5"
    } else if d == 6 {
        "6"
    } else if d == 7 {
        "7"
    } else if d == 8 {
        "8"
    } else {
        "9"
    }
}

/// The decimal numeral of a number.
fn decimal(n: usize) -> (text: String)
    ensures
        text@ == decimal_text(n as nat),
    decreases n,
{
    if n < 10 {
        String::from_str(digit(n))
    } else {
        decimal(n / 10).concat(digit(n % 10))
    }
}

impl ErrorReporter {
    /// The text of a diagnostic: `error: ` and the message on one line, and
    /// on the next ` --> ` with the name of the file, the line and the
    /// column, each counted from 1 and set apart by colons.
    pub fn render(source_map: &SourceMap, err: &CompileError) -> (text: String)
        requires
            source_map.wf(),
            err.source_id < source_map.files@.len(),
            ({
                let starts = source_map.files@[err.source_id as int].line_starts@;
                err.position - starts[line_index(starts, err.position, starts.len())] < usize::MAX
            }),
        ensures
            ({
                let source = source_map.files@[err.source_id as int];
                let line = line_index(source.line_starts@, err.position, source.line_starts@.len());
                text@ == report_text(
                    err.message@,
                    source.file_name@,
                    (line + 1) as nat,
                    (err.position - source.line_starts@[line] + 1) as nat,
                )
            }),
    {
        let source = &source_map.files[err.source_id];
        let (line, col) = source.get_line_col(err.position);
        String::from_str("error: ").concat(err.message.as_str()).concat("\n --> ").concat(
            source.file_name.as_str(),
        ).concat(":").concat(decimal(line).as_str()).concat(":").concat(decimal(col).as_str())
    }
}

/// A condition that ends a back-end stage. None of them is recoverable:
/// the stage that reports one yields no instruction sequence.
#[derive(Debug, Copy, Clone, PartialEq, Eq, Structural)]
pub enum Fault {
    /// A binary operator other than `+`, `-` and `>`.
    UnsupportedOperator,
    /// A unary operator other than `-`.
    UnsupportedUnary,
    /// The left side of a declaration or assignment is no bare variable.
    InvalidTarget,
    /// A statement kind that has no lowering.
    UnsupportedStatement,
    /// A variable that resolution has not bound to a symbol.
    UnresolvedSymbol,
    /// No fresh temporary or label id is left.
    IdExhausted,
    /// A literal stands where a storage location is needed.
    NoLocation,
    /// Every register is locked, so none can be spilled.
    NoSpillCandidate,
}

impl Fault {
    /// A short description for diagnostics.
    pub fn message(&self) -> (text: &'static str)
        ensures
            text@ == match *self {
                Fault::UnsupportedOperator => "unsupported binary operator"@,
                Fault::UnsupportedUnary => "unsupported unary operator"@,
                Fault::InvalidTarget => "invalid assignment or declaration target"@,
                Fault::UnsupportedStatement => "unsupported statement"@,
                Fault::UnresolvedSymbol => "could not resolve symbol"@,
                Fault::IdExhausted => "no fresh identifier left"@,
                Fault::NoLocation => "value does not have an id"@,
                Fault::NoSpillCandidate => "no register available to spill"@,
            },
    {
        match self {
            Fault::UnsupportedOperator => "unsupported binary operator",
            Fault::UnsupportedUnary => "unsupported unary operator",
            Fault::InvalidTarget => "invalid assignment or declaration target",
            Fault::UnsupportedStatement => "unsupported statement",
            Fault::UnresolvedSymbol => "could not resolve symbol",
            Fault::IdExhausted => "no fresh identifier left",
            Fault::NoLocation => "value does not have an id",
            Fault::NoSpillCandidate => "no register available to spill",
        }
    }
}

} // verus!
