//! The errors a parse can end with.

use vstd::prelude::*;

use crate::text::{chars_of, extend, text_of};

verus! {

/// Errors that can occur while parsing INI text.
#[derive(Debug, Clone, PartialEq)]
pub enum IniParseError {
    /// An input source could not be opened or read.
    FileOpen(String),
    /// A line breaks the grammar; `line` counts from 1.
    ParseError { line: usize, message: String },
    /// Resources ran out.
    MemoryError,
    /// The event consumer rejected an event, with its reason.
    HandlerError(String),
}

/// The decimal digit for `d`.
pub open spec fn digit_char(d: nat) -> char {
    if d == 0 { '0' } else if d == 1 { '1' } else if d == 2 { '2' } else if d == 3 { '3' } else if d == 4 {
        '4'
    } else if d == 5 { '5' } else if d == 6 { '6' } else if d == 7 { '7' } else if d == 8 { '8' } else { '9' }
}

/// `n` written in decimal, without leading zeros.
pub open spec fn decimal(n: nat) -> Seq<char>
    decreases n,
{
    if n < 10 {
        seq![digit_char(n)]
    } else {
        decimal(n / 10).push(digit_char(n % 10))
    }
}

/// How an error reads.
pub open spec fn error_text(e: IniParseError) -> Seq<char> {
    match e {
        IniParseError::FileOpen(path) => "Unable to open file: "@ + path@,
        IniParseError::ParseError { line, message } => "Parse error on line "@ + decimal(line as nat) + ": "@
            + message@,
        IniParseError::MemoryError => "Memory allocation error"@,
        IniParseError::HandlerError(msg) => "Handler error: "@ + msg@,
    }
}

fn digit_of(d: usize) -> (c: char)
    requires
        d < 10,
    ensures
        c == digit_char(d as nat),
{
    if d == 0 { '0' } else if d == 1 { '1' } else if d == 2 { '2' } else if d == 3 { '3' } else if d == 4 {
        '4'
    } else if d == 5 { '5' } else if d == 6 { '6' } else if d == 7 { '7' } else if d == 8 { '8' } else { '9' }
}

/// `n` in decimal.
pub fn decimal_chars(n: usize) -> (r: Vec<char>)
    ensures
        r@ == decimal(n as nat),
{
    let mut m: usize = n;
    let mut acc: Vec<char> = Vec::new();
    while m >= 10
        invariant
            decimal(n as nat) == decimal(m as nat) + acc@,
        decreases m,
    {
        let c = digit_of(m % 10);
        let ghost a = acc@;
        acc.insert(0, c);
        assert(acc@ =~= seq![c] + a);
        assert(decimal(m as nat) + a =~= decimal((m / 10) as nat) + acc@);
        m = m / 10;
    }
    let mut r: Vec<char> = Vec::new();
    r.push(digit_of(m));
    extend(&mut r, &acc);
    r
}

impl IniParseError {
    /// The error as a human-readable sentence.
    pub fn describe(&self) -> (r: String)
        ensures
            r@ == error_text(*self),
    {
        let mut v: Vec<char> = Vec::new();
        match self {
            IniParseError::FileOpen(path) => {
                extend(&mut v, &chars_of("Unable to open file: "));
                extend(&mut v, &chars_of(path.as_str()));
            },
            IniParseError::ParseError { line, message } => {
                extend(&mut v, &chars_of("Parse error on line "));
                extend(&mut v, &decimal_chars(*line));
                extend(&mut v, &chars_of(": "));
                extend(&mut v, &chars_of(message.as_str()));
            },
            IniParseError::MemoryError => {
                extend(&mut v, &chars_of("Memory allocation error"));
            },
            IniParseError::HandlerError(msg) => {
                extend(&mut v, &chars_of("Handler error: "));
                extend(&mut v, &chars_of(msg.as_str()));
            },
        }
        text_of(&v)
    }
}

} // verus!
