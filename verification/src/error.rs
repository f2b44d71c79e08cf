//! Errors reported by the formatter, and their messages.
use vstd::prelude::*;
use crate::formatter::{chars_of, string_from_chars};

verus! {

/// Why a WPL text could not be formatted. Each variant carries the 1-based
/// line on which the problem was found.
#[derive(Debug)]
pub enum WplFormatError {
    SyntaxError { line: usize, message: String },
    UnclosedString { line: usize },
    InvalidRawStringStart { line: usize },
    UnclosedRawString { line: usize },
    UnclosedBracket { open: char, close: char, line: usize },
    MismatchedBracket { expected: char, found: char, line: usize },
    UnexpectedClosing { close: char, line: usize },
}

/// The decimal digit for `d` (below ten).
pub open spec fn digit_char(d: nat) -> char {
    if d == 0 {
        '0'
    } else if d == 1 {
        '1'
    } else if d == 2 {
        '2'
    } else if d == 3 {
        '3'
    } else if d == 4 {
        '4'
    } else if d == 5 {
        '5'
    } else if d == 6 {
        '6'
    } else if d == 7 {
        '7'
    } else if d == 8 {
        '8'
    } else {
        '9'
    }
}

/// `n` written in decimal, without leading zeros.
pub open spec fn decimal(n: nat) -> Seq<char>
    decreases n,
{
    if n < 10 {
        seq![digit_char(n)]
    } else {
        decimal(n / 10).push(digit_char(n % 10))
    }
}

/// `"line <line>: "`, the start of every message.
pub open spec fn line_prefix(line: usize) -> Seq<char> {
    seq!['l', 'i', 'n', 'e', ' '] + decimal(line as nat) + seq![':', ' ']
}

/// The line an error carries.
pub open spec fn error_line(e: WplFormatError) -> usize {
    match e {
        WplFormatError::SyntaxError { line, .. } => line,
        WplFormatError::UnclosedString { line } => line,
        WplFormatError::InvalidRawStringStart { line } => line,
        WplFormatError::UnclosedRawString { line } => line,
        WplFormatError::UnclosedBracket { line, .. } => line,
        WplFormatError::MismatchedBracket { line, .. } => line,
        WplFormatError::UnexpectedClosing { line, .. } => line,
    }
}

/// The message of an error: its line, then what went wrong.
pub open spec fn error_message(e: WplFormatError) -> Seq<char> {
    match e {
        WplFormatError::SyntaxError { line, message } => line_prefix(line) + message@,
        WplFormatError::UnclosedString { line } => line_prefix(line)
            + "string literal is not closed"@,
        WplFormatError::InvalidRawStringStart { line } => line_prefix(line)
            + "invalid raw string prefix"@,
        WplFormatError::UnclosedRawString { line } => line_prefix(line)
            + "raw string is not closed"@,
        WplFormatError::UnclosedBracket { open, close, line } => line_prefix(line)
            + "unclosed bracket: "@ + seq![open] + " ... "@ + seq![close],
        WplFormatError::MismatchedBracket { expected, found, line } => line_prefix(line)
            + "mismatched bracket, expected "@ + seq![expected] + ", found "@ + seq![found],
        WplFormatError::UnexpectedClosing { close, line } => line_prefix(line)
            + "unexpected closing bracket "@ + seq![close],
    }
}

fn digit(d: usize) -> (r: char)
    requires
        d < 10,
    ensures
        r == digit_char(d as nat),
{
    if d == 0 {
        '0'
    } else if d == 1 {
        '1'
    } else if d == 2 {
        '2'
    } else if d == 3 {
        '3'
    } else if d == 4 {
        '4'
    } else if d == 5 {
        '5'
    } else if d == 6 {
        '6'
    } else if d == 7 {
        '7'
    } else if d == 8 {
        '8'
    } else {
        '9'
    }
}

/// Appends `n` in decimal to `v`.
fn push_decimal(v: &mut Vec<char>, n: usize)
    ensures
        final(v)@ == old(v)@ + decimal(n as nat),
    decreases n,
{
    if n < 10 {
        v.push(digit(n));
        assert(old(v)@.push(digit_char(n as nat)) =~= old(v)@ + seq![digit_char(n as nat)]);
    } else {
        push_decimal(v, n / 10);
        v.push(digit(n % 10));
        assert(old(v)@ + decimal((n / 10) as nat) + seq![digit_char((n % 10) as nat)] =~= old(v)@
            + decimal((n / 10) as nat).push(digit_char((n % 10) as nat)));
    }
}

/// Appends the characters of `s` to `v`.
fn push_str(v: &mut Vec<char>, s: &str)
    ensures
        final(v)@ == old(v)@ + s@,
{
    let cs = chars_of(s);
    let mut k: usize = 0;
    while k < cs.len()
        invariant
            k <= cs.len(),
            cs@ == s@,
            v@ == old(v)@ + cs@.take(k as int),
        decreases cs.len() - k,
    {
        v.push(cs[k]);
        assert(cs@.take(k + 1) =~= cs@.take(k as int).push(cs@[k as int]));
        k += 1;
    }
    assert(cs@.take(cs.len() as int) =~= cs@);
}

impl WplFormatError {
    /// The 1-based line on which the problem was found.
    pub fn line(&self) -> (r: usize)
        ensures
            r == error_line(*self),
    {
        match self {
            WplFormatError::SyntaxError { line, .. } => *line,
            WplFormatError::UnclosedString { line } => *line,
            WplFormatError::InvalidRawStringStart { line } => *line,
            WplFormatError::UnclosedRawString { line } => *line,
            WplFormatError::UnclosedBracket { line, .. } => *line,
            WplFormatError::MismatchedBracket { line, .. } => *line,
            WplFormatError::UnexpectedClosing { line, .. } => *line,
        }
    }

    /// The error's message, such as `line 3: raw string is not closed`.
    pub fn message(&self) -> (r: String)
        ensures
            r@ == error_message(*self),
    {
        let mut v: Vec<char> = vec!['l', 'i', 'n', 'e', ' '];
        let line = self.line();
        push_decimal(&mut v, line);
        v.push(':');
        v.push(' ');
        assert(v@ =~= line_prefix(line));
        match self {
            WplFormatError::SyntaxError { message, .. } => {
                push_str(&mut v, message.as_str());
            },
            WplFormatError::UnclosedString { .. } => {
                push_str(&mut v, "string literal is not closed");
            },
            WplFormatError::InvalidRawStringStart { .. } => {
                push_str(&mut v, "invalid raw string prefix");
            },
            WplFormatError::UnclosedRawString { .. } => {
                push_str(&mut v, "raw string is not closed");
            },
            WplFormatError::UnclosedBracket { open, close, .. } => {
                push_str(&mut v, "unclosed bracket: ");
                v.push(*open);
                push_str(&mut v, " ... ");
                v.push(*close);
            },
            WplFormatError::MismatchedBracket { expected, found, .. } => {
                push_str(&mut v, "mismatched bracket, expected ");
                v.push(*expected);
                push_str(&mut v, ", found ");
                v.push(*found);
            },
            WplFormatError::UnexpectedClosing { close, .. } => {
                push_str(&mut v, "unexpected closing bracket ");
                v.push(*close);
            },
        }
        proof {
            let p = line_prefix(line);
            match *self {
                WplFormatError::UnclosedBracket { open, close, line } => {
                    assert(v@ =~= p + "unclosed bracket: "@ + seq![open] + " ... "@ + seq![close]);
                },
                WplFormatError::MismatchedBracket { expected, found, line } => {
                    assert(v@ =~= p + "mismatched bracket, expected "@ + seq![expected]
                        + ", found "@ + seq![found]);
                },
                WplFormatError::UnexpectedClosing { close, line } => {
                    assert(v@ =~= p + "unexpected closing bracket "@ + seq![close]);
                },
                _ => {},
            }
        }
        string_from_chars(&v)
    }
}

} // verus!
