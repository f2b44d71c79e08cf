//! Readers for the lexical pieces that the formatter copies verbatim:
//! string literals, raw strings, bracketed blocks and raw-function calls.
//! Positions are indices into the text's characters.
use vstd::prelude::*;
use crate::error::WplFormatError;
use crate::text::{is_white_space, is_white_space_char};

verus! {

/// `r` is `None` exactly when `s` is, and otherwise holds the same position.
pub open spec fn same_pos(r: Option<usize>, s: Option<int>) -> bool {
    match s {
        Some(p) => r == Some(p as usize),
        None => r is None,
    }
}

/// Position just past the first `"` at or after `j` that is not escaped by
/// a backslash; `esc` tells whether the character at `j` is escaped.
pub open spec fn quote_end(c: Seq<char>, j: int, esc: bool) -> Option<int>
    decreases c.len() - j,
{
    if j < 0 || j >= c.len() {
        None
    } else if esc {
        quote_end(c, j + 1, false)
    } else if c[j] == '\\' {
        quote_end(c, j + 1, true)
    } else if c[j] == '"' {
        Some(j + 1)
    } else {
        quote_end(c, j + 1, false)
    }
}

/// End (exclusive) of the string literal whose opening quote is at `start`.
pub open spec fn string_literal_end(c: Seq<char>, start: int) -> Option<int> {
    if 0 <= start < c.len() {
        quote_end(c, start + 1, c[start] == '\\')
    } else {
        None
    }
}

/// First position at or after `j` holding a character that is not white space.
pub open spec fn first_non_white(c: Seq<char>, j: int) -> Option<int>
    decreases c.len() - j,
{
    if j < 0 || j >= c.len() {
        None
    } else if !is_white_space(c[j]) {
        Some(j)
    } else {
        first_non_white(c, j + 1)
    }
}

/// Number of consecutive `ch` starting at `j`.
pub open spec fn run_length(c: Seq<char>, j: int, ch: char) -> nat
    decreases c.len() - j,
{
    if 0 <= j < c.len() && c[j] == ch {
        1 + run_length(c, j + 1, ch)
    } else {
        0
    }
}

/// A raw string with `hashes` hash marks closes at the quote at `j`.
pub open spec fn raw_closes_at(c: Seq<char>, j: int, hashes: nat) -> bool {
    &&& 0 <= j < c.len()
    &&& c[j] == '"'
    &&& j + 1 + hashes <= c.len()
    &&& forall|k: int| 0 <= k < hashes ==> #[trigger] c[j + 1 + k] == '#'
}

/// End (exclusive) of the first raw-string closing sequence at or after `j`.
pub open spec fn raw_end(c: Seq<char>, j: int, hashes: nat) -> Option<int>
    decreases c.len() - j,
{
    if j < 0 || j >= c.len() {
        None
    } else if raw_closes_at(c, j, hashes) {
        Some(j + 1 + hashes)
    } else {
        raw_end(c, j + 1, hashes)
    }
}

/// Outcome of reading a raw string `r#..."...`"#...` at `start`: its end, or
/// the error reported on line `line`.
pub open spec fn raw_string_result(c: Seq<char>, start: int, line: usize) -> Result<
    int,
    WplFormatError,
> {
    if !(0 <= start < c.len() && c[start] == 'r') {
        Err(WplFormatError::InvalidRawStringStart { line })
    } else {
        let h = run_length(c, start + 1, '#');
        let q = start + 1 + h;
        if q >= c.len() || c[q] != '"' {
            Err(WplFormatError::InvalidRawStringStart { line })
        } else {
            match raw_end(c, q + 1, h) {
                Some(e) => Ok(e),
                None => Err(WplFormatError::UnclosedRawString { line }),
            }
        }
    }
}

/// End (exclusive) of a block delimited by `open`/`close` scanned from `j`
/// at nesting `depth`; a closing delimiter never takes the depth below zero.
pub open spec fn bracket_end(c: Seq<char>, j: int, open: char, close: char, depth: nat) -> Option<
    int,
>
    decreases c.len() - j,
{
    if j < 0 || j >= c.len() {
        None
    } else if c[j] == open {
        bracket_end(c, j + 1, open, close, depth + 1)
    } else if c[j] == close {
        let d: nat = if depth > 0 {
            (depth - 1) as nat
        } else {
            0
        };
        if d == 0 {
            Some(j + 1)
        } else {
            bracket_end(c, j + 1, open, close, d)
        }
    } else {
        bracket_end(c, j + 1, open, close, depth)
    }
}

/// End (exclusive) of a bracketed block scanned from `j`, where delimiters
/// inside string literals and escaped characters do not count.
pub open spec fn peek_end(
    c: Seq<char>,
    j: int,
    open: char,
    close: char,
    depth: nat,
    esc: bool,
    in_str: bool,
) -> Option<int>
    decreases c.len() - j,
{
    if j < 0 || j >= c.len() {
        None
    } else if esc {
        peek_end(c, j + 1, open, close, depth, false, in_str)
    } else if c[j] == '\\' {
        peek_end(c, j + 1, open, close, depth, true, in_str)
    } else if c[j] == '"' {
        peek_end(c, j + 1, open, close, depth, false, !in_str)
    } else if in_str {
        peek_end(c, j + 1, open, close, depth, false, in_str)
    } else if c[j] == open {
        peek_end(c, j + 1, open, close, depth + 1, false, in_str)
    } else if c[j] == close {
        let d: nat = if depth > 0 {
            (depth - 1) as nat
        } else {
            0
        };
        if d == 0 {
            Some(j + 1)
        } else {
            peek_end(c, j + 1, open, close, d, false, in_str)
        }
    } else {
        peek_end(c, j + 1, open, close, depth, false, in_str)
    }
}

/// End (exclusive) of a parenthesised call scanned from `j` at nesting
/// `depth`, ignoring parentheses inside string literals and escapes.
pub open spec fn call_end(c: Seq<char>, j: int, depth: int, esc: bool, in_str: bool) -> Option<int>
    decreases c.len() - j,
{
    if j < 0 || j >= c.len() {
        None
    } else if esc {
        call_end(c, j + 1, depth, false, in_str)
    } else if c[j] == '\\' {
        call_end(c, j + 1, depth, true, in_str)
    } else if c[j] == '"' {
        call_end(c, j + 1, depth, false, !in_str)
    } else if in_str {
        call_end(c, j + 1, depth, false, in_str)
    } else if c[j] == '(' {
        call_end(c, j + 1, depth + 1, false, in_str)
    } else if c[j] == ')' {
        if depth - 1 == 0 {
            Some(j + 1)
        } else {
            call_end(c, j + 1, depth - 1, false, in_str)
        }
    } else {
        call_end(c, j + 1, depth, false, in_str)
    }
}

/// The characters of `name` followed by `(` stand at position `i`.
pub open spec fn call_of_at(c: Seq<char>, i: int, name: Seq<char>) -> bool {
    &&& 0 <= i
    &&& i + name.len() + 1 <= c.len()
    &&& c.subrange(i, i + name.len()) == name
    &&& c[i + name.len()] == '('
}

/// Length of the first name among `names[k..]` whose call starts at `i`.
pub open spec fn first_call_at(c: Seq<char>, i: int, names: Seq<Seq<char>>, k: int) -> Option<int>
    decreases names.len() - k,
{
    if k < 0 || k >= names.len() {
        None
    } else if call_of_at(c, i, names[k]) {
        Some(names[k].len() as int)
    } else {
        first_call_at(c, i, names, k + 1)
    }
}

/// Reads the string literal whose opening quote is at `start`.
pub fn read_string(c: &Vec<char>, start: usize, line: usize) -> (r: Result<
    (Vec<char>, usize),
    WplFormatError,
>)
    requires
        start <= c.len(),
    ensures
        match string_literal_end(c@, start as int) {
            Some(e) => {
                &&& start < e <= c.len()
                &&& r matches Ok((lit, n))
                &&& lit@ == c@.subrange(start as int, e)
                &&& n == e - start
            },
            None => r matches Err(err) && err == (WplFormatError::UnclosedString { line }),
        },
{
    let ghost goal = string_literal_end(c@, start as int);
    let mut out: Vec<char> = Vec::new();
    let mut esc = false;
    let mut j = start;
    while j < c.len()
        invariant
            start <= j <= c.len(),
            goal == string_literal_end(c@, start as int),
            out@ == c@.subrange(start as int, j as int),
            j == start ==> !esc,
            j > start ==> quote_end(c@, j as int, esc) == goal,
        decreases c.len() - j,
    {
        let ch = c[j];
        out.push(ch);
        assert(c@.subrange(start as int, j + 1) =~= c@.subrange(start as int, j as int).push(ch));
        if esc {
            esc = false;
        } else if ch == '\\' {
            esc = true;
        } else if ch == '"' && j > start {
            return Ok((out, j + 1 - start));
        }
        j += 1;
    }
    Err(WplFormatError::UnclosedString { line })
}

/// Whether an unescaped `"` occurs at or after `start`.
pub fn has_closing_quote(c: &Vec<char>, start: usize) -> (r: bool)
    ensures
        r == quote_end(c@, start as int, false) is Some,
{
    let mut esc = false;
    let mut j = start;
    while j < c.len()
        invariant
            start <= j,
            quote_end(c@, j as int, esc) == quote_end(c@, start as int, false),
        decreases c.len() - j,
    {
        if esc {
            esc = false;
        } else if c[j] == '\\' {
            esc = true;
        } else if c[j] == '"' {
            return true;
        }
        j += 1;
    }
    false
}

/// First position at or after `start` that does not hold white space.
pub fn next_non_whitespace_pos(c: &Vec<char>, start: usize) -> (r: Option<usize>)
    ensures
        same_pos(r, first_non_white(c@, start as int)),
        r matches Some(q) ==> start <= q < c.len() && !is_white_space(c@[q as int]),
        first_non_white(c@, start as int) matches Some(q) ==> start <= q < c.len(),
{
    let mut j = start;
    while j < c.len()
        invariant
            start <= j,
            first_non_white(c@, j as int) == first_non_white(c@, start as int),
        decreases c.len() - j,
    {
        if !is_white_space_char(c[j]) {
            return Some(j);
        }
        j += 1;
    }
    None
}

proof fn lemma_run_length_hashes(c: Seq<char>, j: int, k: int)
    requires
        0 <= j,
        0 <= k < run_length(c, j, '#'),
    ensures
        j + k < c.len(),
        c[j + k] == '#',
    decreases k,
{
    if k > 0 {
        lemma_run_length_hashes(c, j + 1, k - 1);
    }
}

/// Reads the raw string `r#..."..."#...` that starts at `start`.
pub fn read_raw_string(c: &Vec<char>, start: usize, line: usize) -> (r: Result<
    (Vec<char>, usize),
    WplFormatError,
>)
    requires
        start <= c.len(),
    ensures
        match raw_string_result(c@, start as int, line) {
            Ok(e) => {
                &&& start < e <= c.len()
                &&& r matches Ok((lit, n))
                &&& lit@ == c@.subrange(start as int, e)
                &&& n == e - start
            },
            Err(err) => r matches Err(x) && x == err,
        },
{
    let mut out: Vec<char> = Vec::new();
    if start >= c.len() || c[start] != 'r' {
        return Err(WplFormatError::InvalidRawStringStart { line });
    }
    out.push('r');
    let mut idx = start + 1;
    let mut hashes: usize = 0;
    while idx < c.len() && c[idx] == '#'
        invariant
            start < idx <= c.len(),
            hashes == idx - start - 1,
            out@ == c@.subrange(start as int, idx as int),
            run_length(c@, start + 1, '#') == hashes + run_length(c@, idx as int, '#'),
        decreases c.len() - idx,
    {
        out.push('#');
        assert(c@.subrange(start as int, idx + 1) =~= c@.subrange(start as int, idx as int).push(
            '#',
        ));
        hashes += 1;
        idx += 1;
    }
    assert(run_length(c@, idx as int, '#') == 0);
    if idx >= c.len() || c[idx] != '"' {
        return Err(WplFormatError::InvalidRawStringStart { line });
    }
    out.push('"');
    assert(c@.subrange(start as int, idx + 1) =~= c@.subrange(start as int, idx as int).push('"'));
    idx += 1;
    let ghost goal = raw_end(c@, idx as int, hashes as nat);
    while idx < c.len()
        invariant
            start < idx <= c.len(),
            out@ == c@.subrange(start as int, idx as int),
            raw_end(c@, idx as int, hashes as nat) == goal,
            goal == raw_end(c@, (start + 2 + hashes) as int, hashes as nat),
            c@[start as int] == 'r',
            hashes == run_length(c@, start + 1, '#'),
            start + 1 + hashes < c.len(),
            c@[start + 1 + hashes] == '"',
        decreases c.len() - idx,
    {
        let ch = c[idx];
        out.push(ch);
        assert(c@.subrange(start as int, idx + 1) =~= c@.subrange(start as int, idx as int).push(
            ch,
        ));
        if ch == '"' {
            let mut matched = true;
            let mut h: usize = 0;
            while h < hashes
                invariant_except_break
                    h <= hashes,
                    matched,
                    idx + 1 + h <= c.len(),
                    forall|k: int| 0 <= k < h ==> #[trigger] c@[idx + 1 + k] == '#',
                invariant
                    idx < c.len(),
                    c@[idx as int] == '"',
                ensures
                    matched ==> idx + 1 + hashes <= c.len(),
                    matched ==> forall|k: int| 0 <= k < hashes ==> #[trigger] c@[idx + 1 + k] == '#',
                    !matched ==> !raw_closes_at(c@, idx as int, hashes as nat),
                decreases hashes - h,
            {
                if h >= c.len() - idx - 1 || c[idx + 1 + h] != '#' {
                    matched = false;
                    break;
                }
                h += 1;
            }
            if matched {
                let mut k: usize = 0;
                while k < hashes
                    invariant
                        k <= hashes,
                        start < idx,
                        idx + 1 + hashes <= c.len(),
                        forall|m: int| 0 <= m < hashes ==> #[trigger] c@[idx + 1 + m] == '#',
                        out@ == c@.subrange(start as int, idx + 1 + k),
                    decreases hashes - k,
                {
                    out.push('#');
                    let ghost pos: int = idx + 1 + k;
                    assert(c@[pos] == '#');
                    assert(c@.subrange(start as int, pos + 1) =~= c@.subrange(
                        start as int,
                        pos,
                    ).push(c@[pos]));
                    k += 1;
                }
                assert(raw_closes_at(c@, idx as int, hashes as nat));
                return Ok((out, idx + 1 + hashes - start));
            }
        }
        idx += 1;
    }
    Err(WplFormatError::UnclosedRawString { line })
}

/// Reads the block that starts at `start` and ends where the nesting of
/// `open`/`close` first returns to zero.
pub fn read_bracket_block(c: &Vec<char>, start: usize, open: char, close: char, line: usize) -> (r:
    Result<(Vec<char>, usize), WplFormatError>)
    requires
        start <= c.len(),
    ensures
        match bracket_end(c@, start as int, open, close, 0) {
            Some(e) => {
                &&& start < e <= c.len()
                &&& r matches Ok((lit, n))
                &&& lit@ == c@.subrange(start as int, e)
                &&& n == e - start
            },
            None => r matches Err(err) && err == (WplFormatError::UnclosedBracket {
                open,
                close,
                line,
            }),
        },
{
    let ghost goal = bracket_end(c@, start as int, open, close, 0);
    let mut out: Vec<char> = Vec::new();
    let mut depth: usize = 0;
    let mut j = start;
    while j < c.len()
        invariant
            start <= j <= c.len(),
            depth <= j - start,
            out@ == c@.subrange(start as int, j as int),
            bracket_end(c@, j as int, open, close, depth as nat) == goal,
            goal == bracket_end(c@, start as int, open, close, 0),
        decreases c.len() - j,
    {
        let ch = c[j];
        let ghost old_depth = depth;
        out.push(ch);
        assert(c@.subrange(start as int, j + 1) =~= c@.subrange(start as int, j as int).push(ch));
        if ch == open {
            depth += 1;
        } else if ch == close {
            depth = depth.saturating_sub(1);
            if depth == 0 {
                assert(bracket_end(c@, j as int, open, close, old_depth as nat) == Some(j + 1));
                return Ok((out, j + 1 - start));
            }
        }
        j += 1;
    }
    Err(WplFormatError::UnclosedBracket { open, close, line })
}

/// Looks ahead over the bracketed block that opens at `start` and returns
/// its inner text (without the outer delimiters) and its length.
pub fn peek_block(c: &Vec<char>, start: usize, open: char, close: char) -> (r: Option<
    (Vec<char>, usize),
>)
    requires
        start < c.len(),
        c@[start as int] == open,
        open != '\\',
        open != '"',
    ensures
        match peek_end(c@, start as int, open, close, 0, false, false) {
            Some(e) => {
                &&& start + 2 <= e <= c.len()
                &&& r matches Some((inner, n))
                &&& inner@ == c@.subrange(start + 1, e - 1)
                &&& n == e - start
            },
            None => r is None,
        },
{
    let ghost goal = peek_end(c@, start as int, open, close, 0, false, false);
    let mut out: Vec<char> = Vec::new();
    let mut depth: usize = 1;
    let mut esc = false;
    let mut in_str = false;
    assert(peek_end(c@, start as int, open, close, 0, false, false) == peek_end(
        c@,
        start + 1,
        open,
        close,
        1,
        false,
        false,
    ));
    let mut j = start + 1;
    while j < c.len()
        invariant
            start < j <= c.len(),
            1 <= depth <= j - start,
            out@ == c@.subrange(start + 1, j as int),
            peek_end(c@, j as int, open, close, depth as nat, esc, in_str) == goal,
            goal == peek_end(c@, start as int, open, close, 0, false, false),
        decreases c.len() - j,
    {
        let ch = c[j];
        if esc {
            out.push(ch);
            esc = false;
        } else if ch == '\\' {
            out.push(ch);
            esc = true;
        } else if ch == '"' {
            out.push(ch);
            in_str = !in_str;
        } else if in_str {
            out.push(ch);
        } else if ch == open {
            depth += 1;
            out.push(ch);
        } else if ch == close {
            depth = depth - 1;
            if depth == 0 {
                return Some((out, j + 1 - start));
            }
            out.push(ch);
        } else {
            out.push(ch);
        }
        assert(c@.subrange(start + 1, j + 1) =~= c@.subrange(start + 1, j as int).push(ch));
        j += 1;
    }
    None
}

/// Length of the first of `names` whose call (the name followed by `(`)
/// starts at position `i`.
pub fn starts_with_raw_func(c: &Vec<char>, i: usize, names: &Vec<Vec<char>>) -> (r: Option<usize>)
    ensures
        same_pos(r, first_call_at(c@, i as int, names.deep_view(), 0)),
{
    let ghost nv = names.deep_view();
    let mut k: usize = 0;
    while k < names.len()
        invariant
            k <= names.len(),
            nv == names.deep_view(),
            nv.len() == names.len(),
            first_call_at(c@, i as int, nv, k as int) == first_call_at(c@, i as int, nv, 0),
        decreases names.len() - k,
    {
        let name = &names[k];
        assert(nv[k as int] == name@);
        if i <= c.len() && name.len() < c.len() - i {
            let mut m: usize = 0;
            let mut same = true;
            assert(c@.subrange(i as int, i as int) =~= name@.take(0));
            while m < name.len()
                invariant
                    m <= name.len(),
                    i + name.len() < c.len(),
                    same == (c@.subrange(i as int, i + m) == name@.take(m as int)),
                decreases name.len() - m,
            {
                if same && c[i + m] != name[m] {
                    assert(c@.subrange(i as int, i + m + 1)[m as int] != name@.take(m + 1)[m as int]);
                    same = false;
                } else if same {
                    assert(c@.subrange(i as int, i + m + 1) =~= c@.subrange(i as int, i + m).push(
                        c@[i + m],
                    ));
                    assert(name@.take(m + 1) =~= name@.take(m as int).push(name@[m as int]));
                } else {
                    assert(c@.subrange(i as int, i + m + 1).take(m as int) =~= c@.subrange(
                        i as int,
                        i + m,
                    ));
                    assert(name@.take(m + 1).take(m as int) =~= name@.take(m as int));
                }
                m += 1;
            }
            assert(name@.take(name.len() as int) =~= name@);
            if same && c[i + name.len()] == '(' {
                return Some(name.len());
            }
        }
        k += 1;
    }
    None
}

/// Reads the raw-function call that starts at `start`, up to the parenthesis
/// that brings the nesting depth back to zero (parentheses inside string
/// literals and escaped characters are not counted). The name's length is
/// not needed for that and is not used.
pub fn read_raw_func_block(c: &Vec<char>, start: usize, _name_len: usize) -> (r: Option<
    (Vec<char>, usize),
>)
    ensures
        match call_end(c@, start as int, 0, false, false) {
            Some(e) => {
                &&& start < e <= c.len()
                &&& r matches Some((lit, n))
                &&& lit@ == c@.subrange(start as int, e)
                &&& n == e - start
            },
            None => r is None,
        },
{
    let ghost goal = call_end(c@, start as int, 0, false, false);
    proof {
        lemma_call_end(c@, start as int, 0, false, false);
    }
    if start >= c.len() {
        return None;
    }
    let mut out: Vec<char> = Vec::new();
    let mut depth: i128 = 0;
    let mut esc = false;
    let mut in_str = false;
    let mut j = start;
    assert(c@.subrange(start as int, start as int) =~= Seq::<char>::empty());
    while j < c.len()
        invariant
            start <= j <= c.len(),
            -(j - start) <= depth <= j - start,
            out@ == c@.subrange(start as int, j as int),
            call_end(c@, j as int, depth as int, esc, in_str) == goal,
            goal == call_end(c@, start as int, 0, false, false),
        decreases c.len() - j,
    {
        let ch = c[j];
        out.push(ch);
        assert(c@.subrange(start as int, j + 1) =~= c@.subrange(start as int, j as int).push(ch));
        if esc {
            esc = false;
        } else if ch == '\\' {
            esc = true;
        } else if ch == '"' {
            in_str = !in_str;
        } else if in_str {
        } else if ch == '(' {
            depth += 1;
        } else if ch == ')' {
            depth -= 1;
            if depth == 0 {
                return Some((out, j + 1 - start));
            }
        }
        j += 1;
    }
    None
}

pub proof fn lemma_quote_end(c: Seq<char>, j: int, esc: bool)
    ensures
        quote_end(c, j, esc) matches Some(e) ==> 0 <= j < e <= c.len(),
    decreases c.len() - j,
{
    if 0 <= j < c.len() {
        lemma_quote_end(c, j + 1, false);
        lemma_quote_end(c, j + 1, true);
    }
}

pub proof fn lemma_first_non_white(c: Seq<char>, j: int)
    requires
        0 <= j,
    ensures
        first_non_white(c, j) matches Some(q) ==> {
            &&& j <= q < c.len()
            &&& !is_white_space(c[q])
            &&& forall|k: int| j <= k < q ==> is_white_space(#[trigger] c[k])
        },
        first_non_white(c, j) is None ==> forall|k: int| j <= k < c.len() ==> is_white_space(
            #[trigger] c[k],
        ),
    decreases c.len() - j,
{
    if j < c.len() && is_white_space(c[j]) {
        lemma_first_non_white(c, j + 1);
    }
}

pub proof fn lemma_raw_end(c: Seq<char>, j: int, hashes: nat)
    ensures
        raw_end(c, j, hashes) matches Some(e) ==> 0 <= j < e <= c.len(),
    decreases c.len() - j,
{
    if 0 <= j < c.len() && !raw_closes_at(c, j, hashes) {
        lemma_raw_end(c, j + 1, hashes);
    }
}

pub proof fn lemma_raw_string_result(c: Seq<char>, start: int, line: usize)
    ensures
        raw_string_result(c, start, line) matches Ok(e) ==> 0 <= start < e <= c.len(),
{
    if 0 <= start < c.len() && c[start] == 'r' {
        let h = run_length(c, start + 1, '#');
        lemma_raw_end(c, start + 1 + h + 1, h);
    }
}

pub proof fn lemma_bracket_end(c: Seq<char>, j: int, open: char, close: char, depth: nat)
    ensures
        bracket_end(c, j, open, close, depth) matches Some(e) ==> 0 <= j < e <= c.len() && c[e
            - 1] == close,
    decreases c.len() - j,
{
    if 0 <= j < c.len() {
        lemma_bracket_end(c, j + 1, open, close, depth + 1);
        lemma_bracket_end(c, j + 1, open, close, depth);
        if depth > 0 {
            lemma_bracket_end(c, j + 1, open, close, (depth - 1) as nat);
        }
    }
}

pub proof fn lemma_peek_end(
    c: Seq<char>,
    j: int,
    open: char,
    close: char,
    depth: nat,
    esc: bool,
    in_str: bool,
)
    ensures
        peek_end(c, j, open, close, depth, esc, in_str) matches Some(e) ==> 0 <= j < e <= c.len()
            && c[e - 1] == close,
    decreases c.len() - j,
{
    if 0 <= j < c.len() {
        lemma_peek_end(c, j + 1, open, close, depth, false, in_str);
        lemma_peek_end(c, j + 1, open, close, depth, true, in_str);
        lemma_peek_end(c, j + 1, open, close, depth, false, !in_str);
        lemma_peek_end(c, j + 1, open, close, depth + 1, false, in_str);
        if depth > 0 {
            lemma_peek_end(c, j + 1, open, close, (depth - 1) as nat, false, in_str);
        }
    }
}

pub proof fn lemma_call_end(c: Seq<char>, j: int, depth: int, esc: bool, in_str: bool)
    ensures
        call_end(c, j, depth, esc, in_str) matches Some(e) ==> 0 <= j < e <= c.len(),
    decreases c.len() - j,
{
    if 0 <= j < c.len() {
        lemma_call_end(c, j + 1, depth, false, in_str);
        lemma_call_end(c, j + 1, depth, true, in_str);
        lemma_call_end(c, j + 1, depth, false, !in_str);
        lemma_call_end(c, j + 1, depth + 1, false, in_str);
        lemma_call_end(c, j + 1, depth - 1, false, in_str);
    }
}

} // verus!
