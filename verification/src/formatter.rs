//! The WPL formatter.
//!
//! Formatting walks the characters of the (newline-normalised) text once,
//! as a machine whose state is a `FmtState`: each step reads at the current
//! position, appends to the output and moves forward. `step` is that
//! transition, `run_machine` the whole walk, `format_chars_result` adds the
//! check for unclosed brackets and the final tidying of lines, and
//! `format_text` the normalisation and separator recognition in front.
use vstd::prelude::*;
use crate::error::WplFormatError;
use crate::lines::{finish, finish_output, normalize_line_endings, normalize_newlines, join_words, push_joined_words};
use crate::scan::{
    same_pos,
    bracket_end, call_end, first_call_at, first_non_white, peek_end, quote_end,
    raw_string_result, string_literal_end,
};
use crate::text::{indent_pad, is_white_space, newline_count, trim};
use crate::tree::{
    closing_indent, range_at, ranges_well_formed, separator_blocks_from, separator_block_end,
    last_start_at_most, end_of_range_starting,
};

verus! {

/// The names of the functions whose calls are copied verbatim.
pub open spec fn raw_func_names() -> Seq<Seq<char>> {
    seq![
        seq!['s', 'y', 'm', 'b', 'o', 'l'],
        seq!['f', '_', 'c', 'h', 'a', 'r', 's', '_', 'n', 'o', 't', '_', 'h', 'a', 's'],
        seq!['f', '_', 'c', 'h', 'a', 'r', 's', '_', 'h', 'a', 's'],
        seq!['k', 'v'],
        seq!['f', '_', 'c', 'h', 'a', 'r', 's', '_', 'i', 'n'],
    ]
}

/// State of the formatting walk.
pub struct FmtState {
    /// Position of the next character to read.
    pub pos: int,
    /// Output written so far.
    pub out: Seq<char>,
    /// Opening brackets (`{` or `(`) not yet closed, innermost last.
    pub stack: Seq<char>,
    /// Current indentation level.
    pub indent: nat,
    /// The output is at the start of a line.
    pub sol: bool,
    /// Current 1-based input line.
    pub line: usize,
}

/// Outcome of one step of the walk.
pub enum Step {
    Next(FmtState),
    Fail(WplFormatError),
}

/// The state before the first step.
pub open spec fn initial_state() -> FmtState {
    FmtState { pos: 0, out: Seq::empty(), stack: Seq::empty(), indent: 0, sol: true, line: 1 }
}

/// `line + k`, saturating at `usize::MAX`.
pub open spec fn add_lines(line: usize, k: nat) -> usize {
    if line + k > usize::MAX {
        usize::MAX
    } else {
        (line + k) as usize
    }
}

/// Indentation written before the next output when at the start of a line.
pub open spec fn lead_in(s: FmtState, unit: nat) -> Seq<char> {
    if s.sol {
        indent_pad(s.indent, unit)
    } else {
        Seq::empty()
    }
}

/// The closing bracket that matches `open`.
pub open spec fn closer_of(open: char) -> char {
    if open == '{' {
        '}'
    } else {
        ')'
    }
}

/// A character that is written as is when preceded by a backslash.
pub open spec fn is_escapable(ch: char) -> bool {
    ch == '(' || ch == ')' || ch == '{' || ch == '}' || ch == '|' || ch == ','
}

/// After copying `text` verbatim (indented if at the start of a line) and
/// moving to `to`.
pub open spec fn copied(s: FmtState, text: Seq<char>, to: int, sol_after: bool, unit: nat) -> FmtState {
    FmtState {
        pos: to,
        out: s.out + lead_in(s, unit) + text,
        line: add_lines(s.line, newline_count(text)),
        sol: sol_after,
        ..s
    }
}

/// After copying `c[from..to]` verbatim; the output is then at the start of
/// a line when the copy ends with a line break.
pub open spec fn copied_block(s: FmtState, c: Seq<char>, from: int, to: int, unit: nat) -> FmtState {
    let text = c.subrange(from, to);
    copied(s, text, to, text.len() > 0 && text.last() == '\n', unit)
}

/// After writing the single character `ch`.
pub open spec fn wrote_char(s: FmtState, ch: char, unit: nat) -> FmtState {
    FmtState { pos: s.pos + 1, out: s.out + lead_in(s, unit) + seq![ch], sol: false, ..s }
}

/// After opening a block with `ch` (`{` or `(`): the bracket ends its line
/// and the indentation grows.
pub open spec fn opened(s: FmtState, ch: char, unit: nat) -> FmtState {
    FmtState {
        pos: s.pos + 1,
        out: s.out + lead_in(s, unit) + seq![ch, '\n'],
        stack: s.stack.push(ch),
        indent: s.indent + 1,
        sol: true,
        ..s
    }
}

/// After closing a block with `cl` at indentation `indent`, on a line of
/// its own; `}` also ends its line.
pub open spec fn closed(s: FmtState, stack: Seq<char>, indent: nat, cl: char, unit: nat) -> FmtState {
    let o1 = if s.sol {
        s.out
    } else {
        s.out.push('\n')
    };
    let tail = if cl == '}' {
        seq!['}', '\n']
    } else {
        seq![cl]
    };
    FmtState {
        pos: s.pos + 1,
        out: o1 + indent_pad(indent, unit) + tail,
        stack,
        indent,
        sol: cl == '}',
        ..s
    }
}

/// Step at a `"`: a lone quote used as a format marker (followed by a comma
/// or without a closing quote) is written alone and the white space after
/// it skipped; otherwise the string literal is copied.
pub open spec fn step_quote(c: Seq<char>, s: FmtState, unit: nat) -> Step {
    let p = s.pos;
    let nn = first_non_white(c, p + 1);
    let comma = nn is Some && c[nn->0] == ',';
    let has_close = quote_end(c, p + 1, false) is Some;
    if comma || !has_close {
        let np = if nn is Some {
            nn->0
        } else {
            p + 1
        };
        Step::Next(
            FmtState {
                pos: np,
                out: s.out + lead_in(s, unit) + seq!['"'],
                line: add_lines(s.line, newline_count(c.subrange(p, np))),
                sol: false,
                ..s
            },
        )
    } else {
        match string_literal_end(c, p) {
            Some(e) => Step::Next(copied(s, c.subrange(p, e), e, false, unit)),
            None => Step::Fail(WplFormatError::UnclosedString { line: s.line }),
        }
    }
}

/// Step at `#[`: the annotation is written on one line with its words
/// single-spaced, and ends the line.
pub open spec fn step_annotation(c: Seq<char>, s: FmtState, unit: nat) -> Step {
    let p = s.pos;
    match bracket_end(c, p, '[', ']', 0) {
        Some(e) => Step::Next(
            FmtState {
                pos: e,
                out: s.out + lead_in(s, unit) + join_words(c.subrange(p, e)) + seq!['\n'],
                line: add_lines(s.line, newline_count(c.subrange(p, e))),
                sol: true,
                ..s
            },
        ),
        None => Step::Fail(WplFormatError::UnclosedBracket { open: '[', close: ']', line: s.line }),
    }
}

/// Step at white space: a line break ends the output line (once), other
/// white space becomes a single space inside a line.
pub open spec fn step_space(c: Seq<char>, s: FmtState) -> FmtState {
    let ch = c[s.pos];
    if ch == '\n' {
        FmtState {
            pos: s.pos + 1,
            out: if !s.sol {
                s.out.push('\n')
            } else {
                s.out
            },
            sol: true,
            line: add_lines(s.line, 1),
            ..s
        }
    } else {
        FmtState {
            pos: s.pos + 1,
            out: if !s.sol {
                s.out.push(' ')
            } else {
                s.out
            },
            ..s
        }
    }
}

/// Step at a closing bracket `cl`.
pub open spec fn step_close(c: Seq<char>, tree_ok: bool, unit: nat, s: FmtState, cl: char) -> Step {
    if s.stack.len() > 0 {
        let expected = closer_of(s.stack.last());
        if expected != cl {
            Step::Fail(WplFormatError::MismatchedBracket { expected, found: cl, line: s.line })
        } else {
            let indent: nat = if s.indent > 0 {
                (s.indent - 1) as nat
            } else {
                0
            };
            Step::Next(closed(s, s.stack.drop_last(), indent, cl, unit))
        }
    } else if tree_ok {
        Step::Next(closed(s, s.stack, closing_indent(s.out, unit as int) as nat, cl, unit))
    } else {
        Step::Fail(WplFormatError::UnexpectedClosing { close: cl, line: s.line })
    }
}

/// Step at `(`: a group without `,` or `|` inside stays on the line with
/// its inner text trimmed; any other group opens a block.
pub open spec fn step_paren(c: Seq<char>, unit: nat, s: FmtState) -> Step {
    let p = s.pos;
    let pk = peek_end(c, p, '(', ')', 0, false, false);
    if pk is Some && !c.subrange(p + 1, pk->0 - 1).contains(',') && !c.subrange(
        p + 1,
        pk->0 - 1,
    ).contains('|') {
        let e = pk->0;
        Step::Next(
            FmtState {
                pos: e,
                out: s.out + lead_in(s, unit) + seq!['('] + trim(c.subrange(p + 1, e - 1)) + seq![
                    ')',
                ],
                line: add_lines(s.line, newline_count(c.subrange(p, e))),
                sol: false,
                ..s
            },
        )
    } else {
        Step::Next(opened(s, '(', unit))
    }
}

/// Step at `|`: a pipe is preceded by one space within a line, followed by
/// one space, and the white space after it is skipped.
pub open spec fn step_pipe(c: Seq<char>, unit: nat, s: FmtState) -> FmtState {
    let p = s.pos;
    let o1 = s.out + lead_in(s, unit);
    let space = !s.sol && !(o1.len() > 0 && (o1.last() == ' ' || o1.last() == '\n'));
    let np = match first_non_white(c, p + 1) {
        Some(q) => q,
        None => c.len() as int,
    };
    FmtState {
        pos: np,
        out: o1 + (if space {
            seq![' ']
        } else {
            Seq::empty()
        }) + seq!['|', ' '],
        line: add_lines(s.line, newline_count(c.subrange(p + 1, np))),
        sol: false,
        ..s
    }
}

/// One step of the formatting walk at position `s.pos` of `c`, given the
/// separator ranges `r`, whether the text's structure was recognised
/// (`tree_ok`) and the indentation unit.
pub open spec fn step(c: Seq<char>, r: Seq<(usize, usize)>, tree_ok: bool, unit: nat, s: FmtState) -> Step {
    let p = s.pos;
    let ch = c[p];
    let ra = range_at(r, p);
    if ra is Some {
        let (rs, re) = ra->0;
        let from = if p < rs {
            rs as int
        } else {
            p
        };
        Step::Next(copied_block(s, c, from, re as int, unit))
    } else if ch == '"' {
        step_quote(c, s, unit)
    } else if ch == 'r' && p + 1 < c.len() && c[p + 1] == '#' {
        match raw_string_result(c, p, s.line) {
            Ok(e) => Step::Next(copied(s, c.subrange(p, e), e, false, unit)),
            Err(err) => Step::Fail(err),
        }
    } else if ch == '#' && p + 1 < c.len() && c[p + 1] == '[' {
        step_annotation(c, s, unit)
    } else if ch == '<' {
        match bracket_end(c, p, '<', '>', 0) {
            Some(e) => Step::Next(copied(s, c.subrange(p, e), e, false, unit)),
            None => Step::Fail(
                WplFormatError::UnclosedBracket { open: '<', close: '>', line: s.line },
            ),
        }
    } else if is_white_space(ch) {
        Step::Next(step_space(c, s))
    } else if first_call_at(c, p, raw_func_names(), 0) is Some && call_end(c, p, 0, false, false) is Some {
        let e = call_end(c, p, 0, false, false)->0;
        Step::Next(copied(s, c.subrange(p, e), e, false, unit))
    } else if p > 0 && c[p - 1] == '\\' && is_escapable(ch) {
        Step::Next(wrote_char(s, ch, unit))
    } else if ch == '{' {
        let sb = separator_block_end(c, p, r);
        if sb is Some {
            Step::Next(copied_block(s, c, p, sb->0, unit))
        } else {
            Step::Next(opened(s, '{', unit))
        }
    } else if ch == '}' || ch == ')' {
        step_close(c, tree_ok, unit, s, ch)
    } else if ch == '(' {
        step_paren(c, unit, s)
    } else if ch == ',' {
        Step::Next(FmtState { pos: p + 1, out: s.out + seq![',', '\n'], sol: true, ..s })
    } else if ch == '|' {
        Step::Next(step_pipe(c, unit, s))
    } else {
        Step::Next(wrote_char(s, ch, unit))
    }
}

/// The walk from state `s` to the end of `c`, or the first error.
pub open spec fn run_machine(c: Seq<char>, r: Seq<(usize, usize)>, tree_ok: bool, unit: nat, s: FmtState) -> Result<
    FmtState,
    WplFormatError,
>
    decreases c.len() - s.pos,
{
    if s.pos < 0 || s.pos >= c.len() {
        Ok(s)
    } else {
        match step(c, r, tree_ok, unit, s) {
            Step::Fail(e) => Err(e),
            Step::Next(t) => if s.pos < t.pos <= c.len() {
                run_machine(c, r, tree_ok, unit, t)
            } else {
                Ok(t)
            },
        }
    }
}

/// The formatted form of the characters `c` with separator ranges `r`.
pub open spec fn format_chars_result(c: Seq<char>, r: Seq<(usize, usize)>, tree_ok: bool, unit: nat) -> Result<
    Seq<char>,
    WplFormatError,
> {
    match run_machine(c, r, tree_ok, unit, initial_state()) {
        Err(e) => Err(e),
        Ok(f) => if f.stack.len() > 0 {
            Err(
                WplFormatError::UnclosedBracket {
                    open: f.stack.last(),
                    close: closer_of(f.stack.last()),
                    line: f.line,
                },
            )
        } else {
            Ok(finish_output(f.out))
        },
    }
}

/// The formatted form of the WPL text `content` with indentation unit
/// `unit`: line endings normalised, pattern separators recognised and kept
/// verbatim, then the walk.
pub open spec fn format_text(content: Seq<char>, unit: nat) -> Result<Seq<char>, WplFormatError> {
    let c = normalize_newlines(content);
    format_chars_result(c, separator_blocks_from(c, 0), true, unit)
}

/// A formatting result with the text taken by its characters.
pub open spec fn text_result(r: Result<String, WplFormatError>) -> Result<Seq<char>, WplFormatError> {
    match r {
        Ok(s) => Ok(s@),
        Err(e) => Err(e),
    }
}

/// The formatted text, or `original` when formatting fails.
pub open spec fn or_original(r: Result<Seq<char>, WplFormatError>, original: Seq<char>) -> Seq<char> {
    match r {
        Ok(t) => t,
        Err(_) => original,
    }
}

proof fn lemma_last_start_bounds(r: Seq<(usize, usize)>, off: int)
    ensures
        -1 <= last_start_at_most(r, off) < r.len(),
        last_start_at_most(r, off) >= 0 ==> r[last_start_at_most(r, off)].0 <= off,
    decreases r.len(),
{
    if r.len() > 0 && r.last().0 > off {
        lemma_last_start_bounds(r.drop_last(), off);
        let k = last_start_at_most(r.drop_last(), off);
        if k >= 0 {
            assert(r.drop_last()[k] == r[k]);
        }
    }
}

/// A range found at `off` starts at or before `off` and ends after it.
pub proof fn lemma_range_at_bounds(r: Seq<(usize, usize)>, n: int, off: int)
    requires
        ranges_well_formed(r, n),
    ensures
        range_at(r, off) matches Some(b) ==> b.0 <= off < b.1 <= n,
{
    lemma_last_start_bounds(r, off);
    let k = last_start_at_most(r, off);
    if k >= 0 {
        assert(r[k].0 < r[k].1 && r[k].1 <= n);
    }
}

pub proof fn lemma_end_of_range_starting(r: Seq<(usize, usize)>, n: int, start: int, k: int)
    requires
        ranges_well_formed(r, n),
        0 <= k,
    ensures
        end_of_range_starting(r, start, k) matches Some(e) ==> start < e <= n,
    decreases r.len() - k,
{
    if k < r.len() {
        assert(r[k].0 < r[k].1 && r[k].1 <= n);
        if r[k].0 != start {
            lemma_end_of_range_starting(r, n, start, k + 1);
        }
    }
}

/// The names of the functions whose calls are copied verbatim.
fn raw_func_name_list() -> (r: Vec<Vec<char>>)
    ensures
        r.deep_view() == raw_func_names(),
{
    let r = vec![
        vec!['s', 'y', 'm', 'b', 'o', 'l'],
        vec!['f', '_', 'c', 'h', 'a', 'r', 's', '_', 'n', 'o', 't', '_', 'h', 'a', 's'],
        vec!['f', '_', 'c', 'h', 'a', 'r', 's', '_', 'h', 'a', 's'],
        vec!['k', 'v'],
        vec!['f', '_', 'c', 'h', 'a', 'r', 's', '_', 'i', 'n'],
    ];
    assert(r.deep_view() =~~= raw_func_names());
    r
}

/// Formats WPL text with a given indentation width.
pub struct WplFormatter {
    indent: usize,
}

/// The executable state of the formatting walk.
struct Cursor {
    pos: usize,
    out: Vec<char>,
    stack: Vec<char>,
    indent: usize,
    sol: bool,
    line: usize,
}

impl Cursor {
    spec fn state(&self) -> FmtState {
        FmtState {
            pos: self.pos as int,
            out: self.out@,
            stack: self.stack@,
            indent: self.indent as nat,
            sol: self.sol,
            line: self.line,
        }
    }

    spec fn wf(&self) -> bool {
        self.indent <= self.out@.len()
    }
}

impl WplFormatter {
    #[verifier::type_invariant]
    spec fn width_positive(self) -> bool {
        self.indent >= 1
    }

    /// Number of spaces per indentation level.
    pub closed spec fn indent_width(self) -> nat {
        self.indent as nat
    }

    /// Appends the current indentation when at the start of a line.
    fn write_indent_if_needed(&self, start_of_line: bool, indent: usize, buf: &mut Vec<char>)
        ensures
            final(buf)@ == old(buf)@ + if start_of_line {
                indent_pad(indent as nat, self.indent as nat)
            } else {
                Seq::empty()
            },
    {
        if start_of_line {
            crate::text::push_indent(indent, self.indent, buf);
        } else {
            assert(buf@ + Seq::<char>::empty() =~= buf@);
        }
    }

    /// Copies `src[from..to]` verbatim into the output and moves to `to_pos`.
    fn emit_text(
        &self,
        st: &mut Cursor,
        src: &Vec<char>,
        from: usize,
        to: usize,
        to_pos: usize,
        sol_after: bool,
    )
        requires
            from <= to <= src.len(),
            old(st).wf(),
        ensures
            final(st).state() == copied(
                old(st).state(),
                src@.subrange(from as int, to as int),
                to_pos as int,
                sol_after,
                self.indent as nat,
            ),
            final(st).wf(),
    {
        self.write_indent_if_needed(st.sol, st.indent, &mut st.out);
        crate::text::push_range(src, from, to, &mut st.out);
        let k = crate::text::count_newlines(src, from, to);
        st.line = st.line.saturating_add(k);
        st.sol = sol_after;
        st.pos = to_pos;
    }

    /// Writes the single character `ch` (indented when at the start of a
    /// line) and moves one position on.
    fn emit_char(&self, st: &mut Cursor, ch: char)
        requires
            old(st).wf(),
            old(st).pos < usize::MAX,
        ensures
            final(st).state() == wrote_char(old(st).state(), ch, self.indent as nat),
            final(st).wf(),
    {
        let ghost s0 = st.state();
        self.write_indent_if_needed(st.sol, st.indent, &mut st.out);
        st.out.push(ch);
        assert(st.out@ =~= s0.out + lead_in(s0, self.indent as nat) + seq![ch]);
        st.sol = false;
        st.pos = st.pos + 1;
    }

    /// Opens a block with `ch`.
    fn open_block(&self, st: &mut Cursor, ch: char)
        requires
            old(st).wf(),
            old(st).pos < usize::MAX,
        ensures
            final(st).state() == opened(old(st).state(), ch, self.indent as nat),
            final(st).wf(),
    {
        let ghost s0 = st.state();
        st.stack.push(ch);
        self.write_indent_if_needed(st.sol, st.indent, &mut st.out);
        st.out.push(ch);
        st.out.push('\n');
        assert(st.out@ =~= s0.out + lead_in(s0, self.indent as nat) + seq![ch, '\n']);
        let len = st.out.len();
        assert(st.indent < len);
        st.indent = st.indent + 1;
        st.sol = true;
        st.pos = st.pos + 1;
    }

    /// Closes a block with `cl` at indentation `indent`.
    fn close_block(&self, st: &mut Cursor, indent: usize, cl: char)
        requires
            indent <= old(st).out@.len(),
            old(st).pos < usize::MAX,
        ensures
            final(st).state() == closed(
                old(st).state(),
                old(st).stack@,
                indent as nat,
                cl,
                self.indent as nat,
            ),
            final(st).wf(),
    {
        let ghost s0 = st.state();
        st.indent = indent;
        if !st.sol {
            st.out.push('\n');
        }
        let ghost o1 = st.out@;
        self.write_indent_if_needed(true, st.indent, &mut st.out);
        st.out.push(cl);
        if cl == '}' {
            st.out.push('\n');
            assert(st.out@ =~= o1 + indent_pad(indent as nat, self.indent as nat) + seq!['}', '\n']);
        } else {
            assert(st.out@ =~= o1 + indent_pad(indent as nat, self.indent as nat) + seq![cl]);
        }
        st.sol = cl == '}';
        st.pos = st.pos + 1;
    }
}

/// The executable step ended as `outcome` says: on `Next` the cursor holds
/// the new state, which lies further on, and on `Fail` the error came back.
spec fn step_matches(s0: FmtState, r: Result<(), WplFormatError>, st: Cursor, outcome: Step, n: int) -> bool {
    match outcome {
        Step::Next(t) => {
            &&& r is Ok
            &&& st.state() == t
            &&& s0.pos < st.pos <= n
            &&& st.wf()
        },
        Step::Fail(e) => r == Err::<(), WplFormatError>(e),
    }
}

impl WplFormatter {
    /// Copies all of `text` verbatim into the output and moves to `to_pos`.
    fn emit_all(&self, st: &mut Cursor, text: &Vec<char>, to_pos: usize, sol_after: bool)
        requires
            old(st).wf(),
        ensures
            final(st).state() == copied(old(st).state(), text@, to_pos as int, sol_after, self.indent as nat),
            final(st).wf(),
    {
        assert(text@.subrange(0, text.len() as int) =~= text@);
        self.emit_text(st, text, 0, text.len(), to_pos, sol_after);
    }

    fn step_at_quote(&self, c: &Vec<char>, st: &mut Cursor) -> (r: Result<(), WplFormatError>)
        requires
            old(st).wf(),
            old(st).pos < c.len(),
            c@[old(st).pos as int] == '"',
        ensures
            step_matches(old(st).state(), r, *final(st), step_quote(c@, old(st).state(), self.indent as nat), c.len() as int),
    {
        let i = st.pos;
        let next_non_ws = crate::scan::next_non_whitespace_pos(c, i + 1);
        let comma_follows = match next_non_ws {
            Some(idx) => c[idx] == ',',
            None => false,
        };
        let has_close = crate::scan::has_closing_quote(c, i + 1);
        if comma_follows || !has_close {
            let ghost s0 = st.state();
            self.write_indent_if_needed(st.sol, st.indent, &mut st.out);
            st.out.push('"');
            assert(st.out@ =~= s0.out + lead_in(s0, self.indent as nat) + seq!['"']);
            let new_i = match next_non_ws {
                Some(x) => x,
                None => i + 1,
            };
            let k = crate::text::count_newlines(c, i, new_i);
            st.line = st.line.saturating_add(k);
            st.pos = new_i;
            st.sol = false;
            assert(st.state() == FmtState {
                pos: new_i as int,
                out: s0.out + lead_in(s0, self.indent as nat) + seq!['"'],
                line: add_lines(s0.line, newline_count(c@.subrange(i as int, new_i as int))),
                sol: false,
                ..s0
            });
            let ghost nn = first_non_white(c@, s0.pos + 1);
            assert(same_pos(next_non_ws, nn));
            assert(comma_follows == (nn is Some && c@[nn->0] == ','));
            assert(has_close == (quote_end(c@, s0.pos + 1, false) is Some));
            assert(new_i == if nn is Some { nn->0 } else { s0.pos + 1 });
            assert(step_quote(c@, s0, self.indent as nat) == Step::Next(st.state()));
            return Ok(());
        }
        match crate::scan::read_string(c, i, st.line) {
            Ok((literal, consumed)) => {
                self.emit_all(st, &literal, i + consumed, false);
                Ok(())
            },
            Err(e) => Err(e),
        }
    }

    fn step_at_annotation(&self, c: &Vec<char>, st: &mut Cursor) -> (r: Result<(), WplFormatError>)
        requires
            old(st).wf(),
            old(st).pos < c.len(),
        ensures
            step_matches(old(st).state(), r, *final(st), step_annotation(c@, old(st).state(), self.indent as nat), c.len() as int),
    {
        let i = st.pos;
        match crate::scan::read_bracket_block(c, i, '[', ']', st.line) {
            Ok((ann, consumed)) => {
                let ghost s0 = st.state();
                self.write_indent_if_needed(st.sol, st.indent, &mut st.out);
                assert(ann@.subrange(0, ann.len() as int) =~= ann@);
                push_joined_words(&ann, 0, ann.len(), &mut st.out);
                st.out.push('\n');
                assert(st.out@ =~= s0.out + lead_in(s0, self.indent as nat) + join_words(c@.subrange(i as int, i + consumed)) + seq!['\n']);
                let k = crate::text::count_newlines(&ann, 0, ann.len());
                st.line = st.line.saturating_add(k);
                st.pos = i + consumed;
                st.sol = true;
                Ok(())
            },
            Err(e) => Err(e),
        }
    }

    fn step_at_space(&self, c: &Vec<char>, st: &mut Cursor)
        requires
            old(st).wf(),
            old(st).pos < c.len(),
        ensures
            final(st).state() == step_space(c@, old(st).state()),
            final(st).wf(),
    {
        let ch = c[st.pos];
        if ch == '\n' {
            if !st.sol {
                st.out.push('\n');
            }
            st.sol = true;
            st.line = st.line.saturating_add(1);
        } else if !st.sol {
            st.out.push(' ');
        }
        st.pos = st.pos + 1;
    }

    fn step_at_close(&self, c: &Vec<char>, tree_ok: bool, st: &mut Cursor, cl: char) -> (r: Result<(), WplFormatError>)
        requires
            old(st).wf(),
            old(st).pos < c.len(),
            cl == '}' || cl == ')',
        ensures
            step_matches(old(st).state(), r, *final(st), step_close(c@, tree_ok, self.indent as nat, old(st).state(), cl), c.len() as int),
    {
        proof {
            use_type_invariant(self);
        }
        if let Some(open) = st.stack.pop() {
            let expected = if open == '{' {
                '}'
            } else {
                ')'
            };
            if expected != cl {
                return Err(WplFormatError::MismatchedBracket { expected, found: cl, line: st.line });
            }
            let indent = st.indent.saturating_sub(1);
            self.close_block(st, indent, cl);
            Ok(())
        } else if tree_ok {
            let inferred = crate::tree::infer_closing_indent(&st.out, self.indent);
            self.close_block(st, inferred, cl);
            Ok(())
        } else {
            Err(WplFormatError::UnexpectedClosing { close: cl, line: st.line })
        }
    }

    fn step_at_paren(&self, c: &Vec<char>, st: &mut Cursor) -> (r: Result<(), WplFormatError>)
        requires
            old(st).wf(),
            old(st).pos < c.len(),
            c@[old(st).pos as int] == '(',
        ensures
            step_matches(old(st).state(), r, *final(st), step_paren(c@, self.indent as nat, old(st).state()), c.len() as int),
    {
        let i = st.pos;
        if let Some((inner, consumed)) = crate::scan::peek_block(c, i, '(', ')') {
            let has_comma = has_char(&inner, ',');
            let has_pipe = has_char(&inner, '|');
            if !has_comma && !has_pipe {
                let ghost s0 = st.state();
                self.write_indent_if_needed(st.sol, st.indent, &mut st.out);
                st.out.push('(');
                let (a, b) = crate::text::trim_bounds(&inner, 0, inner.len());
                assert(inner@.subrange(0, inner.len() as int) =~= inner@);
                crate::text::push_range(&inner, a, b, &mut st.out);
                st.out.push(')');
                assert(st.out@ =~= s0.out + lead_in(s0, self.indent as nat) + seq!['('] + trim(inner@) + seq![')']);
                let k = crate::text::count_newlines(c, i, i + consumed);
                st.line = st.line.saturating_add(k);
                st.sol = false;
                st.pos = i + consumed;
                return Ok(());
            }
        }
        self.open_block(st, '(');
        Ok(())
    }

    fn step_at_pipe(&self, c: &Vec<char>, st: &mut Cursor)
        requires
            old(st).wf(),
            old(st).pos < c.len(),
        ensures
            final(st).state() == step_pipe(c@, self.indent as nat, old(st).state()),
            old(st).pos < final(st).pos <= c.len(),
            final(st).wf(),
    {
        let ghost s0 = st.state();
        let i = st.pos;
        self.write_indent_if_needed(st.sol, st.indent, &mut st.out);
        let ghost o1 = st.out@;
        let len = st.out.len();
        if !st.sol && !(len > 0 && (st.out[len - 1] == ' ' || st.out[len - 1] == '\n')) {
            st.out.push(' ');
            assert(st.out@ =~= o1 + seq![' ']);
        } else {
            assert(st.out@ =~= o1 + Seq::<char>::empty());
        }
        let ghost o2 = st.out@;
        st.out.push('|');
        st.out.push(' ');
        assert(st.out@ =~= o2 + seq!['|', ' ']);
        let ghost o3 = st.out@;
        let mut k = i;
        let line0 = st.line;
        assert(c@.subrange(i + 1, i + 1) =~= Seq::<char>::empty());
        while k + 1 < c.len() && crate::text::is_white_space_char(c[k + 1])
            invariant
                i <= k < c.len(),
                st.out@ == o3,
                st.indent == s0.indent,
                st.stack@ == s0.stack,
                st.pos == s0.pos,
                o3.len() >= s0.out.len(),
                st.line == add_lines(line0, newline_count(c@.subrange(i + 1, k + 1))),
                first_non_white(c@, k + 1) == first_non_white(c@, i + 1),
            decreases c.len() - k,
        {
            proof {
                crate::text::lemma_newline_count_append(c@.subrange(i + 1, k + 1), seq![c@[k + 1]]);
                assert(c@.subrange(i + 1, k + 2) =~= c@.subrange(i + 1, k + 1) + seq![c@[k + 1]]);
                assert(newline_count(seq![c@[k + 1]]) == if c@[k + 1] == '\n' { 1nat } else { 0nat }) by {
                    assert(seq![c@[k + 1]].drop_last() =~= Seq::<char>::empty());
                    assert(newline_count(Seq::<char>::empty()) == 0);
                    assert(seq![c@[k + 1]].last() == c@[k + 1]);
                }
            }
            if c[k + 1] == '\n' {
                st.line = st.line.saturating_add(1);
            }
            k += 1;
        }
        st.sol = false;
        st.pos = k + 1;
    }

    fn step_at(
        &self,
        c: &Vec<char>,
        ranges: &Vec<(usize, usize)>,
        tree_ok: bool,
        names: &Vec<Vec<char>>,
        st: &mut Cursor,
    ) -> (r: Result<(), WplFormatError>)
        requires
            old(st).wf(),
            old(st).pos < c.len(),
            ranges_well_formed(ranges@, c.len() as int),
            names.deep_view() == raw_func_names(),
        ensures
            step_matches(old(st).state(), r, *final(st), step(c@, ranges@, tree_ok, self.indent as nat, old(st).state()), c.len() as int),
    {
        let i = st.pos;
        proof {
            lemma_range_at_bounds(ranges@, c.len() as int, i as int);
        }
        if let Some((range_start, range_end)) = crate::tree::find_range_at(ranges, i) {
            let slice_start = if i < range_start {
                range_start
            } else {
                i
            };
            let sol_after = range_end > slice_start && c[range_end - 1] == '\n';
            self.emit_text(st, c, slice_start, range_end, range_end, sol_after);
            return Ok(());
        }
        let ch = c[i];
        let escaped = i > 0 && c[i - 1] == '\\';
        if ch == '"' {
            return self.step_at_quote(c, st);
        }
        if ch == 'r' && i + 1 < c.len() && c[i + 1] == '#' {
            return match crate::scan::read_raw_string(c, i, st.line) {
                Ok((literal, consumed)) => {
                    self.emit_all(st, &literal, i + consumed, false);
                    Ok(())
                },
                Err(e) => Err(e),
            };
        }
        if ch == '#' && i + 1 < c.len() && c[i + 1] == '[' {
            return self.step_at_annotation(c, st);
        }
        if ch == '<' {
            return match crate::scan::read_bracket_block(c, i, '<', '>', st.line) {
                Ok((block, consumed)) => {
                    self.emit_all(st, &block, i + consumed, false);
                    Ok(())
                },
                Err(e) => Err(e),
            };
        }
        if crate::text::is_white_space_char(ch) {
            self.step_at_space(c, st);
            return Ok(());
        }
        if let Some(name_len) = crate::scan::starts_with_raw_func(c, i, names) {
            if let Some((block, consumed)) = crate::scan::read_raw_func_block(c, i, name_len) {
                self.emit_all(st, &block, i + consumed, false);
                return Ok(());
            }
        }
        if escaped && (ch == '(' || ch == ')' || ch == '{' || ch == '}' || ch == '|' || ch == ',') {
            self.emit_char(st, ch);
            return Ok(());
        }
        if ch == '{' {
            proof {
                lemma_end_of_range_starting(ranges@, c.len() as int, i as int, 0);
            }
            if let Some(end) = crate::tree::find_separator_block(c, i, ranges) {
                let sol_after = end > i && c[end - 1] == '\n';
                self.emit_text(st, c, i, end, end, sol_after);
                return Ok(());
            }
            self.open_block(st, '{');
            return Ok(());
        }
        if ch == '}' || ch == ')' {
            return self.step_at_close(c, tree_ok, st, ch);
        }
        if ch == '(' {
            return self.step_at_paren(c, st);
        }
        if ch == ',' {
            let ghost s0 = st.state();
            st.out.push(',');
            st.out.push('\n');
            assert(st.out@ =~= s0.out + seq![',', '\n']);
            st.sol = true;
            st.pos = i + 1;
            return Ok(());
        }
        if ch == '|' {
            self.step_at_pipe(c, st);
            return Ok(());
        }
        self.emit_char(st, ch);
        Ok(())
    }
}

/// Whether `ch` occurs in `v`.
fn has_char(v: &Vec<char>, ch: char) -> (r: bool)
    ensures
        r == v@.contains(ch),
{
    let mut k: usize = 0;
    while k < v.len()
        invariant
            k <= v.len(),
            forall|m: int| 0 <= m < k ==> v@[m] != ch,
        decreases v.len() - k,
    {
        if v[k] == ch {
            return true;
        }
        k += 1;
    }
    false
}

/// Appends `ch` to `s` (`String::push`).
#[verifier::external_body]
fn string_push(s: &mut String, ch: char)
    ensures
        final(s)@ == old(s)@.push(ch),
{
    s.push(ch);
}

/// A string holding the characters of `v`.
pub(crate) fn string_from_chars(v: &Vec<char>) -> (r: String)
    ensures
        r@ == v@,
{
    let mut r = String::new();
    let mut k: usize = 0;
    while k < v.len()
        invariant
            k <= v.len(),
            r@ == v@.take(k as int),
        decreases v.len() - k,
    {
        string_push(&mut r, v[k]);
        assert(v@.take(k + 1) =~= v@.take(k as int).push(v@[k as int]));
        k += 1;
    }
    assert(v@.take(v.len() as int) =~= v@);
    r
}

/// The characters of `s`.
pub(crate) fn chars_of(s: &str) -> (r: Vec<char>)
    ensures
        r@ == s@,
{
    let mut v: Vec<char> = Vec::new();
    broadcast use vstd::string::group_string_axioms;
    for ch in it: s.chars()
        invariant
            it.seq() == s@,
            v@ == it.seq().take(it.index()),
    {
        assert(it.seq().take(it.index() + 1) =~= it.seq().take(it.index()).push(ch));
        v.push(ch);
    }
    assert(v@ =~= s@);
    v
}

impl WplFormatter {
    /// Formats the characters `chars`, copying the separator blocks given by
    /// `ranges` verbatim; `tree_ok` tells whether the text's structure was
    /// recognised, which lets a closing bracket without opener be placed by
    /// inferred indentation instead of being an error.
    pub fn format_chars(&self, chars: &Vec<char>, ranges: &Vec<(usize, usize)>, tree_ok: bool) -> (r:
        Result<String, WplFormatError>)
        requires
            ranges_well_formed(ranges@, chars.len() as int),
        ensures
            text_result(r) == format_chars_result(chars@, ranges@, tree_ok, self.indent_width()),
    {
        let names = raw_func_name_list();
        let mut st = Cursor {
            pos: 0,
            out: Vec::new(),
            stack: Vec::new(),
            indent: 0,
            sol: true,
            line: 1,
        };
        let ghost unit = self.indent as nat;
        assert(st.state() == initial_state());
        while st.pos < chars.len()
            invariant
                st.wf(),
                st.pos <= chars.len(),
                unit == self.indent as nat,
                ranges_well_formed(ranges@, chars.len() as int),
                names.deep_view() == raw_func_names(),
                run_machine(chars@, ranges@, tree_ok, unit, st.state()) == run_machine(
                    chars@,
                    ranges@,
                    tree_ok,
                    unit,
                    initial_state(),
                ),
            decreases chars.len() - st.pos,
        {
            match self.step_at(chars, ranges, tree_ok, &names, &mut st) {
                Ok(()) => {},
                Err(e) => {
                    return Err(e);
                },
            }
        }
        if let Some(open) = st.stack.pop() {
            let close = if open == '{' {
                '}'
            } else {
                ')'
            };
            return Err(WplFormatError::UnclosedBracket { open, close, line: st.line });
        }
        let fin = finish(&st.out);
        Ok(string_from_chars(&fin))
    }

    fn format_inner(&self, content: &str) -> (r: Result<String, WplFormatError>)
        ensures
            text_result(r) == format_text(content@, self.indent_width()),
    {
        let chars = chars_of(content);
        let normalized = normalize_line_endings(&chars);
        let (separator_ranges, ts_ok) = crate::tree::collect_separator_ranges(&normalized);
        self.format_chars(&normalized, &separator_ranges, ts_ok)
    }
}

/// Formats `content` with four spaces per indentation level.
pub fn format(content: &str) -> (r: Result<String, WplFormatError>)
    ensures
        text_result(r) == format_text(content@, 4),
{
    WplFormatter::new().format(content)
}

/// Formats `content` with `indent` spaces per indentation level (at least one).
pub fn format_with_indent(content: &str, indent: usize) -> (r: Result<String, WplFormatError>)
    ensures
        text_result(r) == format_text(
            content@,
            if indent >= 1 {
                indent as nat
            } else {
                1
            },
        ),
{
    WplFormatter::with_indent(indent).format(content)
}

/// Formats `content` with four spaces per indentation level, or gives it
/// back unchanged when it cannot be formatted.
pub fn format_or_original(content: &str) -> (r: String)
    ensures
        r@ == or_original(format_text(content@, 4), content@),
{
    WplFormatter::new().format_or_original(content)
}

impl WplFormatter {
    /// A formatter with four spaces per indentation level.
    pub fn new() -> (r: Self)
        ensures
            r.indent_width() == 4,
    {
        WplFormatter { indent: 4 }
    }

    /// A formatter with `indent` spaces per indentation level (at least one).
    pub fn with_indent(indent: usize) -> (r: Self)
        ensures
            r.indent_width() == if indent >= 1 {
                indent as nat
            } else {
                1
            },
    {
        WplFormatter { indent: if indent >= 1 { indent } else { 1 } }
    }

    /// Formats `content`.
    pub fn format(&self, content: &str) -> (r: Result<String, WplFormatError>)
        ensures
            text_result(r) == format_text(content@, self.indent_width()),
    {
        self.format_inner(content)
    }

    /// Formats `content`, or gives it back unchanged when it cannot be
    /// formatted.
    pub fn format_or_original(&self, content: &str) -> (r: String)
        ensures
            r@ == or_original(format_text(content@, self.indent_width()), content@),
    {
        match self.format(content) {
            Ok(value) => value,
            Err(_) => String::from_str(content),
        }
    }
}

impl Default for WplFormatter {
    fn default() -> (r: Self)
        ensures
            r.indent_width() == 4,
    {
        Self::new()
    }
}

} // verus!
