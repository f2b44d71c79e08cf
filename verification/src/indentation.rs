//! How the indentation width shows in the formatted text: only in the spaces
//! that begin its lines. Two widths give the same outcome once those spaces
//! are removed.
use vstd::prelude::*;
use crate::formatter::{
    FmtState, Step, step, step_quote, step_annotation, step_space, step_close, step_paren,
    step_pipe, run_machine, format_chars_result, format_text, initial_state, lead_in, copied,
    copied_block, wrote_char, opened, closed, lemma_range_at_bounds,
    lemma_end_of_range_starting,
};
use crate::lines::{
    split_lines, tidy_lines, kept_line, drop_extra_newlines, finish_output, normalize_newlines,
    join_words,
};
use crate::scan::{
    lemma_quote_end, lemma_raw_string_result, lemma_bracket_end, lemma_call_end,
    string_literal_end, quote_end, bracket_end, peek_end, call_end,
    raw_string_result, first_call_at,
};
use crate::text::{is_white_space, is_blank, trim, trim_end, lemma_trim_end_blank, indent_pad, spaces};
use crate::tree::{
    range_at, ranges_well_formed, separator_block_end, separator_blocks_from, closing_indent,
    lemma_separator_blocks_well_formed,
};

verus! {

/// The end of `s` is at the start of a line, spaces aside: `s` is empty or
/// only spaces follow its last line break (or its beginning).
pub open spec fn at_line_start(s: Seq<char>) -> bool
    decreases s.len(),
{
    if s.len() == 0 {
        true
    } else if s.last() == '\n' {
        true
    } else if s.last() == ' ' {
        at_line_start(s.drop_last())
    } else {
        false
    }
}

/// `s` without the spaces (U+0020) that begin each of its lines.
pub open spec fn unindent(s: Seq<char>) -> Seq<char>
    decreases s.len(),
{
    if s.len() == 0 {
        Seq::empty()
    } else if s.last() == ' ' && at_line_start(s.drop_last()) {
        unindent(s.drop_last())
    } else {
        unindent(s.drop_last()).push(s.last())
    }
}

/// Text appended to texts with the same unindented form and the same
/// position within a line keeps them so.
pub proof fn lemma_unindent_append(x: Seq<char>, y: Seq<char>, t: Seq<char>)
    requires
        unindent(x) == unindent(y),
        at_line_start(x) == at_line_start(y),
    ensures
        unindent(x + t) == unindent(y + t),
        at_line_start(x + t) == at_line_start(y + t),
    decreases t.len(),
{
    if t.len() == 0 {
        assert(x + t =~= x);
        assert(y + t =~= y);
    } else {
        lemma_unindent_append(x, y, t.drop_last());
        assert((x + t).drop_last() =~= x + t.drop_last());
        assert((y + t).drop_last() =~= y + t.drop_last());
        assert((x + t).last() == t.last());
        assert((y + t).last() == t.last());
    }
}

/// Spaces written at the start of a line vanish when unindenting.
pub proof fn lemma_unindent_spaces(x: Seq<char>, t: Seq<char>)
    requires
        at_line_start(x),
        forall|k: int| 0 <= k < t.len() ==> #[trigger] t[k] == ' ',
    ensures
        unindent(x + t) == unindent(x),
        at_line_start(x + t),
    decreases t.len(),
{
    if t.len() == 0 {
        assert(x + t =~= x);
    } else {
        let t0 = t.drop_last();
        assert forall|k: int| 0 <= k < t0.len() implies #[trigger] t0[k] == ' ' by {
            assert(t0[k] == t[k]);
        }
        lemma_unindent_spaces(x, t0);
        assert((x + t).drop_last() =~= x + t0);
        assert((x + t).last() == t[t.len() - 1]);
    }
}

/// Unindenting text that ends at the start of a line, followed by more text.
pub proof fn lemma_unindent_concat(x: Seq<char>, y: Seq<char>)
    requires
        at_line_start(x),
    ensures
        unindent(x + y) == unindent(x) + unindent(y),
        at_line_start(x + y) == at_line_start(y),
    decreases y.len(),
{
    if y.len() == 0 {
        assert(x + y =~= x);
        assert(unindent(x) + unindent(y) =~= unindent(x));
    } else {
        lemma_unindent_concat(x, y.drop_last());
        assert((x + y).drop_last() =~= x + y.drop_last());
        assert((x + y).last() == y.last());
        assert(unindent(x + y) =~= unindent(x) + unindent(y));
    }
}

/// Away from the start of a line, the last character survives unindenting.
pub proof fn lemma_unindent_last(x: Seq<char>)
    requires
        !at_line_start(x),
    ensures
        x.len() > 0,
        x.last() != '\n',
        unindent(x).len() > 0,
        unindent(x).last() == x.last(),
{
}

/// Text ending in a line break is at the start of a line.
pub proof fn lemma_newline_at_line_start(x: Seq<char>)
    requires
        x.len() > 0,
        x.last() == '\n',
    ensures
        at_line_start(x),
{
}

/// Unindenting commutes with removing trailing white space.
pub proof fn lemma_unindent_trim_end(s: Seq<char>)
    ensures
        unindent(trim_end(s)) == trim_end(unindent(s)),
    decreases s.len(),
{
    if s.len() > 0 {
        let s0 = s.drop_last();
        let ch = s.last();
        lemma_unindent_trim_end(s0);
        if is_white_space(ch) {
            if !(ch == ' ' && at_line_start(s0)) {
                let u = unindent(s0).push(ch);
                assert(u.drop_last() =~= unindent(s0));
            }
        } else {
            assert(unindent(s).last() == ch);
        }
    }
}

/// Unindenting keeps whether a text is blank.
pub proof fn lemma_unindent_blank(s: Seq<char>)
    ensures
        is_blank(unindent(s)) == is_blank(s),
    decreases s.len(),
{
    if s.len() > 0 {
        let s0 = s.drop_last();
        let ch = s.last();
        lemma_unindent_blank(s0);
        let u0 = unindent(s0);
        assert(is_blank(s) == (is_blank(s0) && is_white_space(ch))) by {
            if is_blank(s0) && is_white_space(ch) {
                assert forall|k: int| 0 <= k < s.len() implies is_white_space(#[trigger] s[k]) by {
                    if k < s0.len() {
                        assert(s[k] == s0[k]);
                    }
                }
            }
            if is_blank(s) {
                assert(is_white_space(s[s.len() - 1]));
                assert forall|k: int| 0 <= k < s0.len() implies is_white_space(#[trigger] s0[k]) by {
                    assert(s[k] == s0[k]);
                }
            }
        }
        if !(ch == ' ' && at_line_start(s0)) {
            let u = u0.push(ch);
            assert(is_blank(u) == (is_blank(u0) && is_white_space(ch))) by {
                if is_blank(u0) && is_white_space(ch) {
                    assert forall|k: int| 0 <= k < u.len() implies is_white_space(#[trigger] u[k]) by {
                        if k < u0.len() {
                            assert(u[k] == u0[k]);
                        }
                    }
                }
                if is_blank(u) {
                    assert(is_white_space(u[u.len() - 1]));
                    assert forall|k: int| 0 <= k < u0.len() implies is_white_space(#[trigger] u0[k]) by {
                        assert(u[k] == u0[k]);
                    }
                }
            }
        } else {
            assert(is_white_space(ch));
        }
    }
}

/// Unindenting a text unindents each of its lines.
proof fn lemma_unindent_split(t: Seq<char>)
    ensures
        split_lines(unindent(t)) == split_lines(t).map_values(|l: Seq<char>| unindent(l)),
        at_line_start(t) == at_line_start(split_lines(t).last()),
    decreases t.len(),
{
    crate::lines::lemma_split_lines_nonempty(t);
    if t.len() == 0 {
        assert(split_lines(t).map_values(|l: Seq<char>| unindent(l)) =~= seq![Seq::<char>::empty()]);
    } else {
        let t0 = t.drop_last();
        let ch = t.last();
        lemma_unindent_split(t0);
        crate::lines::lemma_split_lines_nonempty(t0);
        let ls = split_lines(t0);
        let m = ls.map_values(|l: Seq<char>| unindent(l));
        let last = ls.last();
        assert(m.last() == unindent(last));
        if ch == '\n' {
            assert(unindent(t) == unindent(t0).push('\n'));
            let u = unindent(t);
            assert(u.drop_last() =~= unindent(t0));
            assert(split_lines(u) == m.push(Seq::<char>::empty()));
            assert(split_lines(t) == ls.push(Seq::<char>::empty()));
            assert(ls.push(Seq::<char>::empty()).map_values(|l: Seq<char>| unindent(l)) =~= m.push(
                Seq::<char>::empty(),
            ));
        } else {
            let ls2 = ls.update(ls.len() - 1, last.push(ch));
            assert(split_lines(t) == ls2);
            assert(last.push(ch).drop_last() =~= last);
            assert(ls2.last() == last.push(ch));
            if ch == ' ' && at_line_start(t0) {
                assert(unindent(t) == unindent(t0));
                assert(unindent(last.push(ch)) == unindent(last));
                assert(ls2.map_values(|l: Seq<char>| unindent(l)) =~= m);
            } else {
                let u = unindent(t);
                assert(u == unindent(t0).push(ch));
                assert(u.drop_last() =~= unindent(t0));
                assert(unindent(last.push(ch)) == unindent(last).push(ch));
                assert(split_lines(u) == m.update(m.len() - 1, m.last().push(ch)));
                assert(ls2.map_values(|l: Seq<char>| unindent(l)) =~= m.update(
                    m.len() - 1,
                    unindent(last).push(ch),
                ));
            }
        }
    }
}

/// Tidying unindented lines gives the unindented tidy text, which ends at
/// the start of a line.
proof fn lemma_unindent_tidy(ls: Seq<Seq<char>>)
    ensures
        tidy_lines(ls.map_values(|l: Seq<char>| unindent(l))) == unindent(tidy_lines(ls)),
        at_line_start(tidy_lines(ls)),
    decreases ls.len(),
{
    let m = ls.map_values(|l: Seq<char>| unindent(l));
    if ls.len() > 0 {
        let n = ls.len();
        let prev = ls.drop_last();
        lemma_unindent_tidy(prev);
        assert(m.drop_last() =~= prev.map_values(|l: Seq<char>| unindent(l)));
        let l = ls[n - 1];
        lemma_unindent_blank(l);
        if n > 1 {
            lemma_unindent_blank(ls[n - 2]);
        }
        let kept = kept_line(ls, n - 1);
        assert(m[n - 1] == unindent(l));
        if n > 1 {
            assert(m[n - 2] == unindent(ls[n - 2]));
        }
        if is_blank(l) && n > 1 && is_blank(ls[n - 2]) {
            assert(kept_line(m, n - 1) == unindent(kept));
        } else {
            let te = trim_end(l);
            lemma_unindent_trim_end(l);
            assert(kept == te.push('\n'));
            assert(te.push('\n').drop_last() =~= te);
            assert(unindent(te.push('\n')) == unindent(te).push('\n'));
            assert(kept_line(m, n - 1) == unindent(kept));
        }
        lemma_unindent_concat(tidy_lines(prev), kept);
        if kept.len() > 0 {
            lemma_newline_at_line_start(kept);
        } else {
            assert(tidy_lines(prev) + kept =~= tidy_lines(prev));
        }
    } else {
        assert(m.len() == 0);
    }
}

/// When the text has something besides trailing white space, its final
/// shape is the tidying of its lines.
proof fn lemma_finish_is_tidy(out: Seq<char>)
    requires
        trim_end(out).len() > 0,
    ensures
        finish_output(out) == tidy_lines(split_lines(trim_end(out))),
{
    let t = trim_end(out);
    lemma_trim_end_blank(out);
    crate::laws::lemma_tidy_ends(t);
}

/// Unindenting commutes with the final tidying of the output.
pub proof fn lemma_unindent_finish(out: Seq<char>)
    ensures
        unindent(finish_output(out)) == finish_output(unindent(out)),
{
    let t = trim_end(out);
    lemma_unindent_trim_end(out);
    lemma_trim_end_blank(out);
    let tu = trim_end(unindent(out));
    assert(tu == unindent(t));
    if t.len() == 0 {
        assert(unindent(t) =~= Seq::<char>::empty());
        assert(drop_extra_newlines(Seq::<char>::empty()) == Seq::<char>::empty());
    } else {
        assert(!is_white_space(t.last()));
        assert(unindent(t).last() == t.last());
        lemma_finish_is_tidy(out);
        lemma_finish_is_tidy(unindent(out));
        lemma_unindent_split(t);
        lemma_unindent_tidy(split_lines(t));
    }
}

/// Two states of the walk that differ at most in indentation: the same
/// position, open brackets, input line and line-start flag, and outputs
/// that are equal once unindented and end alike.
pub open spec fn same_but_indent(a: FmtState, b: FmtState) -> bool {
    &&& a.pos == b.pos
    &&& a.stack == b.stack
    &&& a.sol == b.sol
    &&& a.line == b.line
    &&& unindent(a.out) == unindent(b.out)
    &&& at_line_start(a.out) == at_line_start(b.out)
    &&& a.sol ==> at_line_start(a.out)
    &&& !a.sol ==> a.out.len() > 0 && b.out.len() > 0
}

pub proof fn lemma_pad_spaces(count: nat, unit: nat)
    ensures
        forall|k: int|
            0 <= k < indent_pad(count, unit).len() ==> #[trigger] indent_pad(count, unit)[k] == ' ',
    decreases count,
{
    if count > 0 {
        lemma_pad_spaces((count - 1) as nat, unit);
        let a = indent_pad((count - 1) as nat, unit);
        let b = spaces(unit);
        assert forall|k: int| 0 <= k < (a + b).len() implies #[trigger] (a + b)[k] == ' ' by {
            if k < a.len() {
                assert((a + b)[k] == a[k]);
            } else {
                assert((a + b)[k] == b[k - a.len()]);
            }
        }
    }
}

/// Writing `t` after the indentation of each state.
proof fn lemma_lead(a: FmtState, b: FmtState, ua: nat, ub: nat, t: Seq<char>)
    requires
        same_but_indent(a, b),
    ensures
        unindent(a.out + lead_in(a, ua) + t) == unindent(b.out + lead_in(b, ub) + t),
        at_line_start(a.out + lead_in(a, ua) + t) == at_line_start(b.out + lead_in(b, ub) + t),
        t.len() > 0 ==> (a.out + lead_in(a, ua) + t).len() > 0 && (b.out + lead_in(b, ub)
            + t).len() > 0,
        t.len() > 0 ==> (a.out + lead_in(a, ua) + t).last() == t.last() && (b.out + lead_in(
            b,
            ub,
        ) + t).last() == t.last(),
{
    if a.sol {
        lemma_pad_spaces(a.indent, ua);
        lemma_pad_spaces(b.indent, ub);
        lemma_unindent_spaces(a.out, lead_in(a, ua));
        lemma_unindent_spaces(b.out, lead_in(b, ub));
    } else {
        assert(a.out + lead_in(a, ua) =~= a.out);
        assert(b.out + lead_in(b, ub) =~= b.out);
    }
    lemma_unindent_append(a.out + lead_in(a, ua), b.out + lead_in(b, ub), t);
}

proof fn lemma_copied(
    a: FmtState,
    b: FmtState,
    ua: nat,
    ub: nat,
    text: Seq<char>,
    to: int,
    sol_after: bool,
)
    requires
        same_but_indent(a, b),
        text.len() > 0,
        sol_after ==> text.last() == '\n',
    ensures
        same_but_indent(copied(a, text, to, sol_after, ua), copied(b, text, to, sol_after, ub)),
{
    lemma_lead(a, b, ua, ub, text);
    if sol_after {
        lemma_newline_at_line_start(a.out + lead_in(a, ua) + text);
        lemma_newline_at_line_start(b.out + lead_in(b, ub) + text);
    }
}

proof fn lemma_copied_block(a: FmtState, b: FmtState, ua: nat, ub: nat, c: Seq<char>, from: int, to: int)
    requires
        same_but_indent(a, b),
        0 <= from < to <= c.len(),
    ensures
        same_but_indent(copied_block(a, c, from, to, ua), copied_block(b, c, from, to, ub)),
{
    let text = c.subrange(from, to);
    lemma_copied(a, b, ua, ub, text, to, text.len() > 0 && text.last() == '\n');
}

proof fn lemma_wrote(a: FmtState, b: FmtState, ua: nat, ub: nat, ch: char)
    requires
        same_but_indent(a, b),
    ensures
        same_but_indent(wrote_char(a, ch, ua), wrote_char(b, ch, ub)),
{
    lemma_lead(a, b, ua, ub, seq![ch]);
}

proof fn lemma_opened(a: FmtState, b: FmtState, ua: nat, ub: nat, ch: char)
    requires
        same_but_indent(a, b),
    ensures
        same_but_indent(opened(a, ch, ua), opened(b, ch, ub)),
{
    lemma_lead(a, b, ua, ub, seq![ch, '\n']);
    lemma_newline_at_line_start(a.out + lead_in(a, ua) + seq![ch, '\n']);
    lemma_newline_at_line_start(b.out + lead_in(b, ub) + seq![ch, '\n']);
}

proof fn lemma_closed(
    a: FmtState,
    b: FmtState,
    ua: nat,
    ub: nat,
    stack: Seq<char>,
    ia: nat,
    ib: nat,
    cl: char,
)
    requires
        same_but_indent(a, b),
    ensures
        same_but_indent(closed(a, stack, ia, cl, ua), closed(b, stack, ib, cl, ub)),
{
    let oa = if a.sol {
        a.out
    } else {
        a.out.push('\n')
    };
    let ob = if b.sol {
        b.out
    } else {
        b.out.push('\n')
    };
    if !a.sol {
        assert(a.out.push('\n') =~= a.out + seq!['\n']);
        assert(b.out.push('\n') =~= b.out + seq!['\n']);
        lemma_unindent_append(a.out, b.out, seq!['\n']);
        lemma_newline_at_line_start(oa);
        lemma_newline_at_line_start(ob);
    }
    let pa = indent_pad(ia, ua);
    let pb = indent_pad(ib, ub);
    lemma_pad_spaces(ia, ua);
    lemma_pad_spaces(ib, ub);
    lemma_unindent_spaces(oa, pa);
    lemma_unindent_spaces(ob, pb);
    let tail = if cl == '}' {
        seq!['}', '\n']
    } else {
        seq![cl]
    };
    lemma_unindent_append(oa + pa, ob + pb, tail);
    assert((oa + pa + tail).last() == tail.last());
    assert((ob + pb + tail).last() == tail.last());
    if cl == '}' {
        lemma_newline_at_line_start(oa + pa + tail);
        lemma_newline_at_line_start(ob + pb + tail);
    }
}

/// Outcomes of a step that agree up to indentation.
pub open spec fn steps_agree(x: Step, y: Step) -> bool {
    match (x, y) {
        (Step::Next(s), Step::Next(t)) => same_but_indent(s, t),
        (Step::Fail(e1), Step::Fail(e2)) => e1 == e2,
        _ => false,
    }
}

proof fn lemma_step_quote_indent(c: Seq<char>, a: FmtState, b: FmtState, ua: nat, ub: nat)
    requires
        same_but_indent(a, b),
        0 <= a.pos < c.len(),
        c[a.pos] == '"',
    ensures
        steps_agree(step_quote(c, a, ua), step_quote(c, b, ub)),
{
    let p = a.pos;
    lemma_quote_end(c, p + 1, false);
    lemma_lead(a, b, ua, ub, seq!['"']);
    assert(string_literal_end(c, p) == quote_end(c, p + 1, false));
    if let Some(e) = string_literal_end(c, p) {
        lemma_copied(a, b, ua, ub, c.subrange(p, e), e, false);
    }
}

proof fn lemma_step_annotation_indent(c: Seq<char>, a: FmtState, b: FmtState, ua: nat, ub: nat)
    requires
        same_but_indent(a, b),
        0 <= a.pos < c.len(),
    ensures
        steps_agree(step_annotation(c, a, ua), step_annotation(c, b, ub)),
{
    let p = a.pos;
    if let Some(e) = bracket_end(c, p, '[', ']', 0) {
        let t = join_words(c.subrange(p, e)) + seq!['\n'];
        lemma_lead(a, b, ua, ub, t);
        assert(a.out + lead_in(a, ua) + join_words(c.subrange(p, e)) + seq!['\n'] =~= a.out
            + lead_in(a, ua) + t);
        assert(b.out + lead_in(b, ub) + join_words(c.subrange(p, e)) + seq!['\n'] =~= b.out
            + lead_in(b, ub) + t);
        lemma_newline_at_line_start(a.out + lead_in(a, ua) + t);
        lemma_newline_at_line_start(b.out + lead_in(b, ub) + t);
    }
}

proof fn lemma_step_close_indent(
    c: Seq<char>,
    tree_ok: bool,
    a: FmtState,
    b: FmtState,
    ua: nat,
    ub: nat,
    cl: char,
)
    requires
        same_but_indent(a, b),
    ensures
        steps_agree(step_close(c, tree_ok, ua, a, cl), step_close(c, tree_ok, ub, b, cl)),
{
    if a.stack.len() > 0 {
        let ia: nat = if a.indent > 0 {
            (a.indent - 1) as nat
        } else {
            0
        };
        let ib: nat = if b.indent > 0 {
            (b.indent - 1) as nat
        } else {
            0
        };
        lemma_closed(a, b, ua, ub, a.stack.drop_last(), ia, ib, cl);
    } else if tree_ok {
        lemma_closed(
            a,
            b,
            ua,
            ub,
            a.stack,
            closing_indent(a.out, ua as int) as nat,
            closing_indent(b.out, ub as int) as nat,
            cl,
        );
    }
}

proof fn lemma_step_paren_indent(c: Seq<char>, a: FmtState, b: FmtState, ua: nat, ub: nat)
    requires
        same_but_indent(a, b),
        0 <= a.pos < c.len(),
    ensures
        steps_agree(step_paren(c, ua, a), step_paren(c, ub, b)),
{
    let p = a.pos;
    let pk = peek_end(c, p, '(', ')', 0, false, false);
    if pk is Some && !c.subrange(p + 1, pk->0 - 1).contains(',') && !c.subrange(
        p + 1,
        pk->0 - 1,
    ).contains('|') {
        let e = pk->0;
        let t = seq!['('] + trim(c.subrange(p + 1, e - 1)) + seq![')'];
        lemma_lead(a, b, ua, ub, t);
        assert(a.out + lead_in(a, ua) + seq!['('] + trim(c.subrange(p + 1, e - 1)) + seq![')']
            =~= a.out + lead_in(a, ua) + t);
        assert(b.out + lead_in(b, ub) + seq!['('] + trim(c.subrange(p + 1, e - 1)) + seq![')']
            =~= b.out + lead_in(b, ub) + t);
    } else {
        lemma_opened(a, b, ua, ub, '(');
    }
}

proof fn lemma_step_pipe_indent(c: Seq<char>, a: FmtState, b: FmtState, ua: nat, ub: nat)
    requires
        same_but_indent(a, b),
        0 <= a.pos < c.len(),
    ensures
        same_but_indent(step_pipe(c, ua, a), step_pipe(c, ub, b)),
{
    let oa = a.out + lead_in(a, ua);
    let ob = b.out + lead_in(b, ub);
    let sa = !a.sol && !(oa.len() > 0 && (oa.last() == ' ' || oa.last() == '\n'));
    let sb = !b.sol && !(ob.len() > 0 && (ob.last() == ' ' || ob.last() == '\n'));
    if !a.sol {
        assert(oa =~= a.out);
        assert(ob =~= b.out);
        if !at_line_start(a.out) {
            lemma_unindent_last(a.out);
            lemma_unindent_last(b.out);
        }
    }
    assert(sa == sb);
    let sp: Seq<char> = if sa {
        seq![' ']
    } else {
        Seq::empty()
    };
    let t = sp + seq!['|', ' '];
    lemma_lead(a, b, ua, ub, t);
    assert(oa + sp + seq!['|', ' '] =~= a.out + lead_in(a, ua) + t);
    assert(ob + sp + seq!['|', ' '] =~= b.out + lead_in(b, ub) + t);
}

proof fn lemma_step_indent(
    c: Seq<char>,
    r: Seq<(usize, usize)>,
    tree_ok: bool,
    ua: nat,
    ub: nat,
    a: FmtState,
    b: FmtState,
)
    requires
        same_but_indent(a, b),
        0 <= a.pos < c.len(),
        ranges_well_formed(r, c.len() as int),
    ensures
        steps_agree(step(c, r, tree_ok, ua, a), step(c, r, tree_ok, ub, b)),
{
    let p = a.pos;
    let ch = c[p];
    lemma_range_at_bounds(r, c.len() as int, p);
    if range_at(r, p) is Some {
        let (rs, re) = range_at(r, p)->0;
        lemma_copied_block(a, b, ua, ub, c, p, re as int);
    } else if ch == '"' {
        lemma_step_quote_indent(c, a, b, ua, ub);
    } else if ch == 'r' && p + 1 < c.len() && c[p + 1] == '#' {
        lemma_raw_string_result(c, p, a.line);
        if let Ok(e) = raw_string_result(c, p, a.line) {
            lemma_copied(a, b, ua, ub, c.subrange(p, e), e, false);
        }
    } else if ch == '#' && p + 1 < c.len() && c[p + 1] == '[' {
        lemma_step_annotation_indent(c, a, b, ua, ub);
    } else if ch == '<' {
        lemma_bracket_end(c, p, '<', '>', 0);
        if let Some(e) = bracket_end(c, p, '<', '>', 0) {
            lemma_copied(a, b, ua, ub, c.subrange(p, e), e, false);
        }
    } else if is_white_space(ch) {
        let x = step_space(c, a);
        let y = step_space(c, b);
        if !a.sol {
            let nc = if ch == '\n' {
                '\n'
            } else {
                ' '
            };
            assert(a.out.push(nc) =~= a.out + seq![nc]);
            assert(b.out.push(nc) =~= b.out + seq![nc]);
            lemma_unindent_append(a.out, b.out, seq![nc]);
            if ch == '\n' {
                lemma_newline_at_line_start(a.out.push(nc));
                lemma_newline_at_line_start(b.out.push(nc));
            }
        }
        assert(same_but_indent(x, y));
    } else if first_call_at(c, p, crate::formatter::raw_func_names(), 0) is Some && call_end(
        c,
        p,
        0,
        false,
        false,
    ) is Some {
        lemma_call_end(c, p, 0, false, false);
        let e = call_end(c, p, 0, false, false)->0;
        lemma_copied(a, b, ua, ub, c.subrange(p, e), e, false);
    } else if p > 0 && c[p - 1] == '\\' && crate::formatter::is_escapable(ch) {
        lemma_wrote(a, b, ua, ub, ch);
    } else if ch == '{' {
        lemma_end_of_range_starting(r, c.len() as int, p, 0);
        if separator_block_end(c, p, r) is Some {
            lemma_copied_block(a, b, ua, ub, c, p, separator_block_end(c, p, r)->0);
        } else {
            lemma_opened(a, b, ua, ub, '{');
        }
    } else if ch == '}' || ch == ')' {
        lemma_step_close_indent(c, tree_ok, a, b, ua, ub, ch);
    } else if ch == '(' {
        lemma_step_paren_indent(c, a, b, ua, ub);
    } else if ch == ',' {
        lemma_unindent_append(a.out, b.out, seq![',', '\n']);
        lemma_newline_at_line_start(a.out + seq![',', '\n']);
        lemma_newline_at_line_start(b.out + seq![',', '\n']);
    } else if ch == '|' {
        lemma_step_pipe_indent(c, a, b, ua, ub);
    } else {
        lemma_wrote(a, b, ua, ub, ch);
    }
}

proof fn lemma_run_indent(
    c: Seq<char>,
    r: Seq<(usize, usize)>,
    tree_ok: bool,
    ua: nat,
    ub: nat,
    a: FmtState,
    b: FmtState,
)
    requires
        same_but_indent(a, b),
        0 <= a.pos,
        ranges_well_formed(r, c.len() as int),
    ensures
        match (run_machine(c, r, tree_ok, ua, a), run_machine(c, r, tree_ok, ub, b)) {
            (Ok(x), Ok(y)) => same_but_indent(x, y),
            (Err(e1), Err(e2)) => e1 == e2,
            _ => false,
        },
    decreases c.len() - a.pos,
{
    if a.pos < c.len() {
        lemma_step_indent(c, r, tree_ok, ua, ub, a, b);
        if let Step::Next(x) = step(c, r, tree_ok, ua, a) {
            if let Step::Next(y) = step(c, r, tree_ok, ub, b) {
                if a.pos < x.pos <= c.len() {
                    lemma_run_indent(c, r, tree_ok, ua, ub, x, y);
                }
            }
        }
    }
}

/// Formatting characters with two indentation units gives the same outcome
/// up to the spaces that begin each line: both fail with the same error, or
/// both succeed with texts that are equal once the spaces at the start of
/// every line are removed.
pub proof fn law_format_chars_indent_only_leading_spaces(
    c: Seq<char>,
    r: Seq<(usize, usize)>,
    tree_ok: bool,
    ua: nat,
    ub: nat,
)
    requires
        ranges_well_formed(r, c.len() as int),
    ensures
        match (format_chars_result(c, r, tree_ok, ua), format_chars_result(c, r, tree_ok, ub)) {
            (Ok(x), Ok(y)) => unindent(x) == unindent(y),
            (Err(e1), Err(e2)) => e1 == e2,
            _ => false,
        },
{
    let s0 = initial_state();
    assert(at_line_start(s0.out));
    lemma_run_indent(c, r, tree_ok, ua, ub, s0, s0);
    if let Ok(x) = run_machine(c, r, tree_ok, ua, s0) {
        if let Ok(y) = run_machine(c, r, tree_ok, ub, s0) {
            lemma_unindent_finish(x.out);
            lemma_unindent_finish(y.out);
        }
    }
}

/// Formatting WPL text with two indentation widths gives the same outcome
/// up to the spaces that begin each line: both fail with the same error, or
/// both succeed with texts that have the same lines once the spaces at the
/// start of every line are removed.
pub proof fn law_format_indent_only_leading_spaces(content: Seq<char>, ua: nat, ub: nat)
    requires
        content.len() <= usize::MAX,
    ensures
        match (format_text(content, ua), format_text(content, ub)) {
            (Ok(x), Ok(y)) => unindent(x) == unindent(y),
            (Err(e1), Err(e2)) => e1 == e2,
            _ => false,
        },
{
    let c = normalize_newlines(content);
    crate::laws::lemma_normalized_len(content, content.len() as int);
    lemma_separator_blocks_well_formed(c);
    law_format_chars_indent_only_leading_spaces(c, separator_blocks_from(c, 0), true, ua, ub);
}

} // verus!
