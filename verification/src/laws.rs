//! Properties of the formatter that hold for every input.
use vstd::prelude::*;
use crate::error::WplFormatError;
use crate::formatter::{
    FmtState, Step, step, step_quote, step_annotation, step_space, step_close, step_paren,
    step_pipe, run_machine, format_chars_result, format_text, initial_state, lead_in, copied,
    copied_block, wrote_char, opened, closed, raw_func_names, lemma_range_at_bounds,
    lemma_end_of_range_starting,
};
use crate::lines::{
    normalize_newlines, normalized_prefix, normalized_piece, squeeze, join_words, split_lines,
    tidy_lines, kept_line, drop_extra_newlines, finish_output, lemma_split_lines_nonempty,
};
use crate::scan::{
    lemma_quote_end, lemma_first_non_white, lemma_raw_string_result, lemma_bracket_end,
    lemma_peek_end, lemma_call_end, first_non_white, string_literal_end, quote_end, bracket_end,
    peek_end, call_end, raw_string_result, first_call_at,
};
use crate::text::{
    is_white_space, is_blank, trim, trim_end, trim_start, indent_pad, spaces,
    lemma_trim_end_blank,
};
use crate::tree::{
    range_at, ranges_well_formed, separator_block_end, separator_blocks_from,
    lemma_separator_blocks_well_formed,
};

verus! {

/// The characters of `s` that are not white space, in order.
pub open spec fn non_white(s: Seq<char>) -> Seq<char>
    decreases s.len(),
{
    if s.len() == 0 {
        Seq::empty()
    } else {
        non_white(s.drop_last()) + if is_white_space(s.last()) {
            Seq::<char>::empty()
        } else {
            seq![s.last()]
        }
    }
}

pub proof fn lemma_non_white_append(a: Seq<char>, b: Seq<char>)
    ensures
        non_white(a + b) == non_white(a) + non_white(b),
    decreases b.len(),
{
    if b.len() == 0 {
        assert(a + b =~= a);
        assert(non_white(a) + non_white(b) =~= non_white(a));
    } else {
        lemma_non_white_append(a, b.drop_last());
        assert((a + b).drop_last() =~= a + b.drop_last());
        assert((a + b).last() == b.last());
        assert(non_white(a + b) =~= non_white(a) + non_white(b));
    }
}

pub proof fn lemma_non_white_blank(s: Seq<char>)
    requires
        is_blank(s),
    ensures
        non_white(s) == Seq::<char>::empty(),
    decreases s.len(),
{
    if s.len() > 0 {
        assert forall|k: int| 0 <= k < s.drop_last().len() implies is_white_space(
            #[trigger] s.drop_last()[k],
        ) by {
            assert(s.drop_last()[k] == s[k]);
        }
        lemma_non_white_blank(s.drop_last());
        assert(is_white_space(s[s.len() - 1]));
        assert(non_white(s) =~= Seq::<char>::empty());
    }
}

pub proof fn lemma_non_white_single(ch: char)
    ensures
        non_white(seq![ch]) == if is_white_space(ch) {
            Seq::<char>::empty()
        } else {
            seq![ch]
        },
{
    let e = seq![ch].drop_last();
    assert(e.len() == 0);
    assert(non_white(e) == Seq::<char>::empty());
    assert(seq![ch].last() == ch);
    assert(non_white(seq![ch]) =~= if is_white_space(ch) {
        Seq::<char>::empty()
    } else {
        seq![ch]
    });
}

proof fn lemma_indent_pad_blank(count: nat, unit: nat)
    ensures
        is_blank(indent_pad(count, unit)),
    decreases count,
{
    if count > 0 {
        lemma_indent_pad_blank((count - 1) as nat, unit);
        let a = indent_pad((count - 1) as nat, unit);
        let b = spaces(unit);
        assert forall|k: int| 0 <= k < (a + b).len() implies is_white_space(#[trigger] (a + b)[k]) by {
            if k < a.len() {
                assert((a + b)[k] == a[k]);
            } else {
                assert((a + b)[k] == b[k - a.len()]);
                assert(b[k - a.len()] == ' ');
            }
        }
    }
}

proof fn lemma_lead_in_blank(s: FmtState, unit: nat)
    ensures
        non_white(lead_in(s, unit)) == Seq::<char>::empty(),
{
    lemma_indent_pad_blank(s.indent, unit);
    if !s.sol {
        assert(is_blank(Seq::<char>::empty()));
    }
    lemma_non_white_blank(lead_in(s, unit));
}

pub proof fn lemma_non_white_trim_end(s: Seq<char>)
    ensures
        non_white(trim_end(s)) == non_white(s),
    decreases s.len(),
{
    if s.len() > 0 && is_white_space(s.last()) {
        lemma_non_white_trim_end(s.drop_last());
    }
}

proof fn lemma_non_white_trim_start(s: Seq<char>)
    ensures
        non_white(trim_start(s)) == non_white(s),
    decreases s.len(),
{
    if s.len() > 0 && is_white_space(s[0]) {
        lemma_non_white_trim_start(s.drop_first());
        assert(s =~= seq![s[0]] + s.drop_first());
        lemma_non_white_append(seq![s[0]], s.drop_first());
        lemma_non_white_single(s[0]);
        assert(non_white(s) =~= non_white(s.drop_first()));
    }
}

proof fn lemma_non_white_trim(s: Seq<char>)
    ensures
        non_white(trim(s)) == non_white(s),
{
    lemma_non_white_trim_end(s);
    lemma_non_white_trim_start(trim_end(s));
}

pub proof fn lemma_non_white_squeeze(s: Seq<char>)
    ensures
        non_white(squeeze(s).0) == non_white(s),
    decreases s.len(),
{
    if s.len() > 0 {
        lemma_non_white_squeeze(s.drop_last());
        let (o, pending) = squeeze(s.drop_last());
        let ch = s.last();
        lemma_non_white_single(ch);
        lemma_non_white_single(' ');
        if !is_white_space(ch) {
            if pending {
                lemma_non_white_append(o.push(' '), seq![ch]);
                lemma_non_white_append(o, seq![' ']);
                assert(o.push(' ') =~= o + seq![' ']);
                assert(o.push(' ').push(ch) =~= o.push(' ') + seq![ch]);
                assert(non_white(squeeze(s).0) =~= non_white(o) + seq![ch]);
            } else {
                lemma_non_white_append(o, seq![ch]);
                assert(o.push(ch) =~= o + seq![ch]);
                assert(non_white(squeeze(s).0) =~= non_white(o) + seq![ch]);
            }
            assert(non_white(s) =~= non_white(s.drop_last()) + seq![ch]);
        } else {
            assert(non_white(s) =~= non_white(s.drop_last()));
        }
    }
}

/// The non-white characters of the lines of `ls`, in order.
pub open spec fn non_white_lines(ls: Seq<Seq<char>>) -> Seq<char>
    decreases ls.len(),
{
    if ls.len() == 0 {
        Seq::empty()
    } else {
        non_white_lines(ls.drop_last()) + non_white(ls.last())
    }
}

proof fn lemma_non_white_tidy(ls: Seq<Seq<char>>)
    ensures
        non_white(tidy_lines(ls)) == non_white_lines(ls),
    decreases ls.len(),
{
    if ls.len() > 0 {
        lemma_non_white_tidy(ls.drop_last());
        let k = ls.len() - 1;
        let kept = kept_line(ls, k);
        lemma_non_white_append(tidy_lines(ls.drop_last()), kept);
        if is_blank(ls[k]) && k > 0 && is_blank(ls[k - 1]) {
            lemma_non_white_blank(ls[k]);
            assert(non_white(kept) =~= Seq::<char>::empty());
        } else {
            lemma_non_white_trim_end(ls[k]);
            lemma_non_white_append(trim_end(ls[k]), seq!['\n']);
            lemma_non_white_single('\n');
            assert(trim_end(ls[k]).push('\n') =~= trim_end(ls[k]) + seq!['\n']);
        }
        assert(non_white(tidy_lines(ls)) =~= non_white_lines(ls));
    }
}

proof fn lemma_non_white_split(t: Seq<char>)
    ensures
        non_white_lines(split_lines(t)) == non_white(t),
    decreases t.len(),
{
    if t.len() == 0 {
        let ls = split_lines(t);
        assert(ls.drop_last() =~= Seq::<Seq<char>>::empty());
        assert(non_white_lines(ls.drop_last()) == Seq::<char>::empty());
        assert(ls.last().len() == 0);
        assert(non_white(ls.last()) == Seq::<char>::empty());
        assert(non_white(t) == Seq::<char>::empty());
        assert(non_white_lines(ls) =~= Seq::<char>::empty());
    } else {
        let t1 = t.drop_last();
        lemma_non_white_split(t1);
        lemma_split_lines_nonempty(t1);
        let ls = split_lines(t1);
        let ch = t.last();
        if ch == '\n' {
            assert(split_lines(t).drop_last() =~= ls);
            assert(non_white_lines(split_lines(t)) =~= non_white_lines(ls));
            assert(non_white(t) =~= non_white(t1));
        } else {
            let l2 = ls.update(ls.len() - 1, ls.last().push(ch));
            assert(l2.drop_last() =~= ls.drop_last());
            lemma_non_white_append(ls.last(), seq![ch]);
            assert(ls.last().push(ch) =~= ls.last() + seq![ch]);
            lemma_non_white_single(ch);
            assert(l2.last() == ls.last().push(ch));
            assert(non_white_lines(l2) == non_white_lines(ls.drop_last()) + non_white(ls.last().push(ch)));
            assert(non_white_lines(ls) == non_white_lines(ls.drop_last()) + non_white(ls.last()));
            assert(non_white_lines(l2) =~= non_white_lines(ls) + non_white(seq![ch]));
            assert(non_white(t) =~= non_white(t1) + non_white(seq![ch]));
        }
    }
}

proof fn lemma_non_white_drop_extra(s: Seq<char>)
    ensures
        non_white(drop_extra_newlines(s)) == non_white(s),
    decreases s.len(),
{
    if s.len() >= 3 && s[s.len() - 1] == '\n' && s[s.len() - 2] == '\n' && s[s.len() - 3]
        == '\n' {
        lemma_non_white_drop_extra(s.drop_last());
        assert(non_white(s) =~= non_white(s.drop_last()));
    }
}

proof fn lemma_non_white_finish(out: Seq<char>)
    ensures
        non_white(finish_output(out)) == non_white(out),
{
    let t = trim_end(out);
    lemma_non_white_trim_end(out);
    let body = if t.len() == 0 {
        Seq::empty()
    } else {
        tidy_lines(split_lines(t))
    };
    lemma_non_white_drop_extra(body);
    if t.len() == 0 {
        assert(non_white(t) =~= Seq::<char>::empty());
    } else {
        lemma_non_white_tidy(split_lines(t));
        lemma_non_white_split(t);
    }
}

proof fn lemma_non_white_normalize(s: Seq<char>, j: int)
    requires
        0 <= j <= s.len(),
    ensures
        non_white(normalized_prefix(s, j)) == non_white(s.take(j)),
    decreases j,
{
    if j > 0 {
        lemma_non_white_normalize(s, j - 1);
        let piece = normalized_piece(s, j - 1);
        lemma_non_white_append(normalized_prefix(s, j - 1), piece);
        assert(s.take(j).drop_last() =~= s.take(j - 1));
        lemma_non_white_single(s[j - 1]);
        lemma_non_white_single('\n');
        if s[j - 1] == '\r' {
            assert(is_white_space('\r'));
            if j < s.len() && s[j] == '\n' {
                assert(non_white(piece) =~= Seq::<char>::empty());
            }
        }
        assert(non_white(normalized_prefix(s, j)) =~= non_white(s.take(j)));
    }
}

/// Extending `out` by `added` while reading `c[p..q]` keeps the non-white
/// characters of output and input equal.
proof fn lemma_extend(c: Seq<char>, p: int, q: int, out: Seq<char>, added: Seq<char>)
    requires
        0 <= p <= q <= c.len(),
        non_white(out) == non_white(c.take(p)),
        non_white(added) == non_white(c.subrange(p, q)),
    ensures
        non_white(out + added) == non_white(c.take(q)),
{
    lemma_non_white_append(out, added);
    assert(c.take(q) =~= c.take(p) + c.subrange(p, q));
    lemma_non_white_append(c.take(p), c.subrange(p, q));
}

/// Copying `c[p..q]` verbatim after the indentation keeps the non-white
/// characters in step.
proof fn lemma_copy(c: Seq<char>, s: FmtState, q: int, unit: nat)
    requires
        0 <= s.pos <= q <= c.len(),
        non_white(s.out) == non_white(c.take(s.pos)),
    ensures
        non_white(s.out + lead_in(s, unit) + c.subrange(s.pos, q)) == non_white(c.take(q)),
{
    lemma_lead_in_blank(s, unit);
    let text = c.subrange(s.pos, q);
    lemma_non_white_append(lead_in(s, unit), text);
    assert(s.out + lead_in(s, unit) + text =~= s.out + (lead_in(s, unit) + text));
    lemma_extend(c, s.pos, q, s.out, lead_in(s, unit) + text);
}

/// Writing `lead_in` then a non-white character `ch` (with white space
/// around it) while reading `c[p..q]`, which holds `ch` and white space.
proof fn lemma_one_char(c: Seq<char>, s: FmtState, q: int, added: Seq<char>, ch: char)
    requires
        0 <= s.pos < q <= c.len(),
        c[s.pos] == ch,
        !is_white_space(ch),
        is_blank(c.subrange(s.pos + 1, q)),
        non_white(s.out) == non_white(c.take(s.pos)),
        non_white(added) == seq![ch],
    ensures
        non_white(s.out + added) == non_white(c.take(q)),
{
    let p = s.pos;
    assert(c.subrange(p, q) =~= seq![ch] + c.subrange(p + 1, q));
    lemma_non_white_append(seq![ch], c.subrange(p + 1, q));
    lemma_non_white_blank(c.subrange(p + 1, q));
    lemma_non_white_single(ch);
    assert(non_white(c.subrange(p, q)) =~= seq![ch]);
    lemma_extend(c, p, q, s.out, added);
}

/// The non-white characters of `a + b + c3` when only `b` has any.
proof fn lemma_non_white_middle(a: Seq<char>, b: Seq<char>, c3: Seq<char>)
    requires
        is_blank(a),
        is_blank(c3),
    ensures
        non_white(a + b + c3) == non_white(b),
{
    lemma_non_white_append(a + b, c3);
    lemma_non_white_append(a, b);
    lemma_non_white_blank(a);
    lemma_non_white_blank(c3);
    assert(non_white(a + b + c3) =~= non_white(b));
}

/// The errors a formatting walk can report: a malformed raw string, an
/// unclosed or mismatched bracket, and, when the text's structure was not
/// recognised, a closing bracket without opener.
pub open spec fn step_error_allowed(e: WplFormatError, tree_ok: bool) -> bool {
    ||| e is InvalidRawStringStart
    ||| e is UnclosedRawString
    ||| e is UnclosedBracket
    ||| e is MismatchedBracket
    ||| (!tree_ok && e is UnexpectedClosing)
}

/// A step that goes on moves forward and keeps the non-white characters of
/// output and input equal; a step that fails reports an error the walk can
/// report.
spec fn step_ok(c: Seq<char>, s: FmtState, st: Step, tree_ok: bool) -> bool {
    match st {
        Step::Next(t) => s.pos < t.pos <= c.len() && non_white(t.out) == non_white(c.take(t.pos)),
        Step::Fail(e) => step_error_allowed(e, tree_ok),
    }
}

proof fn lemma_step_quote(c: Seq<char>, s: FmtState, unit: nat)
    requires
        0 <= s.pos < c.len(),
        c[s.pos] == '"',
        non_white(s.out) == non_white(c.take(s.pos)),
    ensures
        step_ok(c, s, step_quote(c, s, unit), true),
{
    let p = s.pos;
    lemma_first_non_white(c, p + 1);
    lemma_quote_end(c, p + 1, false);
    lemma_lead_in_blank(s, unit);
    let nn = first_non_white(c, p + 1);
    let comma = nn is Some && c[nn->0] == ',';
    let has_close = quote_end(c, p + 1, false) is Some;
    if comma || !has_close {
        let np = if nn is Some {
            nn->0
        } else {
            p + 1
        };
        assert(is_blank(c.subrange(p + 1, np))) by {
            assert forall|k: int| 0 <= k < c.subrange(p + 1, np).len() implies is_white_space(
                #[trigger] c.subrange(p + 1, np)[k],
            ) by {
                assert(c.subrange(p + 1, np)[k] == c[p + 1 + k]);
            }
        }
        lemma_non_white_append(lead_in(s, unit), seq!['"']);
        lemma_non_white_single('"');
        lemma_one_char(c, s, np, lead_in(s, unit) + seq!['"'], '"');
        assert(s.out + lead_in(s, unit) + seq!['"'] =~= s.out + (lead_in(s, unit) + seq!['"']));
    } else {
        assert(string_literal_end(c, p) == quote_end(c, p + 1, false));
        let e = string_literal_end(c, p)->0;
        lemma_copy(c, s, e, unit);
    }
}

proof fn lemma_step_annotation(c: Seq<char>, s: FmtState, unit: nat)
    requires
        0 <= s.pos < c.len(),
        non_white(s.out) == non_white(c.take(s.pos)),
    ensures
        step_ok(c, s, step_annotation(c, s, unit), true),
{
    let p = s.pos;
    lemma_bracket_end(c, p, '[', ']', 0);
    if bracket_end(c, p, '[', ']', 0) is Some {
        let e = bracket_end(c, p, '[', ']', 0)->0;
        let text = c.subrange(p, e);
        lemma_non_white_squeeze(text);
        lemma_lead_in_blank(s, unit);
        assert(is_blank(seq!['\n'])) by {
            assert(seq!['\n'][0] == '\n');
        }
        assert(is_blank(lead_in(s, unit))) by {
            lemma_indent_pad_blank(s.indent, unit);
        }
        lemma_non_white_middle(lead_in(s, unit), join_words(text), seq!['\n']);
        lemma_extend(c, p, e, s.out, lead_in(s, unit) + join_words(text) + seq!['\n']);
        assert(s.out + lead_in(s, unit) + join_words(text) + seq!['\n'] =~= s.out + (lead_in(
            s,
            unit,
        ) + join_words(text) + seq!['\n']));
    }
}

proof fn lemma_step_close(c: Seq<char>, tree_ok: bool, unit: nat, s: FmtState, cl: char)
    requires
        0 <= s.pos < c.len(),
        c[s.pos] == cl,
        cl == '}' || cl == ')',
        non_white(s.out) == non_white(c.take(s.pos)),
    ensures
        step_ok(c, s, step_close(c, tree_ok, unit, s, cl), tree_ok),
{
    let p = s.pos;
    if let Step::Next(t) = step_close(c, tree_ok, unit, s, cl) {
        let o1 = if s.sol {
            s.out
        } else {
            s.out.push('\n')
        };
        let tail = if cl == '}' {
            seq!['}', '\n']
        } else {
            seq![cl]
        };
        let nl: Seq<char> = if s.sol {
            Seq::empty()
        } else {
            seq!['\n']
        };
        assert(o1 =~= s.out + nl);
        assert(is_blank(nl)) by {
            if !s.sol {
                assert(nl[0] == '\n');
            }
        }
        lemma_indent_pad_blank(t.indent, unit);
        let pad = indent_pad(t.indent, unit);
        assert(is_blank(nl + pad)) by {
            assert forall|k: int| 0 <= k < (nl + pad).len() implies is_white_space(
                #[trigger] (nl + pad)[k],
            ) by {
                if k < nl.len() {
                    assert((nl + pad)[k] == nl[k]);
                } else {
                    assert((nl + pad)[k] == pad[k - nl.len()]);
                }
            }
        }
        lemma_non_white_append(nl + pad, tail);
        lemma_non_white_blank(nl + pad);
        if cl == '}' {
            assert(tail =~= seq!['}'] + seq!['\n']);
            lemma_non_white_append(seq!['}'], seq!['\n']);
            lemma_non_white_single('\n');
        }
        lemma_non_white_single(cl);
        assert(non_white(nl + pad + tail) =~= seq![cl]);
        assert(is_blank(c.subrange(p + 1, p + 1)));
        lemma_one_char(c, s, p + 1, nl + pad + tail, cl);
        assert(t.out =~= s.out + (nl + pad + tail));
    }
}

proof fn lemma_step_paren(c: Seq<char>, unit: nat, s: FmtState)
    requires
        0 <= s.pos < c.len(),
        c[s.pos] == '(',
        non_white(s.out) == non_white(c.take(s.pos)),
    ensures
        step_ok(c, s, step_paren(c, unit, s), true),
{
    let p = s.pos;
    let pk = peek_end(c, p, '(', ')', 0, false, false);
    assert(pk == peek_end(c, p + 1, '(', ')', 1, false, false));
    lemma_peek_end(c, p + 1, '(', ')', 1, false, false);
    lemma_lead_in_blank(s, unit);
    lemma_indent_pad_blank(s.indent, unit);
    if pk is Some && !c.subrange(p + 1, pk->0 - 1).contains(',') && !c.subrange(
        p + 1,
        pk->0 - 1,
    ).contains('|') {
        let e = pk->0;
        let inner = c.subrange(p + 1, e - 1);
        lemma_non_white_trim(inner);
        let added = lead_in(s, unit) + seq!['('] + trim(inner) + seq![')'];
        assert(c.subrange(p, e) =~= seq!['('] + inner + seq![')']);
        lemma_non_white_append(seq!['('] + inner, seq![')']);
        lemma_non_white_append(seq!['('], inner);
        lemma_non_white_append(lead_in(s, unit) + seq!['('] + trim(inner), seq![')']);
        lemma_non_white_append(lead_in(s, unit) + seq!['('], trim(inner));
        lemma_non_white_append(lead_in(s, unit), seq!['(']);
        lemma_non_white_single('(');
        lemma_non_white_single(')');
        assert(non_white(added) =~= non_white(c.subrange(p, e)));
        lemma_extend(c, p, e, s.out, added);
        assert(s.out + lead_in(s, unit) + seq!['('] + trim(inner) + seq![')'] =~= s.out + added);
    } else {
        let added = lead_in(s, unit) + seq!['(', '\n'];
        assert(seq!['(', '\n'] =~= seq!['('] + seq!['\n']);
        lemma_non_white_append(seq!['('], seq!['\n']);
        lemma_non_white_append(lead_in(s, unit), seq!['(', '\n']);
        lemma_non_white_single('(');
        lemma_non_white_single('\n');
        assert(non_white(added) =~= seq!['(']);
        assert(is_blank(c.subrange(p + 1, p + 1)));
        lemma_one_char(c, s, p + 1, added, '(');
        assert(opened(s, '(', unit).out =~= s.out + added);
    }
}

proof fn lemma_step_pipe(c: Seq<char>, unit: nat, s: FmtState)
    requires
        0 <= s.pos < c.len(),
        c[s.pos] == '|',
        non_white(s.out) == non_white(c.take(s.pos)),
    ensures
        step_ok(c, s, Step::Next(step_pipe(c, unit, s)), true),
{
    let p = s.pos;
    let t = step_pipe(c, unit, s);
    lemma_first_non_white(c, p + 1);
    let np = t.pos;
    assert(is_blank(c.subrange(p + 1, np))) by {
        assert forall|k: int| 0 <= k < c.subrange(p + 1, np).len() implies is_white_space(
            #[trigger] c.subrange(p + 1, np)[k],
        ) by {
            assert(c.subrange(p + 1, np)[k] == c[p + 1 + k]);
        }
    }
    let o1 = s.out + lead_in(s, unit);
    let space = !s.sol && !(o1.len() > 0 && (o1.last() == ' ' || o1.last() == '\n'));
    let sp: Seq<char> = if space {
        seq![' ']
    } else {
        Seq::empty()
    };
    let pre = lead_in(s, unit) + sp;
    lemma_indent_pad_blank(s.indent, unit);
    assert(is_blank(pre)) by {
        assert forall|k: int| 0 <= k < pre.len() implies is_white_space(#[trigger] pre[k]) by {
            if k < lead_in(s, unit).len() {
                assert(pre[k] == lead_in(s, unit)[k]);
            } else {
                assert(pre[k] == sp[k - lead_in(s, unit).len()]);
            }
        }
    }
    assert(seq!['|', ' '] =~= seq!['|'] + seq![' ']);
    assert(is_blank(seq![' '])) by {
        assert(seq![' '][0] == ' ');
    }
    lemma_non_white_middle(pre, seq!['|'], seq![' ']);
    lemma_non_white_single('|');
    assert(pre + seq!['|'] + seq![' '] =~= pre + seq!['|', ' ']);
    lemma_one_char(c, s, np, pre + seq!['|', ' '], '|');
    assert(t.out =~= s.out + (pre + seq!['|', ' ']));
}

proof fn lemma_step(c: Seq<char>, r: Seq<(usize, usize)>, tree_ok: bool, unit: nat, s: FmtState)
    requires
        0 <= s.pos < c.len(),
        ranges_well_formed(r, c.len() as int),
        non_white(s.out) == non_white(c.take(s.pos)),
    ensures
        step_ok(c, s, step(c, r, tree_ok, unit, s), tree_ok),
{
    let p = s.pos;
    let ch = c[p];
    lemma_range_at_bounds(r, c.len() as int, p);
    lemma_lead_in_blank(s, unit);
    if range_at(r, p) is Some {
        let (rs, re) = range_at(r, p)->0;
        lemma_copy(c, s, re as int, unit);
    } else if ch == '"' {
        lemma_step_quote(c, s, unit);
    } else if ch == 'r' && p + 1 < c.len() && c[p + 1] == '#' {
        lemma_raw_string_result(c, p, s.line);
        if let Ok(e) = raw_string_result(c, p, s.line) {
            lemma_copy(c, s, e, unit);
        }
    } else if ch == '#' && p + 1 < c.len() && c[p + 1] == '[' {
        lemma_step_annotation(c, s, unit);
    } else if ch == '<' {
        lemma_bracket_end(c, p, '<', '>', 0);
        if let Some(e) = bracket_end(c, p, '<', '>', 0) {
            lemma_copy(c, s, e, unit);
        }
    } else if is_white_space(ch) {
        let t = step_space(c, s);
        let added: Seq<char> = if ch == '\n' {
            if !s.sol {
                seq!['\n']
            } else {
                Seq::empty()
            }
        } else if !s.sol {
            seq![' ']
        } else {
            Seq::empty()
        };
        assert(is_blank(added)) by {
            if added.len() > 0 {
                assert(added[0] == '\n' || added[0] == ' ');
            }
        }
        lemma_non_white_blank(added);
        assert(c.subrange(p, p + 1) =~= seq![ch]);
        lemma_non_white_single(ch);
        lemma_extend(c, p, p + 1, s.out, added);
        assert(t.out =~= s.out + added);
    } else if first_call_at(c, p, raw_func_names(), 0) is Some && call_end(c, p, 0, false, false) is Some {
        lemma_call_end(c, p, 0, false, false);
        lemma_copy(c, s, call_end(c, p, 0, false, false)->0, unit);
    } else if p > 0 && c[p - 1] == '\\' && crate::formatter::is_escapable(ch) {
        lemma_non_white_append(lead_in(s, unit), seq![ch]);
        lemma_non_white_single(ch);
        assert(is_blank(c.subrange(p + 1, p + 1)));
        lemma_one_char(c, s, p + 1, lead_in(s, unit) + seq![ch], ch);
        assert(wrote_char(s, ch, unit).out =~= s.out + (lead_in(s, unit) + seq![ch]));
    } else if ch == '{' {
        lemma_end_of_range_starting(r, c.len() as int, p, 0);
        if separator_block_end(c, p, r) is Some {
            lemma_copy(c, s, separator_block_end(c, p, r)->0, unit);
        } else {
            let added = lead_in(s, unit) + seq!['{', '\n'];
            assert(seq!['{', '\n'] =~= seq!['{'] + seq!['\n']);
            lemma_non_white_append(seq!['{'], seq!['\n']);
            lemma_non_white_append(lead_in(s, unit), seq!['{', '\n']);
            lemma_non_white_single('{');
            lemma_non_white_single('\n');
            assert(is_blank(c.subrange(p + 1, p + 1)));
            lemma_one_char(c, s, p + 1, added, '{');
            assert(opened(s, '{', unit).out =~= s.out + added);
        }
    } else if ch == '}' || ch == ')' {
        lemma_step_close(c, tree_ok, unit, s, ch);
    } else if ch == '(' {
        lemma_step_paren(c, unit, s);
    } else if ch == ',' {
        assert(seq![',', '\n'] =~= seq![','] + seq!['\n']);
        lemma_non_white_append(seq![','], seq!['\n']);
        lemma_non_white_single(',');
        lemma_non_white_single('\n');
        assert(is_blank(c.subrange(p + 1, p + 1)));
        lemma_one_char(c, s, p + 1, seq![',', '\n'], ',');
    } else if ch == '|' {
        lemma_step_pipe(c, unit, s);
    } else {
        lemma_non_white_append(lead_in(s, unit), seq![ch]);
        lemma_non_white_single(ch);
        assert(is_blank(c.subrange(p + 1, p + 1)));
        lemma_one_char(c, s, p + 1, lead_in(s, unit) + seq![ch], ch);
        assert(wrote_char(s, ch, unit).out =~= s.out + (lead_in(s, unit) + seq![ch]));
    }
}

proof fn lemma_run(c: Seq<char>, r: Seq<(usize, usize)>, tree_ok: bool, unit: nat, s: FmtState)
    requires
        0 <= s.pos <= c.len(),
        ranges_well_formed(r, c.len() as int),
        non_white(s.out) == non_white(c.take(s.pos)),
    ensures
        run_machine(c, r, tree_ok, unit, s) matches Ok(f) ==> f.pos == c.len() && non_white(f.out)
            == non_white(c),
        run_machine(c, r, tree_ok, unit, s) matches Err(e) ==> step_error_allowed(e, tree_ok),
    decreases c.len() - s.pos,
{
    if s.pos < c.len() {
        lemma_step(c, r, tree_ok, unit, s);
        if let Step::Next(t) = step(c, r, tree_ok, unit, s) {
            lemma_run(c, r, tree_ok, unit, t);
        }
    } else {
        assert(c.take(s.pos) =~= c);
    }
}

proof fn lemma_format_chars(c: Seq<char>, r: Seq<(usize, usize)>, tree_ok: bool, unit: nat)
    requires
        ranges_well_formed(r, c.len() as int),
    ensures
        format_chars_result(c, r, tree_ok, unit) matches Ok(t) ==> non_white(t) == non_white(c),
        format_chars_result(c, r, tree_ok, unit) matches Err(e) ==> step_error_allowed(e, tree_ok),
{
    assert(c.take(0) =~= Seq::<char>::empty());
    assert(non_white(initial_state().out) == non_white(c.take(0)));
    lemma_run(c, r, tree_ok, unit, initial_state());
    if let Ok(f) = run_machine(c, r, tree_ok, unit, initial_state()) {
        lemma_non_white_finish(f.out);
    }
}

pub proof fn lemma_normalized_len(s: Seq<char>, j: int)
    requires
        0 <= j <= s.len(),
    ensures
        normalized_prefix(s, j).len() <= j,
    decreases j,
{
    if j > 0 {
        lemma_normalized_len(s, j - 1);
    }
}

proof fn lemma_normalized_no_cr(s: Seq<char>, j: int)
    requires
        0 <= j <= s.len(),
    ensures
        forall|k: int| 0 <= k < normalized_prefix(s, j).len() ==> #[trigger] normalized_prefix(s, j)[k] != '\r',
    decreases j,
{
    if j > 0 {
        lemma_normalized_no_cr(s, j - 1);
        let a = normalized_prefix(s, j - 1);
        let b = normalized_piece(s, j - 1);
        assert forall|k: int| 0 <= k < (a + b).len() implies #[trigger] (a + b)[k] != '\r' by {
            if k < a.len() {
                assert((a + b)[k] == a[k]);
            } else {
                assert((a + b)[k] == b[k - a.len()]);
            }
        }
    }
}

proof fn lemma_normalize_without_cr(s: Seq<char>, j: int)
    requires
        0 <= j <= s.len(),
        forall|k: int| 0 <= k < s.len() ==> #[trigger] s[k] != '\r',
    ensures
        normalized_prefix(s, j) == s.take(j),
    decreases j,
{
    if j > 0 {
        lemma_normalize_without_cr(s, j - 1);
        assert(s.take(j) =~= s.take(j - 1) + seq![s[j - 1]]);
    }
}

/// Normalising line endings a second time changes nothing.
pub proof fn lemma_normalize_newlines_idempotent(s: Seq<char>)
    ensures
        normalize_newlines(normalize_newlines(s)) == normalize_newlines(s),
{
    let n = normalize_newlines(s);
    lemma_normalized_no_cr(s, s.len() as int);
    lemma_normalize_without_cr(n, n.len() as int);
    assert(n.take(n.len() as int) =~= n);
}

/// Formatting a text gives what formatting it with its line endings
/// normalised gives, the formatted text or the same error: `"\r\n"` and a
/// lone `'\r'` each count as one line break, also in the line numbers of
/// errors.
pub proof fn law_format_line_endings(content: Seq<char>, unit: nat)
    ensures
        format_text(normalize_newlines(content), unit) == format_text(content, unit),
{
    lemma_normalize_newlines_idempotent(content);
}

/// Formatting characters changes only white space: the characters of the
/// result that are not white space are those of the input, in order.
/// Formatting fails only on a malformed raw string, an unclosed or
/// mismatched bracket, or (when the structure was not recognised) a closing
/// bracket without opener.
pub proof fn law_format_chars_changes_only_white_space(
    c: Seq<char>,
    r: Seq<(usize, usize)>,
    tree_ok: bool,
    unit: nat,
)
    requires
        ranges_well_formed(r, c.len() as int),
    ensures
        format_chars_result(c, r, tree_ok, unit) matches Ok(t) ==> non_white(t) == non_white(c),
        format_chars_result(c, r, tree_ok, unit) matches Err(e) ==> step_error_allowed(e, tree_ok),
{
    lemma_format_chars(c, r, tree_ok, unit);
}

/// Formatting WPL text changes only white space: the characters of the
/// formatted text that are not white space are those of the input, in
/// order. The only errors are a malformed raw string and an unclosed or
/// mismatched bracket.
pub proof fn law_format_changes_only_white_space(content: Seq<char>, unit: nat)
    requires
        content.len() <= usize::MAX,
    ensures
        format_text(content, unit) matches Ok(t) ==> non_white(t) == non_white(content),
        format_text(content, unit) matches Err(e) ==> {
            ||| e is InvalidRawStringStart
            ||| e is UnclosedRawString
            ||| e is UnclosedBracket
            ||| e is MismatchedBracket
        },
{
    let c = normalize_newlines(content);
    lemma_normalized_len(content, content.len() as int);
    lemma_separator_blocks_well_formed(c);
    lemma_format_chars(c, separator_blocks_from(c, 0), true, unit);
    lemma_non_white_normalize(content, content.len() as int);
    assert(content.take(content.len() as int) =~= content);
}

/// No three consecutive line breaks, and no blank first two lines: blank
/// lines never follow one another.
pub open spec fn no_blank_line_runs(t: Seq<char>) -> bool {
    &&& forall|k: int|
        0 <= k && k + 2 < t.len() ==> !(#[trigger] t[k] == '\n' && t[k + 1] == '\n' && t[k + 2]
            == '\n')
    &&& !(t.len() >= 2 && t[0] == '\n' && t[1] == '\n')
}

/// No line ends with white space.
pub open spec fn no_trailing_white_space(t: Seq<char>) -> bool {
    forall|k: int| 0 < k < t.len() && #[trigger] t[k] == '\n' ==> t[k - 1] == '\n' || !is_white_space(t[k - 1])
}

/// Empty, or a last line that is not blank followed by exactly one line break.
pub open spec fn ends_with_one_newline(t: Seq<char>) -> bool {
    t.len() == 0 || (t.len() >= 2 && t[t.len() - 1] == '\n' && !is_white_space(t[t.len() - 2]))
}

proof fn lemma_split_pieces(s: Seq<char>)
    ensures
        split_lines(s).len() >= 1,
        forall|k: int, m: int|
            0 <= k < split_lines(s).len() && 0 <= m < split_lines(s)[k].len() ==> #[trigger] split_lines(s)[k][m] != '\n',
        s.len() > 0 && s.last() != '\n' ==> split_lines(s).last().len() > 0 && split_lines(s).last().last() == s.last(),
    decreases s.len(),
{
    if s.len() > 0 {
        lemma_split_pieces(s.drop_last());
        let ls = split_lines(s.drop_last());
        if s.last() == '\n' {
            let l2 = ls.push(Seq::<char>::empty());
            assert forall|k: int, m: int| 0 <= k < l2.len() && 0 <= m < l2[k].len() implies #[trigger] l2[k][m] != '\n' by {
                if k < ls.len() {
                    assert(l2[k] == ls[k]);
                }
            }
        } else {
            let l2 = ls.update(ls.len() - 1, ls.last().push(s.last()));
            assert forall|k: int, m: int| 0 <= k < l2.len() && 0 <= m < l2[k].len() implies #[trigger] l2[k][m] != '\n' by {
                if k < ls.len() - 1 {
                    assert(l2[k] == ls[k]);
                } else {
                    assert(l2[k] == ls.last().push(s.last()));
                    if m < ls.last().len() {
                        assert(l2[k][m] == ls.last()[m]);
                        assert(ls.last() == ls[ls.len() - 1]);
                    }
                }
            }
        }
    }
}

/// Shape of the tidied lines: no runs of blank lines, no trailing white
/// space, and an ending that depends on whether the last line is blank.
spec fn tidy_shape(ls: Seq<Seq<char>>, t: Seq<char>) -> bool {
    &&& no_blank_line_runs(t)
    &&& no_trailing_white_space(t)
    &&& is_blank(ls.last()) ==> t.len() >= 1 && t.last() == '\n' && (t.len() == 1 || t[t.len() - 2] == '\n')
    &&& !is_blank(ls.last()) ==> t.len() >= 2 && t.last() == '\n' && !is_white_space(t[t.len() - 2])
}

proof fn lemma_tidy_shape(ls: Seq<Seq<char>>)
    requires
        ls.len() >= 1,
        forall|k: int, m: int| 0 <= k < ls.len() && 0 <= m < ls[k].len() ==> #[trigger] ls[k][m] != '\n',
    ensures
        tidy_shape(ls, tidy_lines(ls)),
    decreases ls.len(),
{
    let n = ls.len();
    let l = ls[n - 1];
    let prev = ls.drop_last();
    let t0 = tidy_lines(prev);
    let t = tidy_lines(ls);
    let te = trim_end(l);
    lemma_trim_end_blank(l);
    assert(t == t0 + kept_line(ls, n - 1));
    assert forall|m: int| 0 <= m < te.len() implies #[trigger] te[m] != '\n' by {
        assert(te[m] == l.take(te.len() as int)[m]);
        assert(l[m] != '\n');
    }
    if n > 1 {
        assert forall|k: int, m: int| 0 <= k < prev.len() && 0 <= m < prev[k].len() implies #[trigger] prev[k][m] != '\n' by {
            assert(prev[k] == ls[k]);
        }
        lemma_tidy_shape(prev);
        assert(prev.last() == ls[n - 2]);
    } else {
        assert(prev.len() == 0);
        assert(t0.len() == 0);
    }
    if is_blank(l) && n > 1 && is_blank(ls[n - 2]) {
        assert(kept_line(ls, n - 1) =~= Seq::<char>::empty());
        assert(t =~= t0);
    } else if is_blank(l) {
        assert(te.len() == 0);
        assert(kept_line(ls, n - 1) =~= seq!['\n']);
        if n > 1 {
            assert(!is_blank(ls[n - 2]));
            assert(forall|k: int| 0 <= k < t0.len() ==> t[k] == t0[k]);
            assert(t.len() == t0.len() + 1);
            assert(t[t0.len() as int] == '\n');
            assert forall|k: int| 0 <= k && k + 2 < t.len() implies !(#[trigger] t[k] == '\n' && t[k + 1] == '\n' && t[k + 2] == '\n') by {
                if k + 2 < t0.len() {
                    assert(t[k] == t0[k] && t[k + 1] == t0[k + 1] && t[k + 2] == t0[k + 2]);
                } else {
                    assert(k == t0.len() - 2);
                    assert(t[k] == t0[t0.len() - 2]);
                }
            }
            assert forall|k: int| 0 < k < t.len() && #[trigger] t[k] == '\n' implies t[k - 1] == '\n' || !is_white_space(t[k - 1]) by {
                if k < t0.len() {
                    assert(t[k] == t0[k] && t[k - 1] == t0[k - 1]);
                } else {
                    assert(t[k - 1] == t0[t0.len() - 1]);
                }
            }
        } else {
            assert(t =~= seq!['\n']);
        }
    } else {
        assert(te.len() > 0);
        let kept = te.push('\n');
        assert(kept_line(ls, n - 1) == kept);
        let l0 = t0.len();
        assert(t.len() == l0 + te.len() + 1);
        assert(forall|k: int| 0 <= k < l0 ==> t[k] == t0[k]);
        assert(forall|k: int| l0 <= k < l0 + te.len() ==> t[k] == te[k - l0]);
        assert(t[t.len() - 1] == '\n');
        assert(t[t.len() - 2] == te.last());
        assert forall|k: int| 0 <= k && k + 2 < t.len() implies !(#[trigger] t[k] == '\n' && t[k + 1] == '\n' && t[k + 2] == '\n') by {
            if k + 2 < l0 {
                assert(t[k] == t0[k] && t[k + 1] == t0[k + 1] && t[k + 2] == t0[k + 2]);
            } else if k + 2 < t.len() - 1 {
                assert(t[k + 2] == te[k + 2 - l0]);
            } else {
                assert(t[k + 1] == te.last());
            }
        }
        if t.len() >= 2 {
            if l0 == 0 {
                assert(t[0] == te[0]);
            } else if l0 == 1 {
                assert(t[1] == te[0]);
            } else {
                assert(t[0] == t0[0] && t[1] == t0[1]);
            }
        }
        assert forall|k: int| 0 < k < t.len() && #[trigger] t[k] == '\n' implies t[k - 1] == '\n' || !is_white_space(t[k - 1]) by {
            if k < l0 {
                assert(t[k] == t0[k] && t[k - 1] == t0[k - 1]);
            } else if k < t.len() - 1 {
                assert(t[k] == te[k - l0]);
            }
        }
    }
}

proof fn lemma_drop_extra_identity(s: Seq<char>)
    requires
        s.len() < 2 || s[s.len() - 2] != '\n',
    ensures
        drop_extra_newlines(s) == s,
{
}

/// For text that does not end in white space, the tidied lines need no
/// further trimming of line breaks.
pub proof fn lemma_tidy_ends(t: Seq<char>)
    requires
        t.len() > 0,
        !is_white_space(t.last()),
    ensures
        drop_extra_newlines(tidy_lines(split_lines(t))) == tidy_lines(split_lines(t)),
{
    assert(t.last() != '\n');
    lemma_split_pieces(t);
    let ls = split_lines(t);
    lemma_tidy_shape(ls);
    assert(!is_blank(ls.last())) by {
        assert(ls.last()[ls.last().len() - 1] == t.last());
    }
    lemma_drop_extra_identity(tidy_lines(ls));
}

/// The formatted text never has two blank lines in a row, never ends a line
/// with white space, and is empty or ends with a single line break after a
/// line that is not blank.
pub proof fn law_formatted_layout(out: Seq<char>)
    ensures
        no_blank_line_runs(finish_output(out)),
        no_trailing_white_space(finish_output(out)),
        ends_with_one_newline(finish_output(out)),
{
    let t = trim_end(out);
    lemma_trim_end_blank(out);
    if t.len() == 0 {
        assert(drop_extra_newlines(Seq::<char>::empty()) == Seq::<char>::empty());
    } else {
        assert(t.last() != '\n');
        lemma_split_pieces(t);
        let ls = split_lines(t);
        lemma_tidy_shape(ls);
        assert(!is_blank(ls.last())) by {
            assert(ls.last()[ls.last().len() - 1] == t.last());
        }
        lemma_drop_extra_identity(tidy_lines(ls));
    }
}

/// What `law_formatted_layout` states, for the result of formatting.
pub proof fn law_format_layout(c: Seq<char>, r: Seq<(usize, usize)>, tree_ok: bool, unit: nat)
    ensures
        format_chars_result(c, r, tree_ok, unit) matches Ok(t) ==> {
            &&& no_blank_line_runs(t)
            &&& no_trailing_white_space(t)
            &&& ends_with_one_newline(t)
        },
{
    if let Ok(f) = run_machine(c, r, tree_ok, unit, initial_state()) {
        law_formatted_layout(f.out);
    }
}

} // verus!
