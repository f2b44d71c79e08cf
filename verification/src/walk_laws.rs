//! What single steps of the formatting walk do, stated from the input
//! characters and the output text: how closing brackets end (or do not end)
//! their line, what is copied verbatim, how a group without `,` or `|` is
//! kept on one line, and how annotations are indented.
use vstd::prelude::*;
use crate::formatter::{
    FmtState, Step, step, raw_func_names, lead_in, is_escapable,
};
use crate::indentation::lemma_pad_spaces;
use crate::laws::{non_white, lemma_non_white_append, lemma_non_white_single, lemma_non_white_squeeze};
use crate::lines::{squeeze, join_words};
use crate::scan::{
    first_call_at, call_of_at, lemma_first_non_white, lemma_quote_end, lemma_peek_end,
    lemma_bracket_end, first_non_white, quote_end, string_literal_end, peek_end, bracket_end,
};
use crate::text::{
    is_white_space, is_blank, indent_pad, spaces, trim, trim_start, trim_end, lemma_trim_end_blank,
};
use crate::tree::{
    range_at, is_word_break, skip_white_back, word_start, is_pattern_separator,
    separator_blocks_from, first_index_from,
};

verus! {

/// Every character of `s` is a space (U+0020).
pub open spec fn all_spaces(s: Seq<char>) -> bool {
    forall|k: int| 0 <= k < s.len() ==> s[k] == ' '
}

proof fn lemma_no_raw_call(c: Seq<char>, p: int, j: int)
    requires
        0 <= p < c.len(),
        0 <= j,
        c[p] != 's' && c[p] != 'f' && c[p] != 'k',
    ensures
        first_call_at(c, p, raw_func_names(), j) is None,
    decreases raw_func_names().len() - j,
{
    let ns = raw_func_names();
    if j < ns.len() {
        assert(ns[0] =~= seq!['s', 'y', 'm', 'b', 'o', 'l']);
        assert(ns[1] =~= seq!['f', '_', 'c', 'h', 'a', 'r', 's', '_', 'n', 'o', 't', '_', 'h', 'a', 's']);
        assert(ns[2] =~= seq!['f', '_', 'c', 'h', 'a', 'r', 's', '_', 'h', 'a', 's']);
        assert(ns[3] =~= seq!['k', 'v']);
        assert(ns[4] =~= seq!['f', '_', 'c', 'h', 'a', 'r', 's', '_', 'i', 'n']);
        assert(ns[j][0] == 's' || ns[j][0] == 'f' || ns[j][0] == 'k');
        if call_of_at(c, p, ns[j]) {
            assert(c.subrange(p, p + ns[j].len())[0] == c[p]);
        }
        lemma_no_raw_call(c, p, j + 1);
    }
}

proof fn lemma_lead_in_spaces(s: FmtState, unit: nat)
    ensures
        all_spaces(lead_in(s, unit)),
        s.sol ==> lead_in(s, unit) == spaces(s.indent * unit),
        !s.sol ==> lead_in(s, unit) == Seq::<char>::empty(),
{
    lemma_pad_spaces(s.indent, unit);
    lemma_indent_pad_len(s.indent, unit);
    let pad = indent_pad(s.indent, unit);
    let sp = spaces(s.indent * unit);
    assert(sp.len() == pad.len());
    assert forall|k: int| 0 <= k < pad.len() implies pad[k] == sp[k] by {
        assert(pad[k] == ' ');
        assert(sp[k] == ' ');
    }
    assert(pad =~= sp);
    if !s.sol {
        assert(lead_in(s, unit) =~= Seq::<char>::empty());
    }
}

proof fn lemma_indent_pad_len(count: nat, unit: nat)
    ensures
        indent_pad(count, unit).len() == count * unit,
    decreases count,
{
    if count > 0 {
        let m = (count - 1) as nat;
        lemma_indent_pad_len(m, unit);
        assert(indent_pad(count, unit).len() == indent_pad(m, unit).len() + spaces(unit).len());
        assert(m * unit + unit == count * unit) by (nonlinear_arith)
            requires
                m + 1 == count,
        ;
    } else {
        assert(count * unit == 0) by (nonlinear_arith)
            requires
                count == 0,
        ;
    }
}

/// A closing parenthesis leaves its line open, a closing brace ends its
/// line. Either is written on a line of its own (a line break first unless
/// the output is at the start of a line), after spaces only: `)` is followed
/// by nothing, `}` by a line break.
pub proof fn law_closing_bracket_line(
    c: Seq<char>,
    r: Seq<(usize, usize)>,
    tree_ok: bool,
    unit: nat,
    s: FmtState,
)
    requires
        0 <= s.pos < c.len(),
        c[s.pos] == ')' || c[s.pos] == '}',
        range_at(r, s.pos) is None,
        !(s.pos > 0 && c[s.pos - 1] == '\\'),
    ensures
        step(c, r, tree_ok, unit, s) matches Step::Next(t) ==> {
            let nl: Seq<char> = if s.sol {
                Seq::empty()
            } else {
                seq!['\n']
            };
            &&& t.pos == s.pos + 1
            &&& t.sol == (c[s.pos] == '}')
            &&& exists|pad: Seq<char>|
                #[trigger] all_spaces(pad) && (if c[s.pos] == ')' {
                    t.out == s.out + nl + pad + seq![')']
                } else {
                    t.out == s.out + nl + pad + seq!['}', '\n']
                })
        },
{
    let p = s.pos;
    let cl = c[p];
    lemma_no_raw_call(c, p, 0);
    if let Step::Next(t) = step(c, r, tree_ok, unit, s) {
        let nl: Seq<char> = if s.sol {
            Seq::empty()
        } else {
            seq!['\n']
        };
        let o1 = if s.sol {
            s.out
        } else {
            s.out.push('\n')
        };
        assert(o1 =~= s.out + nl);
        let indent: nat = if s.stack.len() > 0 {
            if s.indent > 0 {
                (s.indent - 1) as nat
            } else {
                0
            }
        } else {
            crate::tree::closing_indent(s.out, unit as int) as nat
        };
        let pad = indent_pad(indent, unit);
        lemma_pad_spaces(indent, unit);
        assert(all_spaces(pad));
        if cl == ')' {
            assert(t.out == s.out + nl + pad + seq![')']);
        } else {
            assert(t.out == s.out + nl + pad + seq!['}', '\n']);
        }
    }
}

/// A binding written right after a group's closing parenthesis, as in
/// `record(...):person`, stays on the line of that parenthesis: the step at
/// `:` appends it directly after the `)`.
pub proof fn law_binding_follows_group(
    c: Seq<char>,
    r: Seq<(usize, usize)>,
    tree_ok: bool,
    unit: nat,
    s: FmtState,
)
    requires
        0 <= s.pos,
        s.pos + 1 < c.len(),
        c[s.pos] == ')',
        c[s.pos + 1] == ':',
        range_at(r, s.pos) is None,
        range_at(r, s.pos + 1) is None,
        !(s.pos > 0 && c[s.pos - 1] == '\\'),
    ensures
        step(c, r, tree_ok, unit, s) matches Step::Next(t) ==> {
            &&& t.out.len() > 0
            &&& t.out.last() == ')'
            &&& step(c, r, tree_ok, unit, t) matches Step::Next(u) && u.out == t.out.push(':')
        },
{
    law_closing_bracket_line(c, r, tree_ok, unit, s);
    if let Step::Next(t) = step(c, r, tree_ok, unit, s) {
        lemma_no_raw_call(c, t.pos, 0);
        assert(!is_escapable(':'));
        lemma_lead_in_spaces(t, unit);
        let u = crate::formatter::wrote_char(t, ':', unit);
        assert(step(c, r, tree_ok, unit, t) == Step::Next(u));
        assert(u.out =~= t.out.push(':'));
    }
}

/// At a `"`, the walk copies input as it stands: after spaces of
/// indentation, either the string literal `c[pos..next)` exactly, white space
/// inside the quotes included, or a lone `"` (a format marker) with only
/// white space skipped after it.
pub proof fn law_quote_copied_verbatim(
    c: Seq<char>,
    r: Seq<(usize, usize)>,
    tree_ok: bool,
    unit: nat,
    s: FmtState,
)
    requires
        0 <= s.pos < c.len(),
        c[s.pos] == '"',
        range_at(r, s.pos) is None,
    ensures
        step(c, r, tree_ok, unit, s) matches Step::Next(t) ==> {
            &&& s.pos < t.pos <= c.len()
            &&& exists|pad: Seq<char>|
                #[trigger] all_spaces(pad) && (t.out == s.out + pad + c.subrange(s.pos, t.pos) || (
                t.out == s.out + pad + seq!['"'] && is_blank(c.subrange(s.pos + 1, t.pos))))
        },
{
    let p = s.pos;
    lemma_lead_in_spaces(s, unit);
    lemma_first_non_white(c, p + 1);
    lemma_quote_end(c, p + 1, false);
    assert(string_literal_end(c, p) == quote_end(c, p + 1, false));
    if let Step::Next(t) = step(c, r, tree_ok, unit, s) {
        let pad = lead_in(s, unit);
        assert(all_spaces(pad));
        let nn = first_non_white(c, p + 1);
        let comma = nn is Some && c[nn->0] == ',';
        let has_close = quote_end(c, p + 1, false) is Some;
        if comma || !has_close {
            let np = if nn is Some {
                nn->0
            } else {
                p + 1
            };
            assert forall|k: int| 0 <= k < c.subrange(p + 1, np).len() implies is_white_space(
                #[trigger] c.subrange(p + 1, np)[k],
            ) by {
                assert(c.subrange(p + 1, np)[k] == c[p + 1 + k]);
            }
            assert(t.out == s.out + pad + seq!['"']);
        } else {
            assert(t.out == s.out + pad + c.subrange(p, t.pos));
        }
    }
}

/// `c[a..b)` is `c[from..to)` without its leading and trailing white space.
pub open spec fn is_trimmed_part(c: Seq<char>, from: int, to: int, a: int, b: int) -> bool {
    &&& from <= a <= b <= to
    &&& forall|j: int| from <= j < a ==> is_white_space(#[trigger] c[j])
    &&& forall|j: int| b <= j < to ==> is_white_space(#[trigger] c[j])
    &&& a < b ==> !is_white_space(c[a]) && !is_white_space(c[b - 1])
}

proof fn lemma_trim_start_shape(y: Seq<char>) -> (k: int)
    ensures
        0 <= k <= y.len(),
        trim_start(y) == y.subrange(k, y.len() as int),
        forall|j: int| 0 <= j < k ==> is_white_space(#[trigger] y[j]),
        k < y.len() ==> !is_white_space(y[k]),
    decreases y.len(),
{
    if y.len() > 0 && is_white_space(y[0]) {
        let d = y.drop_first();
        let k1 = lemma_trim_start_shape(d);
        assert(d.subrange(k1, d.len() as int) =~= y.subrange(k1 + 1, y.len() as int));
        assert forall|j: int| 0 <= j < k1 + 1 implies is_white_space(#[trigger] y[j]) by {
            if j > 0 {
                assert(y[j] == d[j - 1]);
            }
        }
        if k1 + 1 < y.len() {
            assert(y[k1 + 1] == d[k1]);
        }
        k1 + 1
    } else {
        assert(y.subrange(0, y.len() as int) =~= y);
        0
    }
}

proof fn lemma_trim_shape(x: Seq<char>) -> (ab: (int, int))
    ensures
        is_trimmed_part(x, 0, x.len() as int, ab.0, ab.1),
        trim(x) == x.subrange(ab.0, ab.1),
{
    lemma_trim_end_blank(x);
    let y = trim_end(x);
    let m = y.len() as int;
    let k = lemma_trim_start_shape(y);
    assert(y.subrange(k, m) =~= x.subrange(k, m));
    assert forall|j: int| 0 <= j < k implies is_white_space(#[trigger] x[j]) by {
        assert(y[j] == x[j]);
    }
    if k < m {
        assert(y[k] == x[k]);
        assert(y[m - 1] == x[m - 1]);
    }
    (k, m)
}

/// A group whose inner text holds no `,` or `|` stays on one line, its
/// inner text without leading and trailing white space: after spaces of
/// indentation the output gains `(`, the trimmed inner text and `)`. Any
/// other group opens a block: `(` ends its line.
pub proof fn law_group_on_one_line(
    c: Seq<char>,
    r: Seq<(usize, usize)>,
    tree_ok: bool,
    unit: nat,
    s: FmtState,
)
    requires
        0 <= s.pos < c.len(),
        c[s.pos] == '(',
        range_at(r, s.pos) is None,
        !(s.pos > 0 && c[s.pos - 1] == '\\'),
    ensures
        step(c, r, tree_ok, unit, s) matches Step::Next(t) ==> exists|pad: Seq<char>|
            #[trigger] all_spaces(pad) && ((t.pos == s.pos + 1 && t.sol && t.out == s.out + pad
                + seq!['(', '\n']) || (s.pos + 2 <= t.pos <= c.len() && c[t.pos - 1] == ')'
                && !c.subrange(s.pos + 1, t.pos - 1).contains(',') && !c.subrange(
                s.pos + 1,
                t.pos - 1,
            ).contains('|') && exists|a: int, b: int|
                #[trigger] is_trimmed_part(c, s.pos + 1, t.pos - 1, a, b) && t.out == s.out + pad
                    + seq!['('] + c.subrange(a, b) + seq![')'])),
{
    let p = s.pos;
    lemma_no_raw_call(c, p, 0);
    lemma_lead_in_spaces(s, unit);
    lemma_peek_end(c, p, '(', ')', 0, false, false);
    if let Step::Next(t) = step(c, r, tree_ok, unit, s) {
        let pad = lead_in(s, unit);
        assert(all_spaces(pad));
        let pk = peek_end(c, p, '(', ')', 0, false, false);
        if pk is Some && !c.subrange(p + 1, pk->0 - 1).contains(',') && !c.subrange(
            p + 1,
            pk->0 - 1,
        ).contains('|') {
            let e = pk->0;
            let inner = c.subrange(p + 1, e - 1);
            let (a0, b0) = lemma_trim_shape(inner);
            let a = p + 1 + a0;
            let b = p + 1 + b0;
            assert(inner.subrange(a0, b0) =~= c.subrange(a, b));
            assert forall|j: int| p + 1 <= j < a implies is_white_space(#[trigger] c[j]) by {
                assert(inner[j - p - 1] == c[j]);
            }
            assert forall|j: int| b <= j < e - 1 implies is_white_space(#[trigger] c[j]) by {
                assert(inner[j - p - 1] == c[j]);
            }
            if a < b {
                assert(inner[a0] == c[a]);
                assert(inner[b0 - 1] == c[b - 1]);
            }
            assert(is_trimmed_part(c, p + 1, e - 1, a, b));
            assert(t.out == s.out + pad + seq!['('] + c.subrange(a, b) + seq![')']);
        } else {
            assert(t.out == s.out + pad + seq!['(', '\n']);
        }
    }
}

proof fn lemma_squeeze_first(x: Seq<char>)
    requires
        x.len() > 0,
        !is_white_space(x[0]),
    ensures
        squeeze(x).0.len() > 0,
        squeeze(x).0[0] == x[0],
    decreases x.len(),
{
    if x.len() > 1 {
        let d = x.drop_last();
        assert(d[0] == x[0]);
        lemma_squeeze_first(d);
        let o = squeeze(d).0;
        assert(o.push(' ')[0] == o[0]);
        assert(o.push(' ').push(x.last())[0] == o[0]);
        assert(o.push(x.last())[0] == o[0]);
    } else {
        let d = x.drop_last();
        assert(d.len() == 0);
        assert(squeeze(d).0.len() == 0);
    }
}

/// The text an annotation `c[from..to)` is written as: it starts with `#`,
/// ends with a line break, and has the annotation's characters other than
/// white space, in order.
pub open spec fn annotation_text(rest: Seq<char>, c: Seq<char>, from: int, to: int) -> bool {
    &&& rest.len() > 1
    &&& rest[0] == '#'
    &&& rest.last() == '\n'
    &&& non_white(rest) == non_white(c.subrange(from, to))
}

/// An annotation that starts a line is indented like the block it stands in:
/// the output gains `indent * unit` spaces, then the annotation on one line;
/// the next line starts at the same indentation level.
pub proof fn law_annotation_indented(
    c: Seq<char>,
    r: Seq<(usize, usize)>,
    tree_ok: bool,
    unit: nat,
    s: FmtState,
)
    requires
        0 <= s.pos,
        s.pos + 1 < c.len(),
        c[s.pos] == '#',
        c[s.pos + 1] == '[',
        range_at(r, s.pos) is None,
        s.sol,
    ensures
        step(c, r, tree_ok, unit, s) matches Step::Next(t) ==> {
            &&& t.sol
            &&& t.indent == s.indent
            &&& exists|rest: Seq<char>|
                #[trigger] annotation_text(rest, c, s.pos, t.pos) && t.out == s.out + spaces(
                    s.indent * unit,
                ) + rest
        },
{
    let p = s.pos;
    lemma_lead_in_spaces(s, unit);
    lemma_bracket_end(c, p, '[', ']', 0);
    if let Step::Next(t) = step(c, r, tree_ok, unit, s) {
        let e = t.pos;
        let text = c.subrange(p, e);
        assert(text[0] == '#');
        lemma_squeeze_first(text);
        let jw = join_words(text);
        let rest = jw + seq!['\n'];
        lemma_non_white_squeeze(text);
        lemma_non_white_append(jw, seq!['\n']);
        lemma_non_white_single('\n');
        assert(non_white(rest) =~= non_white(text));
        assert(rest[0] == '#');
        assert(annotation_text(rest, c, p, e));
        assert(t.out =~= s.out + spaces(s.indent * unit) + rest);
    }
}

proof fn lemma_skip_white_back_to(c: Seq<char>, end: int, m: int)
    requires
        0 <= m <= end <= c.len(),
        forall|j: int| m <= j < end ==> is_white_space(#[trigger] c[j]),
        m == 0 || !is_white_space(c[m - 1]),
    ensures
        skip_white_back(c, end) == m,
    decreases end,
{
    if end > m {
        lemma_skip_white_back_to(c, end - 1, m);
    }
}

proof fn lemma_word_start_at(c: Seq<char>, end: int, m: int)
    requires
        0 <= m <= end <= c.len(),
        forall|j: int| m <= j < end ==> !is_word_break(#[trigger] c[j]),
        m == 0 || is_word_break(c[m - 1]),
    ensures
        word_start(c, end) == m,
    decreases end,
{
    if end > m {
        lemma_word_start_at(c, end - 1, m);
    }
}

proof fn lemma_blocks_are_separators(c: Seq<char>, i: int)
    requires
        0 <= i,
        c.len() <= usize::MAX,
    ensures
        forall|k: int|
            0 <= k < separator_blocks_from(c, i).len() ==> is_pattern_separator(
                c,
                #[trigger] separator_blocks_from(c, i)[k].0 as int,
                separator_blocks_from(c, i)[k].1 - 1,
            ),
    decreases c.len() - i,
{
    if i < c.len() {
        if c[i] != '{' {
            lemma_blocks_are_separators(c, i + 1);
            assert(separator_blocks_from(c, i) == separator_blocks_from(c, i + 1));
        } else {
            let f = first_index_from(c, i + 1, '}');
            if f is Some && is_pattern_separator(c, i, f->0) {
                let e = f->0;
                lemma_blocks_are_separators(c, e + 1);
                let rest = separator_blocks_from(c, e + 1);
                let all = separator_blocks_from(c, i);
                assert(all == seq![(i as usize, (e + 1) as usize)] + rest);
                assert forall|k: int| 0 <= k < all.len() implies is_pattern_separator(
                    c,
                    #[trigger] all[k].0 as int,
                    all[k].1 - 1,
                ) by {
                    if k > 0 {
                        assert(all[k] == rest[k - 1]);
                    }
                }
            } else {
                lemma_blocks_are_separators(c, i + 1);
                assert(separator_blocks_from(c, i) == separator_blocks_from(c, i + 1));
            }
        }
    }
}

/// The brace after `rule NAME` or `package NAME` opens the declaration's
/// body: it is never a pattern separator, and no separator range found in
/// the text starts there, whatever characters other than white space and
/// braces the name holds (`/` in `log/syslog` among them).
pub proof fn law_declaration_brace_opens_body(
    pre: Seq<char>,
    kw: Seq<char>,
    w1: Seq<char>,
    name: Seq<char>,
    w2: Seq<char>,
    rest: Seq<char>,
    close: int,
)
    requires
        kw == seq!['r', 'u', 'l', 'e'] || kw == seq!['p', 'a', 'c', 'k', 'a', 'g', 'e'],
        pre.len() + kw.len() + w1.len() + name.len() + w2.len() + 1 + rest.len() <= usize::MAX,
        pre.len() == 0 || is_white_space(pre.last()) || pre.last() == '{' || pre.last() == '}',
        w1.len() > 0,
        forall|k: int| 0 <= k < w1.len() ==> is_white_space(#[trigger] w1[k]),
        forall|k: int| 0 <= k < w2.len() ==> is_white_space(#[trigger] w2[k]),
        name.len() > 0,
        forall|k: int|
            0 <= k < name.len() ==> !is_white_space(#[trigger] name[k]) && name[k] != '{'
                && name[k] != '}',
    ensures
        ({
            let c = pre + kw + w1 + name + w2 + seq!['{'] + rest;
            let open = (pre.len() + kw.len() + w1.len() + name.len() + w2.len()) as int;
            &&& !is_pattern_separator(c, open, close)
            &&& forall|k: int|
                0 <= k < separator_blocks_from(c, 0).len() ==> #[trigger] separator_blocks_from(
                    c,
                    0,
                )[k].0 != open
        }),
{
    let c = pre + kw + w1 + name + w2 + seq!['{'] + rest;
    let pp = pre.len() as int;
    let kk = pp + kw.len();
    let ww = kk + w1.len();
    let nn = ww + name.len();
    let open = nn + w2.len();
    assert(c.subrange(0, pp) =~= pre);
    assert(c.subrange(pp, kk) =~= kw);
    assert(c.subrange(kk, ww) =~= w1);
    assert(c.subrange(ww, nn) =~= name);
    assert(c.subrange(nn, open) =~= w2);
    assert forall|j: int| nn <= j < open implies is_white_space(#[trigger] c[j]) by {
        assert(c[j] == c.subrange(nn, open)[j - nn]);
    }
    assert(c[nn - 1] == c.subrange(ww, nn)[nn - 1 - ww]);
    lemma_skip_white_back_to(c, open, nn);
    assert forall|j: int| ww <= j < nn implies !is_word_break(#[trigger] c[j]) by {
        assert(c[j] == c.subrange(ww, nn)[j - ww]);
    }
    assert(c[ww - 1] == c.subrange(kk, ww)[ww - 1 - kk]);
    lemma_word_start_at(c, nn, ww);
    assert forall|j: int| kk <= j < ww implies is_white_space(#[trigger] c[j]) by {
        assert(c[j] == c.subrange(kk, ww)[j - kk]);
    }
    assert(c[kk - 1] == c.subrange(pp, kk)[kk - 1 - pp]);
    assert(!is_white_space(kw.last()));
    lemma_skip_white_back_to(c, ww, kk);
    assert forall|j: int| pp <= j < kk implies !is_word_break(#[trigger] c[j]) by {
        assert(c[j] == c.subrange(pp, kk)[j - pp]);
        assert(kw[j - pp] != ' ');
    }
    if pp > 0 {
        assert(c[pp - 1] == c.subrange(0, pp)[pp - 1]);
    }
    lemma_word_start_at(c, kk, pp);
    assert(crate::tree::opens_declaration(c, open));
    lemma_blocks_are_separators(c, 0);
}

} // verus!
