//! Line-level shaping of formatted text: newline normalisation of the input,
//! single-spacing of annotations, and the final tidying of the output lines.
use vstd::prelude::*;
use crate::text::{
    is_white_space, is_white_space_char, is_blank, trim_end, all_white_space, push_range,
};

verus! {

/// The character that replaces position `k` of `s` when line endings are
/// normalised: `"\r\n"` becomes `"\n"` and a lone `'\r'` becomes `'\n'`.
pub open spec fn normalized_piece(s: Seq<char>, k: int) -> Seq<char> {
    if s[k] == '\r' {
        if k + 1 < s.len() && s[k + 1] == '\n' {
            Seq::empty()
        } else {
            seq!['\n']
        }
    } else {
        seq![s[k]]
    }
}

/// The first `j` characters of `s` with line endings normalised.
pub open spec fn normalized_prefix(s: Seq<char>, j: int) -> Seq<char>
    decreases j,
{
    if j <= 0 {
        Seq::empty()
    } else {
        normalized_prefix(s, j - 1) + normalized_piece(s, j - 1)
    }
}

/// `s` with every `"\r\n"` and every remaining `'\r'` replaced by `'\n'`.
pub open spec fn normalize_newlines(s: Seq<char>) -> Seq<char> {
    normalized_prefix(s, s.len() as int)
}

/// The words of `s` (maximal runs without white space) joined by single
/// spaces, paired with whether a space is pending before the next word.
pub open spec fn squeeze(s: Seq<char>) -> (Seq<char>, bool)
    decreases s.len(),
{
    if s.len() == 0 {
        (Seq::empty(), false)
    } else {
        let (o, pending) = squeeze(s.drop_last());
        let ch = s.last();
        if is_white_space(ch) {
            (o, o.len() > 0)
        } else if pending {
            (o.push(' ').push(ch), false)
        } else {
            (o.push(ch), false)
        }
    }
}

/// The words of `s` joined by single spaces.
pub open spec fn join_words(s: Seq<char>) -> Seq<char> {
    squeeze(s).0
}

/// `s` split at every `'\n'` (always at least one, possibly empty, piece).
pub open spec fn split_lines(s: Seq<char>) -> Seq<Seq<char>>
    decreases s.len(),
{
    if s.len() == 0 {
        seq![Seq::empty()]
    } else {
        let ls = split_lines(s.drop_last());
        if s.last() == '\n' {
            ls.push(Seq::empty())
        } else {
            ls.update(ls.len() - 1, ls.last().push(s.last()))
        }
    }
}

/// What line `k` of `ls` contributes to the output: nothing when it and the
/// line before it are both blank, else the line without trailing white
/// space, followed by `'\n'`.
pub open spec fn kept_line(ls: Seq<Seq<char>>, k: int) -> Seq<char> {
    if is_blank(ls[k]) && k > 0 && is_blank(ls[k - 1]) {
        Seq::empty()
    } else {
        trim_end(ls[k]).push('\n')
    }
}

/// The lines of `ls` with trailing white space removed and runs of blank
/// lines reduced to one, each ended by `'\n'`.
pub open spec fn tidy_lines(ls: Seq<Seq<char>>) -> Seq<char>
    decreases ls.len(),
{
    if ls.len() == 0 {
        Seq::empty()
    } else {
        tidy_lines(ls.drop_last()) + kept_line(ls, ls.len() - 1)
    }
}

/// `s` without the final newlines that make it end in three of them.
pub open spec fn drop_extra_newlines(s: Seq<char>) -> Seq<char>
    decreases s.len(),
{
    if s.len() >= 3 && s[s.len() - 1] == '\n' && s[s.len() - 2] == '\n' && s[s.len() - 3]
        == '\n' {
        drop_extra_newlines(s.drop_last())
    } else {
        s
    }
}

/// The final shape of formatted text `out`: trailing white space removed,
/// then each line tidied (see `tidy_lines`).
pub open spec fn finish_output(out: Seq<char>) -> Seq<char> {
    let t = trim_end(out);
    drop_extra_newlines(
        if t.len() == 0 {
            Seq::empty()
        } else {
            tidy_lines(split_lines(t))
        },
    )
}

pub proof fn lemma_split_lines_nonempty(s: Seq<char>)
    ensures
        split_lines(s).len() >= 1,
    decreases s.len(),
{
    if s.len() > 0 {
        lemma_split_lines_nonempty(s.drop_last());
    }
}

/// Line endings of `s` normalised (see `normalize_newlines`).
pub fn normalize_line_endings(s: &Vec<char>) -> (r: Vec<char>)
    ensures
        r@ == normalize_newlines(s@),
{
    let mut r: Vec<char> = Vec::new();
    let mut j: usize = 0;
    while j < s.len()
        invariant
            j <= s.len(),
            r@ == normalized_prefix(s@, j as int),
        decreases s.len() - j,
    {
        let ch = s[j];
        if ch == '\r' {
            if j + 1 < s.len() && s[j + 1] == '\n' {
                assert(r@ + Seq::<char>::empty() =~= r@);
            } else {
                r.push('\n');
                assert(r@ =~= normalized_prefix(s@, j as int) + seq!['\n']);
            }
        } else {
            r.push(ch);
            assert(r@ =~= normalized_prefix(s@, j as int) + seq![ch]);
        }
        j += 1;
    }
    r
}

/// Appends the words of `c[from..to]`, joined by single spaces, to `out`.
pub fn push_joined_words(c: &Vec<char>, from: usize, to: usize, out: &mut Vec<char>)
    requires
        from <= to <= c.len(),
    ensures
        final(out)@ == old(out)@ + join_words(c@.subrange(from as int, to as int)),
{
    let ghost base = out@;
    let base_len = out.len();
    let mut pending = false;
    let mut j = from;
    assert(c@.subrange(from as int, from as int) =~= Seq::<char>::empty());
    assert(base + Seq::<char>::empty() =~= base);
    while j < to
        invariant
            from <= j <= to <= c.len(),
            base == old(out)@,
            base_len == base.len(),
            base.len() <= out@.len(),
            squeeze(c@.subrange(from as int, j as int)) == (out@.subrange(
                base.len() as int,
                out@.len() as int,
            ), pending),
            out@ == base + out@.subrange(base.len() as int, out@.len() as int),
        decreases to - j,
    {
        let ch = c[j];
        let ghost prev = out@;
        assert(c@.subrange(from as int, j + 1).drop_last() =~= c@.subrange(from as int, j as int));
        if is_white_space_char(ch) {
            pending = out.len() > base_len;
        } else if pending {
            out.push(' ');
            out.push(ch);
            pending = false;
            assert(out@.subrange(base.len() as int, out@.len() as int) =~= prev.subrange(
                base.len() as int,
                prev.len() as int,
            ).push(' ').push(ch));
        } else {
            out.push(ch);
            assert(out@.subrange(base.len() as int, out@.len() as int) =~= prev.subrange(
                base.len() as int,
                prev.len() as int,
            ).push(ch));
        }
        assert(out@ =~= base + out@.subrange(base.len() as int, out@.len() as int));
        j += 1;
    }
}

/// Emits one line of the output (see `kept_line`) and returns whether it
/// was blank.
fn emit_line(c: &Vec<char>, from: usize, to: usize, last_blank: bool, out: &mut Vec<char>) -> (r:
    bool)
    requires
        from <= to <= c.len(),
    ensures
        r == is_blank(c@.subrange(from as int, to as int)),
        final(out)@ == old(out)@ + if r && last_blank {
            Seq::empty()
        } else {
            trim_end(c@.subrange(from as int, to as int)).push('\n')
        },
{
    let blank = all_white_space(c, from, to);
    if blank && last_blank {
        assert(out@ + Seq::<char>::empty() =~= out@);
        return blank;
    }
    let ghost line = c@.subrange(from as int, to as int);
    let mut b = to;
    while b > from && is_white_space_char(c[b - 1])
        invariant
            from <= b <= to <= c.len(),
            line == c@.subrange(from as int, to as int),
            trim_end(line) == trim_end(c@.subrange(from as int, b as int)),
        decreases b,
    {
        assert(c@.subrange(from as int, b as int).drop_last() =~= c@.subrange(from as int, b - 1));
        b -= 1;
    }
    assert(trim_end(c@.subrange(from as int, b as int)) == c@.subrange(from as int, b as int));
    push_range(c, from, b, out);
    out.push('\n');
    assert(out@ =~= old(out)@ + trim_end(line).push('\n'));
    blank
}

/// The final shape of the formatted text `out` (see `finish_output`).
pub fn finish(out: &Vec<char>) -> (r: Vec<char>)
    ensures
        r@ == finish_output(out@),
{
    let mut b = out.len();
    assert(out@.subrange(0, out.len() as int) =~= out@);
    while b > 0 && is_white_space_char(out[b - 1])
        invariant
            b <= out.len(),
            trim_end(out@) == trim_end(out@.subrange(0, b as int)),
        decreases b,
    {
        assert(out@.subrange(0, b as int).drop_last() =~= out@.subrange(0, b - 1));
        b -= 1;
    }
    assert(trim_end(out@.subrange(0, b as int)) == out@.subrange(0, b as int));
    let ghost t = out@.subrange(0, b as int);
    let mut res: Vec<char> = Vec::new();
    if b > 0 {
        let ghost mut done: Seq<Seq<char>> = Seq::empty();
        let mut line_start: usize = 0;
        let mut last_blank = false;
        let mut j: usize = 0;
        assert(t.subrange(0, 0) =~= Seq::<char>::empty());
        assert(out@.subrange(0, 0) =~= Seq::<char>::empty());
        assert(split_lines(t.subrange(0, 0)) =~= Seq::<Seq<char>>::empty().push(
            out@.subrange(0, 0),
        ));
        while j < b
            invariant
                line_start <= j <= b <= out.len(),
                t == out@.subrange(0, b as int),
                split_lines(t.subrange(0, j as int)) == done.push(
                    out@.subrange(line_start as int, j as int),
                ),
                res@ == tidy_lines(done),
                last_blank == (done.len() > 0 && is_blank(done.last())),
            decreases b - j,
        {
            let ghost cur = out@.subrange(line_start as int, j as int);
            assert(t.subrange(0, j + 1).drop_last() =~= t.subrange(0, j as int));
            assert(t.subrange(0, j + 1).last() == out@[j as int]);
            if out[j] == '\n' {
                let ghost nd = done.push(cur);
                let blank = emit_line(out, line_start, j, last_blank, &mut res);
                proof {
                    assert(nd.drop_last() =~= done);
                    assert(nd.last() == cur);
                    if done.len() > 0 {
                        assert(nd[nd.len() - 2] == done.last());
                    }
                    assert(tidy_lines(nd) == tidy_lines(done) + kept_line(nd, nd.len() - 1));
                    done = nd;
                    assert(out@.subrange(j + 1, j + 1) =~= Seq::<char>::empty());
                    assert(split_lines(t.subrange(0, j + 1)) =~= done.push(
                        out@.subrange(j + 1, j + 1),
                    ));
                }
                last_blank = blank;
                line_start = j + 1;
            } else {
                proof {
                    let ls = done.push(cur);
                    assert(out@.subrange(line_start as int, j + 1) =~= cur.push(out@[j as int]));
                    assert(ls.update(ls.len() - 1, ls.last().push(out@[j as int])) =~= done.push(
                        out@.subrange(line_start as int, j + 1),
                    ));
                }
            }
            j += 1;
        }
        let ghost cur = out@.subrange(line_start as int, b as int);
        let ghost nd = done.push(cur);
        emit_line(out, line_start, b, last_blank, &mut res);
        proof {
            assert(t.subrange(0, b as int) =~= t);
            assert(nd.drop_last() =~= done);
            assert(nd.last() == cur);
            if done.len() > 0 {
                assert(nd[nd.len() - 2] == done.last());
            }
            assert(tidy_lines(nd) == tidy_lines(done) + kept_line(nd, nd.len() - 1));
        }
    }
    let ghost before = res@;
    while res.len() >= 3 && res[res.len() - 1] == '\n' && res[res.len() - 2] == '\n' && res[res.len()
        - 3] == '\n'
        invariant
            drop_extra_newlines(res@) == drop_extra_newlines(before),
        decreases res.len(),
    {
        let ghost prev = res@;
        res.pop();
        assert(res@ =~= prev.drop_last());
    }
    res
}

} // verus!
