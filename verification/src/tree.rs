//! Separator blocks of WPL text and queries over them, and the indentation
//! inferred for a closing bracket that has no matching opener.
//!
//! Braces occur in WPL as the bodies of `package` and `rule` declarations,
//! as the body of a `plg_pipe(...)` block, and as pattern separators such as
//! `{||}` in `chars:name{||}` or `{, }` in `digit{, }:numbers`. A pattern
//! separator is therefore recognised as a brace block that follows some
//! other text outside a `//` comment, opens no declaration or plugin body,
//! and reaches the first `}` without crossing another `{` or a line break. Such blocks are copied
//! verbatim by the formatter. Positions are character indices.
use vstd::prelude::*;
use crate::text::{
    is_white_space, is_white_space_char, trim, trim_end, all_white_space, trim_bounds,
};

verus! {

/// The ranges' start positions strictly increase.
pub open spec fn starts_increasing(r: Seq<(usize, usize)>) -> bool {
    forall|a: int, b: int| 0 <= a < b < r.len() ==> #[trigger] r[a].0 < #[trigger] r[b].0
}

/// Ranges usable by the formatter on a text of `n` characters: sorted by
/// strictly increasing start, each non-empty and within the text.
pub open spec fn ranges_well_formed(r: Seq<(usize, usize)>, n: int) -> bool {
    &&& starts_increasing(r)
    &&& forall|k: int| 0 <= k < r.len() ==> #[trigger] r[k].0 < r[k].1 && r[k].1 <= n
}

/// Index of the last range whose start is at most `off`, or -1.
pub open spec fn last_start_at_most(r: Seq<(usize, usize)>, off: int) -> int
    decreases r.len(),
{
    if r.len() == 0 {
        -1
    } else if r.last().0 <= off {
        r.len() - 1
    } else {
        last_start_at_most(r.drop_last(), off)
    }
}

/// The range that applies at position `off`: the last range starting at or
/// before `off`, when it starts exactly at `off` or still covers `off`.
pub open spec fn range_at(r: Seq<(usize, usize)>, off: int) -> Option<(usize, usize)> {
    let k = last_start_at_most(r, off);
    if k < 0 {
        None
    } else if r[k].0 == off || off < r[k].1 {
        Some(r[k])
    } else {
        None
    }
}

/// End of the first range in `r[k..]` that starts at `start`.
pub open spec fn end_of_range_starting(r: Seq<(usize, usize)>, start: int, k: int) -> Option<int>
    decreases r.len() - k,
{
    if k < 0 || k >= r.len() {
        None
    } else if r[k].0 == start {
        Some(r[k].1 as int)
    } else {
        end_of_range_starting(r, start, k + 1)
    }
}

/// End of the separator block that opens with the `{` at `start`, if a
/// range starts there.
pub open spec fn separator_block_end(c: Seq<char>, start: int, r: Seq<(usize, usize)>) -> Option<
    int,
> {
    if 0 <= start < c.len() && c[start] == '{' {
        end_of_range_starting(r, start, 0)
    } else {
        None
    }
}

/// First position at or after `j` that holds `ch`.
pub open spec fn first_index_from(c: Seq<char>, j: int, ch: char) -> Option<int>
    decreases c.len() - j,
{
    if j < 0 || j >= c.len() {
        None
    } else if c[j] == ch {
        Some(j)
    } else {
        first_index_from(c, j + 1, ch)
    }
}

/// Characters that cannot occur inside a pattern separator.
pub open spec fn is_block_char(ch: char) -> bool {
    ch == '{' || ch == '\n'
}

/// `end` moved back over the white space that ends `c[..end]`.
pub open spec fn skip_white_back(c: Seq<char>, end: int) -> int
    decreases end,
{
    if end <= 0 || end > c.len() || !is_white_space(c[end - 1]) {
        end
    } else {
        skip_white_back(c, end - 1)
    }
}

/// A character that ends a word: white space or a brace.
pub open spec fn is_word_break(ch: char) -> bool {
    is_white_space(ch) || ch == '{' || ch == '}'
}

/// Start of the word (the run of characters other than white space and
/// braces) that ends at `end`.
pub open spec fn word_start(c: Seq<char>, end: int) -> int
    decreases end,
{
    if end <= 0 || end > c.len() || is_word_break(c[end - 1]) {
        end
    } else {
        word_start(c, end - 1)
    }
}

/// Position of the last `ch` before `end`, or -1.
pub open spec fn last_index_before(c: Seq<char>, end: int, ch: char) -> int
    decreases end,
{
    if end <= 0 || end > c.len() {
        -1
    } else if c[end - 1] == ch {
        end - 1
    } else {
        last_index_before(c, end - 1, ch)
    }
}

/// A line comment (`//`) starts on the line of `end`, before `end`.
pub open spec fn comment_before(c: Seq<char>, end: int) -> bool
    decreases end,
{
    if end < 2 || end > c.len() || c[end - 1] == '\n' {
        false
    } else if c[end - 2] == '/' && c[end - 1] == '/' {
        true
    } else {
        comment_before(c, end - 1)
    }
}

/// The keyword of a rule declaration.
pub open spec fn rule_keyword() -> Seq<char> {
    seq!['r', 'u', 'l', 'e']
}

/// The keyword of a package declaration.
pub open spec fn package_keyword() -> Seq<char> {
    seq!['p', 'a', 'c', 'k', 'a', 'g', 'e']
}

/// The name of the plugin pipeline block.
pub open spec fn plugin_keyword() -> Seq<char> {
    seq!['p', 'l', 'g', '_', 'p', 'i', 'p', 'e']
}

/// The `{` at `open` opens the body of a declaration: the two words before
/// it (words end at white space and braces) are `rule` or `package` and the
/// declared name.
pub open spec fn opens_declaration(c: Seq<char>, open: int) -> bool {
    let name_end = skip_white_back(c, open);
    let name_start = word_start(c, name_end);
    let kw_end = skip_white_back(c, name_start);
    let kw = c.subrange(word_start(c, kw_end), kw_end);
    &&& name_start < name_end
    &&& kw_end < name_start
    &&& (kw == rule_keyword() || kw == package_keyword())
}

/// The `{` at `open` opens the body of a `plg_pipe(...)` block: the last
/// character before it, white space aside, is a `)`, and the last `(`
/// before that follows the word `plg_pipe`.
pub open spec fn opens_plugin_block(c: Seq<char>, open: int) -> bool {
    let e = skip_white_back(c, open);
    let p = last_index_before(c, e - 1, '(');
    &&& e > 0
    &&& c[e - 1] == ')'
    &&& p >= 8
    &&& c.subrange(p - 8, p) == plugin_keyword()
}

/// The braces at `open` and `close` delimit a pattern separator.
pub open spec fn is_pattern_separator(c: Seq<char>, open: int, close: int) -> bool {
    &&& 0 <= open < close < c.len()
    &&& c[open] == '{'
    &&& c[close] == '}'
    &&& skip_white_back(c, open) > 0
    &&& !comment_before(c, open)
    &&& !opens_declaration(c, open)
    &&& !opens_plugin_block(c, open)
    &&& forall|k: int| open < k < close ==> !is_block_char(#[trigger] c[k])
}

/// The pattern separator blocks `[open, close + 1)` found scanning from `i`.
pub open spec fn separator_blocks_from(c: Seq<char>, i: int) -> Seq<(usize, usize)>
    decreases c.len() - i,
{
    if i < 0 || i >= c.len() {
        Seq::empty()
    } else if c[i] != '{' {
        separator_blocks_from(c, i + 1)
    } else {
        let f = first_index_from(c, i + 1, '}');
        if f is Some && is_pattern_separator(c, i, f->0) {
            seq![(i as usize, (f->0 + 1) as usize)] + separator_blocks_from(c, f->0 + 1)
        } else {
            separator_blocks_from(c, i + 1)
        }
    }
}

/// Position of the last `'\n'` before `end`, or -1.
pub open spec fn last_newline_before(s: Seq<char>, end: int) -> int
    decreases end,
{
    if end <= 0 {
        -1
    } else if s[end - 1] == '\n' {
        end - 1
    } else {
        last_newline_before(s, end - 1)
    }
}

/// A closing bracket character.
pub open spec fn is_closer_char(ch: char) -> bool {
    ch == ')' || ch == '}' || ch == ']'
}

/// A line that holds something besides white space and closing brackets.
pub open spec fn is_content_line(seg: Seq<char>) -> bool {
    let t = trim(seg);
    t.len() > 0 && !(forall|k: int| 0 <= k < t.len() ==> is_closer_char(#[trigger] t[k]))
}

pub proof fn lemma_last_newline_before(s: Seq<char>, end: int)
    ensures
        -1 <= last_newline_before(s, end),
        end > 0 ==> last_newline_before(s, end) < end,
        end <= 0 ==> last_newline_before(s, end) == -1,
    decreases end,
{
    if end > 0 && s[end - 1] != '\n' {
        lemma_last_newline_before(s, end - 1);
    }
}

/// The last content line of `s[..end]`, scanning lines from the end; empty
/// when there is none.
pub open spec fn last_content_line(s: Seq<char>, end: int) -> Seq<char>
    decreases end,
{
    if end < 0 {
        Seq::empty()
    } else {
        let k = last_newline_before(s, end);
        let seg = s.subrange(k + 1, end);
        if is_content_line(seg) {
            seg
        } else if k < 0 {
            Seq::empty()
        } else {
            proof {
                lemma_last_newline_before(s, end);
            }
            last_content_line(s, k)
        }
    }
}

/// Number of spaces (U+0020) at the start of `s`.
pub open spec fn leading_spaces(s: Seq<char>) -> nat
    decreases s.len(),
{
    if s.len() > 0 && s[0] == ' ' {
        1 + leading_spaces(s.drop_first())
    } else {
        0
    }
}

/// The indentation level for a closing bracket without opener: taken from
/// the last content line of `out` (its leading spaces in units of `unit`),
/// one level less unless that line opens a block or is an annotation.
pub open spec fn closing_indent(out: Seq<char>, unit: int) -> int {
    let line = last_content_line(out, out.len() as int);
    let lead = leading_spaces(line) as int;
    let t = trim_end(line);
    let opens = t.len() > 0 && (t.last() == '{' || t.last() == '(' || t.last() == '[');
    let annotation = t.len() >= 2 && t[0] == '#' && t[1] == '[';
    if opens || annotation {
        lead / unit
    } else if lead >= unit {
        lead / unit - 1
    } else {
        0
    }
}

proof fn lemma_last_start_split(r: Seq<(usize, usize)>, off: int, lo: int)
    requires
        0 <= lo <= r.len(),
        forall|a: int| 0 <= a < lo ==> #[trigger] r[a].0 <= off,
        forall|a: int| lo <= a < r.len() ==> #[trigger] r[a].0 > off,
    ensures
        last_start_at_most(r, off) == lo - 1,
    decreases r.len(),
{
    if r.len() > 0 && r.last().0 > off {
        let d = r.drop_last();
        assert forall|a: int| 0 <= a < lo implies #[trigger] d[a].0 <= off by {
            assert(d[a] == r[a]);
        }
        assert forall|a: int| lo <= a < d.len() implies #[trigger] d[a].0 > off by {
            assert(d[a] == r[a]);
        }
        lemma_last_start_split(d, off, lo);
    }
}

/// The range that applies at position `offset` (binary search by start).
pub fn find_range_at(ranges: &Vec<(usize, usize)>, offset: usize) -> (r: Option<(usize, usize)>)
    requires
        starts_increasing(ranges@),
    ensures
        r == range_at(ranges@, offset as int),
{
    if ranges.len() == 0 {
        return None;
    }
    let mut lo: usize = 0;
    let mut hi: usize = ranges.len();
    while lo < hi
        invariant
            0 <= lo <= hi <= ranges.len(),
            starts_increasing(ranges@),
            forall|a: int| 0 <= a < lo ==> #[trigger] ranges@[a].0 <= offset,
            forall|a: int| hi <= a < ranges.len() ==> #[trigger] ranges@[a].0 > offset,
        decreases hi - lo,
    {
        let mid = lo + (hi - lo) / 2;
        if ranges[mid].0 <= offset {
            assert forall|a: int| 0 <= a < mid + 1 implies #[trigger] ranges@[a].0 <= offset by {
                if a < mid {
                    assert(ranges@[a].0 < ranges@[mid as int].0);
                }
            }
            lo = mid + 1;
        } else {
            assert forall|a: int| mid <= a < ranges.len() implies #[trigger] ranges@[a].0
                > offset by {
                if a > mid {
                    assert(ranges@[mid as int].0 < ranges@[a].0);
                }
            }
            hi = mid;
        }
    }
    proof {
        lemma_last_start_split(ranges@, offset as int, lo as int);
    }
    if lo == 0 {
        return None;
    }
    let (start, end) = ranges[lo - 1];
    if start == offset {
        Some((start, end))
    } else if offset >= start && offset < end {
        Some((start, end))
    } else {
        None
    }
}

/// End of the separator block whose `{` stands at `start`, if a range
/// starts there.
pub fn find_separator_block(c: &Vec<char>, start: usize, ranges: &Vec<(usize, usize)>) -> (r:
    Option<usize>)
    ensures
        match separator_block_end(c@, start as int, ranges@) {
            Some(e) => r == Some(e as usize),
            None => r is None,
        },
{
    if start >= c.len() || c[start] != '{' {
        return None;
    }
    let mut k: usize = 0;
    while k < ranges.len()
        invariant
            k <= ranges.len(),
            start < c.len(),
            c@[start as int] == '{',
            end_of_range_starting(ranges@, start as int, k as int) == end_of_range_starting(
                ranges@,
                start as int,
                0,
            ),
        decreases ranges.len() - k,
    {
        if ranges[k].0 == start {
            return Some(ranges[k].1);
        }
        k += 1;
    }
    None
}

proof fn lemma_separator_blocks(c: Seq<char>, i: int)
    requires
        0 <= i,
        c.len() <= usize::MAX,
    ensures
        forall|k: int|
            0 <= k < separator_blocks_from(c, i).len() ==> {
                let b = #[trigger] separator_blocks_from(c, i)[k];
                i <= b.0 < b.1 <= c.len()
            },
        forall|a: int, b: int|
            0 <= a < b < separator_blocks_from(c, i).len() ==> #[trigger] separator_blocks_from(
                c,
                i,
            )[a].1 <= #[trigger] separator_blocks_from(c, i)[b].0,
    decreases c.len() - i,
{
    if i < c.len() {
        if c[i] != '{' {
            lemma_separator_blocks(c, i + 1);
            assert(separator_blocks_from(c, i) == separator_blocks_from(c, i + 1));
        } else {
            let f = first_index_from(c, i + 1, '}');
            if f is Some && is_pattern_separator(c, i, f->0) {
                let e = f->0;
                lemma_separator_blocks(c, e + 1);
                let rest = separator_blocks_from(c, e + 1);
                let all = separator_blocks_from(c, i);
                assert(all == seq![(i as usize, (e + 1) as usize)] + rest);
                assert forall|k: int| 0 <= k < all.len() implies {
                    let b = #[trigger] all[k];
                    i <= b.0 < b.1 <= c.len()
                } by {
                    if k > 0 {
                        assert(all[k] == rest[k - 1]);
                    }
                }
                assert forall|a: int, b: int| 0 <= a < b < all.len() implies #[trigger] all[a].1
                    <= #[trigger] all[b].0 by {
                    assert(all[b] == rest[b - 1]);
                    if a > 0 {
                        assert(all[a] == rest[a - 1]);
                    }
                }
            } else {
                lemma_separator_blocks(c, i + 1);
                assert(separator_blocks_from(c, i) == separator_blocks_from(c, i + 1));
            }
        }
    }
}

/// The pattern separator blocks of `c` satisfy the formatter's requirements
/// on ranges.
pub proof fn lemma_separator_blocks_well_formed(c: Seq<char>)
    requires
        c.len() <= usize::MAX,
    ensures
        ranges_well_formed(separator_blocks_from(c, 0), c.len() as int),
{
    lemma_separator_blocks(c, 0);
    let r = separator_blocks_from(c, 0);
    assert forall|a: int, b: int| 0 <= a < b < r.len() implies #[trigger] r[a].0 < #[trigger] r[
        b
    ].0 by {
        assert(r[a].1 <= r[b].0);
    }
    assert forall|k: int| 0 <= k < r.len() implies #[trigger] r[k].0 < r[k].1 && r[k].1
        <= c.len() by {
        let b = r[k];
    }
}

/// `end` moved back over the white space that ends `c[..end]`.
fn skip_white_back_from(c: &Vec<char>, end: usize) -> (r: usize)
    requires
        end <= c.len(),
    ensures
        r as int == skip_white_back(c@, end as int),
        r <= end,
{
    let mut e = end;
    while e > 0 && is_white_space_char(c[e - 1])
        invariant
            e <= end <= c.len(),
            skip_white_back(c@, e as int) == skip_white_back(c@, end as int),
        decreases e,
    {
        e -= 1;
    }
    e
}

/// Start of the word that ends at `end`.
fn word_start_from(c: &Vec<char>, end: usize) -> (r: usize)
    requires
        end <= c.len(),
    ensures
        r as int == word_start(c@, end as int),
        r <= end,
{
    let mut e = end;
    while e > 0 && !(is_white_space_char(c[e - 1]) || c[e - 1] == '{' || c[e - 1] == '}')
        invariant
            e <= end <= c.len(),
            word_start(c@, e as int) == word_start(c@, end as int),
        decreases e,
    {
        e -= 1;
    }
    e
}

/// Position of the last `ch` before `end`.
fn last_index_of_before(c: &Vec<char>, end: usize, ch: char) -> (r: Option<usize>)
    requires
        end <= c.len(),
    ensures
        match r {
            Some(k) => k as int == last_index_before(c@, end as int, ch) && k < end,
            None => last_index_before(c@, end as int, ch) == -1,
        },
{
    let mut e = end;
    while e > 0 && c[e - 1] != ch
        invariant
            e <= end <= c.len(),
            last_index_before(c@, e as int, ch) == last_index_before(c@, end as int, ch),
        decreases e,
    {
        e -= 1;
    }
    if e == 0 {
        None
    } else {
        Some(e - 1)
    }
}

/// Whether a line comment starts on the line of `end`, before `end`.
fn comment_before_at(c: &Vec<char>, end: usize) -> (r: bool)
    requires
        end <= c.len(),
    ensures
        r == comment_before(c@, end as int),
{
    let mut e = end;
    while e >= 2 && c[e - 1] != '\n'
        invariant
            e <= end <= c.len(),
            comment_before(c@, e as int) == comment_before(c@, end as int),
        decreases e,
    {
        if c[e - 2] == '/' && c[e - 1] == '/' {
            return true;
        }
        e -= 1;
    }
    false
}

/// Whether `c[from..to]` spells `w`.
fn spells(c: &Vec<char>, from: usize, to: usize, w: &Vec<char>) -> (r: bool)
    requires
        from <= to <= c.len(),
    ensures
        r == (c@.subrange(from as int, to as int) == w@),
{
    if to - from != w.len() {
        return false;
    }
    let mut k: usize = 0;
    while k < w.len()
        invariant
            k <= w.len(),
            from <= to <= c.len(),
            to - from == w.len(),
            forall|m: int| 0 <= m < k ==> c@[from + m] == w@[m],
        decreases w.len() - k,
    {
        if c[from + k] != w[k] {
            assert(c@.subrange(from as int, to as int)[k as int] != w@[k as int]);
            return false;
        }
        k += 1;
    }
    assert(c@.subrange(from as int, to as int) =~= w@);
    true
}

/// Whether the `{` at `open` opens the body of a declaration.
fn opens_declaration_at(c: &Vec<char>, open: usize) -> (r: bool)
    requires
        open <= c.len(),
    ensures
        r == opens_declaration(c@, open as int),
{
    let name_end = skip_white_back_from(c, open);
    let name_start = word_start_from(c, name_end);
    let kw_end = skip_white_back_from(c, name_start);
    let kw_start = word_start_from(c, kw_end);
    if !(name_start < name_end && kw_end < name_start) {
        return false;
    }
    let rule_kw = vec!['r', 'u', 'l', 'e'];
    let package_kw = vec!['p', 'a', 'c', 'k', 'a', 'g', 'e'];
    assert(rule_kw@ =~= rule_keyword());
    assert(package_kw@ =~= package_keyword());
    spells(c, kw_start, kw_end, &rule_kw) || spells(c, kw_start, kw_end, &package_kw)
}

/// Whether the `{` at `open` opens the body of a `plg_pipe(...)` block.
fn opens_plugin_block_at(c: &Vec<char>, open: usize) -> (r: bool)
    requires
        open <= c.len(),
    ensures
        r == opens_plugin_block(c@, open as int),
{
    let e = skip_white_back_from(c, open);
    if e == 0 || c[e - 1] != ')' {
        return false;
    }
    match last_index_of_before(c, e - 1, '(') {
        None => false,
        Some(p) => {
            if p < 8 {
                false
            } else {
                let kw = vec!['p', 'l', 'g', '_', 'p', 'i', 'p', 'e'];
                assert(kw@ =~= plugin_keyword());
                spells(c, p - 8, p, &kw)
            }
        },
    }
}

/// Whether the braces at `open` and `close` delimit a pattern separator.
fn is_separator_between(c: &Vec<char>, open: usize, close: usize) -> (r: bool)
    requires
        open < close < c.len(),
        c@[open as int] == '{',
        c@[close as int] == '}',
    ensures
        r == is_pattern_separator(c@, open as int, close as int),
{
    if skip_white_back_from(c, open) == 0 || comment_before_at(c, open) {
        return false;
    }
    if opens_declaration_at(c, open) || opens_plugin_block_at(c, open) {
        return false;
    }
    let mut k = open + 1;
    while k < close
        invariant
            open < k <= close < c.len(),
            forall|m: int| open < m < k ==> !is_block_char(#[trigger] c@[m]),
        decreases close - k,
    {
        let ch = c[k];
        if ch == '{' || ch == '\n' {
            return false;
        }
        k += 1;
    }
    true
}

/// The pattern separator blocks of `c`, as ranges `[open, close + 1)`.
pub fn collect_pattern_sep_blocks(c: &Vec<char>) -> (r: Vec<(usize, usize)>)
    ensures
        r@ == separator_blocks_from(c@, 0),
{
    let mut res: Vec<(usize, usize)> = Vec::new();
    let mut i: usize = 0;
    while i < c.len()
        invariant
            i <= c.len(),
            res@ + separator_blocks_from(c@, i as int) == separator_blocks_from(c@, 0),
        decreases c.len() - i,
    {
        if c[i] != '{' {
            i += 1;
            continue;
        }
        let mut e = i + 1;
        while e < c.len() && c[e] != '}'
            invariant
                i < e <= c.len(),
                first_index_from(c@, e as int, '}') == first_index_from(c@, i + 1, '}'),
            decreases c.len() - e,
        {
            e += 1;
        }
        if e < c.len() && is_separator_between(c, i, e) {
            let ghost old_res = res@;
            res.push((i, e + 1));
            assert(res@ + separator_blocks_from(c@, e + 1) =~= old_res + (seq![
                (i, (e + 1) as usize),
            ] + separator_blocks_from(c@, e + 1)));
            i = e + 1;
        } else {
            i += 1;
        }
    }
    assert(res@ + separator_blocks_from(c@, i as int) =~= res@);
    res
}

/// The separator ranges of `c`, and whether the text's structure was
/// recognised (always, for this recogniser).
pub fn collect_separator_ranges(c: &Vec<char>) -> (r: (Vec<(usize, usize)>, bool))
    ensures
        r.0@ == separator_blocks_from(c@, 0),
        r.1,
        ranges_well_formed(r.0@, c.len() as int),
{
    let blocks = collect_pattern_sep_blocks(c);
    proof {
        assert(c@.len() == c.len());
        lemma_separator_blocks_well_formed(c@);
    }
    (blocks, true)
}

/// A separator node's byte range widened by the braces that enclose it:
/// by the `{` right before it and the `}` right after it, where they stand.
pub open spec fn widened_range(range: (usize, usize), b: Seq<u8>) -> (int, int) {
    let start: int = if range.0 > 0 && range.0 <= b.len() && b[range.0 - 1] == 123u8 {
        range.0 - 1
    } else {
        range.0 as int
    };
    let end: int = if range.1 < b.len() && b[range.1 as int] == 125u8 {
        range.1 + 1
    } else {
        range.1 as int
    };
    (start, end)
}

/// Widens a separator node's byte range by its enclosing braces.
pub fn expand_separator_range(range: (usize, usize), b: &Vec<u8>) -> (r: (usize, usize))
    ensures
        r.0 as int == widened_range(range, b@).0,
        r.1 as int == widened_range(range, b@).1,
{
    let (mut start, mut end) = range;
    if start > 0 && start <= b.len() && b[start - 1] == 123u8 {
        start -= 1;
    }
    if end < b.len() && b[end] == 125u8 {
        end += 1;
    }
    (start, end)
}

/// Number of entries of `s` below `x`.
pub open spec fn count_below(s: Seq<usize>, x: int) -> nat
    decreases s.len(),
{
    if s.len() == 0 {
        0
    } else {
        count_below(s.drop_last(), x) + if s.last() < x {
            1nat
        } else {
            0nat
        }
    }
}

/// The entries of `s` strictly increase.
pub open spec fn strictly_increasing(s: Seq<usize>) -> bool {
    forall|a: int, b: int| 0 <= a < b < s.len() ==> #[trigger] s[a] < #[trigger] s[b]
}

/// The character index of byte offset `end` in a text of `input_len` bytes
/// whose characters start at the byte offsets `offsets`: the number of
/// characters that start before `end`, or all of them from the end on.
pub open spec fn char_index_of(offsets: Seq<usize>, end: int, input_len: int) -> int {
    if end >= input_len {
        offsets.len() as int
    } else {
        count_below(offsets, end) as int
    }
}

proof fn lemma_count_below_split(s: Seq<usize>, x: int, lo: int)
    requires
        0 <= lo <= s.len(),
        forall|a: int| 0 <= a < lo ==> #[trigger] s[a] < x,
        forall|a: int| lo <= a < s.len() ==> #[trigger] s[a] >= x,
    ensures
        count_below(s, x) == lo,
    decreases s.len(),
{
    if s.len() > 0 {
        let d = s.drop_last();
        if lo == s.len() {
            assert(s[s.len() - 1] < x);
            assert forall|a: int| 0 <= a < d.len() implies #[trigger] d[a] < x by {
                assert(d[a] == s[a]);
            }
            lemma_count_below_split(d, x, lo - 1);
        } else {
            assert(s[s.len() - 1] >= x);
            assert forall|a: int| 0 <= a < lo implies #[trigger] d[a] < x by {
                assert(d[a] == s[a]);
            }
            assert forall|a: int| lo <= a < d.len() implies #[trigger] d[a] >= x by {
                assert(d[a] == s[a]);
            }
            lemma_count_below_split(d, x, lo);
        }
    }
}

/// The character index of byte offset `end` (binary search over the
/// characters' starting offsets).
pub fn byte_to_char_index(offsets: &Vec<usize>, end: usize, input_len: usize) -> (r: usize)
    requires
        strictly_increasing(offsets@),
    ensures
        r as int == char_index_of(offsets@, end as int, input_len as int),
{
    if end >= input_len {
        return offsets.len();
    }
    let mut lo: usize = 0;
    let mut hi: usize = offsets.len();
    while lo < hi
        invariant
            0 <= lo <= hi <= offsets.len(),
            strictly_increasing(offsets@),
            forall|a: int| 0 <= a < lo ==> #[trigger] offsets@[a] < end,
            forall|a: int| hi <= a < offsets.len() ==> #[trigger] offsets@[a] >= end,
        decreases hi - lo,
    {
        let mid = lo + (hi - lo) / 2;
        if offsets[mid] < end {
            assert forall|a: int| 0 <= a < mid + 1 implies #[trigger] offsets@[a] < end by {
                if a < mid {
                    assert(offsets@[a] < offsets@[mid as int]);
                }
            }
            lo = mid + 1;
        } else {
            assert forall|a: int| mid <= a < offsets.len() implies #[trigger] offsets@[a] >= end by {
                if a > mid {
                    assert(offsets@[mid as int] < offsets@[a]);
                }
            }
            hi = mid;
        }
    }
    proof {
        lemma_count_below_split(offsets@, end as int, lo as int);
    }
    lo
}

/// Position of the first byte `x` at or after `j`.
pub open spec fn first_byte_from(b: Seq<u8>, j: int, x: u8) -> Option<int>
    decreases b.len() - j,
{
    if j < 0 || j >= b.len() {
        None
    } else if b[j] == x {
        Some(j)
    } else {
        first_byte_from(b, j + 1, x)
    }
}

/// The brace blocks `[open, close + 1)` met scanning the bytes `b` from
/// `i`: each `{` with a `}` after it reaches the first such `}`, and the
/// scan goes on after it.
pub open spec fn brace_blocks_from(b: Seq<u8>, i: int) -> Seq<(usize, usize)>
    decreases b.len() - i,
{
    if i < 0 || i >= b.len() {
        Seq::empty()
    } else if b[i] != 123u8 {
        brace_blocks_from(b, i + 1)
    } else {
        match first_byte_from(b, i + 1, 125u8) {
            Some(e) => {
                proof {
                    lemma_first_byte_from(b, i + 1, 125u8);
                }
                seq![(i as usize, (e + 1) as usize)] + brace_blocks_from(b, e + 1)
            },
            None => brace_blocks_from(b, i + 1),
        }
    }
}

pub proof fn lemma_first_byte_from(b: Seq<u8>, j: int, x: u8)
    requires
        0 <= j,
    ensures
        first_byte_from(b, j, x) matches Some(e) ==> j <= e < b.len(),
    decreases b.len() - j,
{
    if j < b.len() && b[j] != x {
        lemma_first_byte_from(b, j + 1, x);
    }
}

/// The brace blocks of the bytes `b` (see `brace_blocks_from`), the
/// candidates for pattern separators that a parse tree then confirms.
pub fn brace_blocks(b: &Vec<u8>) -> (r: Vec<(usize, usize)>)
    ensures
        r@ == brace_blocks_from(b@, 0),
{
    let mut res: Vec<(usize, usize)> = Vec::new();
    let mut i: usize = 0;
    while i < b.len()
        invariant
            i <= b.len(),
            res@ + brace_blocks_from(b@, i as int) == brace_blocks_from(b@, 0),
        decreases b.len() - i,
    {
        if b[i] != 123u8 {
            i += 1;
            continue;
        }
        let mut e = i + 1;
        while e < b.len() && b[e] != 125u8
            invariant
                i < e <= b.len(),
                first_byte_from(b@, e as int, 125u8) == first_byte_from(b@, i + 1, 125u8),
            decreases b.len() - e,
        {
            e += 1;
        }
        if e < b.len() {
            let ghost old_res = res@;
            res.push((i, e + 1));
            assert(res@ + brace_blocks_from(b@, e + 1) =~= old_res + (seq![(i, (e + 1) as usize)]
                + brace_blocks_from(b@, e + 1)));
            i = e + 1;
        } else {
            i += 1;
        }
    }
    assert(res@ + brace_blocks_from(b@, i as int) =~= res@);
    res
}

/// The indentation level for a closing bracket that has no opener, inferred
/// from the text written so far.
pub fn infer_closing_indent(out: &Vec<char>, unit: usize) -> (r: usize)
    requires
        unit > 0,
    ensures
        r == closing_indent(out@, unit as int),
        r <= out@.len(),
{
    let mut end = out.len();
    let mut from: usize = 0;
    let mut to: usize = 0;
    loop
        invariant_except_break
            end <= out.len(),
            last_content_line(out@, out@.len() as int) == last_content_line(out@, end as int),
        ensures
            from <= to <= out.len(),
            out@.subrange(from as int, to as int) == last_content_line(out@, out@.len() as int),
        decreases end,
    {
        let mut k = end;
        while k > 0 && out[k - 1] != '\n'
            invariant
                k <= end <= out.len(),
                last_newline_before(out@, end as int) == last_newline_before(out@, k as int),
            decreases k,
        {
            k -= 1;
        }
        assert(last_newline_before(out@, end as int) == k - 1);
        let (a, b) = trim_bounds(out, k, end);
        let mut closers_only = true;
        let mut m = a;
        while m < b
            invariant
                a <= m <= b <= out.len(),
                closers_only == (forall|q: int| a <= q < m ==> is_closer_char(#[trigger] out@[q])),
            decreases b - m,
        {
            let ch = out[m];
            if !(ch == ')' || ch == '}' || ch == ']') {
                closers_only = false;
            }
            m += 1;
        }
        proof {
            let t = out@.subrange(a as int, b as int);
            if closers_only {
                assert forall|q: int| 0 <= q < t.len() implies is_closer_char(#[trigger] t[q]) by {
                    assert(t[q] == out@[a + q]);
                }
            } else {
                let q = choose|q: int| a <= q < b && !is_closer_char(#[trigger] out@[q]);
                assert(t[q - a] == out@[q]);
            }
        }
        if a < b && !closers_only {
            from = k;
            to = end;
            break;
        }
        if k == 0 {
            from = 0;
            to = 0;
            assert(out@.subrange(0, 0) =~= Seq::<char>::empty());
            break;
        }
        end = k - 1;
    }
    let ghost line = out@.subrange(from as int, to as int);
    let mut j = from;
    while j < to && out[j] == ' '
        invariant
            from <= j <= to <= out.len(),
            line == out@.subrange(from as int, to as int),
            leading_spaces(line) == (j - from) + leading_spaces(out@.subrange(j as int, to as int)),
        decreases to - j,
    {
        assert(out@.subrange(j as int, to as int).drop_first() =~= out@.subrange(j + 1, to as int));
        j += 1;
    }
    let lead = j - from;
    assert(lead / unit <= lead) by (nonlinear_arith)
        requires
            unit > 0,
    ;
    let mut b = to;
    while b > from && is_white_space_char(out[b - 1])
        invariant
            from <= b <= to <= out.len(),
            trim_end(line) == trim_end(out@.subrange(from as int, b as int)),
        decreases b,
    {
        assert(out@.subrange(from as int, b as int).drop_last() =~= out@.subrange(
            from as int,
            b - 1,
        ));
        b -= 1;
    }
    assert(trim_end(out@.subrange(from as int, b as int)) == out@.subrange(from as int, b as int));
    let opens = b > from && (out[b - 1] == '{' || out[b - 1] == '(' || out[b - 1] == '[');
    let annotation = b - from >= 2 && out[from] == '#' && out[from + 1] == '[';
    if opens || annotation {
        lead / unit
    } else if lead >= unit {
        assert(lead / unit >= 1) by (nonlinear_arith)
            requires
                lead >= unit,
                unit > 0,
        ;
        lead / unit - 1
    } else {
        0
    }
}

} // verus!
