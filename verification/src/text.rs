//! Character-level helpers: Unicode white space, trimming, newline counting
//! and copying of ranges of characters.
use vstd::prelude::*;

verus! {

/// Whether `c` has the Unicode `White_Space` property (the set of characters
/// that `char::is_whitespace`, `str::trim` and `str::split_whitespace` use).
pub open spec fn is_white_space(c: char) -> bool {
    let u = c as u32;
    ||| (0x09 <= u && u <= 0x0d)
    ||| u == 0x20
    ||| u == 0x85
    ||| u == 0xa0
    ||| u == 0x1680
    ||| (0x2000 <= u && u <= 0x200a)
    ||| u == 0x2028
    ||| u == 0x2029
    ||| u == 0x202f
    ||| u == 0x205f
    ||| u == 0x3000
}

/// Executable test for Unicode white space.
pub fn is_white_space_char(c: char) -> (r: bool)
    ensures
        r == is_white_space(c),
{
    let u = c as u32;
    (0x09 <= u && u <= 0x0d) || u == 0x20 || u == 0x85 || u == 0xa0 || u == 0x1680 || (0x2000
        <= u && u <= 0x200a) || u == 0x2028 || u == 0x2029 || u == 0x202f || u == 0x205f || u
        == 0x3000
}

/// Number of `'\n'` characters in `s`.
pub open spec fn newline_count(s: Seq<char>) -> nat
    decreases s.len(),
{
    if s.len() == 0 {
        0
    } else {
        newline_count(s.drop_last()) + if s.last() == '\n' {
            1nat
        } else {
            0nat
        }
    }
}

/// `s` without its trailing white space.
pub open spec fn trim_end(s: Seq<char>) -> Seq<char>
    decreases s.len(),
{
    if s.len() > 0 && is_white_space(s.last()) {
        trim_end(s.drop_last())
    } else {
        s
    }
}

/// `s` without its leading white space.
pub open spec fn trim_start(s: Seq<char>) -> Seq<char>
    decreases s.len(),
{
    if s.len() > 0 && is_white_space(s[0]) {
        trim_start(s.drop_first())
    } else {
        s
    }
}

/// `s` without leading and trailing white space.
pub open spec fn trim(s: Seq<char>) -> Seq<char> {
    trim_start(trim_end(s))
}

/// `s` consists of white space only (its trimmed form is empty).
pub open spec fn is_blank(s: Seq<char>) -> bool {
    forall|k: int| 0 <= k < s.len() ==> is_white_space(#[trigger] s[k])
}

/// `n` spaces.
pub open spec fn spaces(n: nat) -> Seq<char> {
    Seq::new(n, |_k: int| ' ')
}

/// `count` indentation units of `unit` spaces each.
pub open spec fn indent_pad(count: nat, unit: nat) -> Seq<char>
    decreases count,
{
    if count == 0 {
        Seq::empty()
    } else {
        indent_pad((count - 1) as nat, unit) + spaces(unit)
    }
}

pub proof fn lemma_newline_count_append(a: Seq<char>, b: Seq<char>)
    ensures
        newline_count(a + b) == newline_count(a) + newline_count(b),
    decreases b.len(),
{
    if b.len() == 0 {
        assert(a + b =~= a);
    } else {
        lemma_newline_count_append(a, b.drop_last());
        assert((a + b).drop_last() =~= a + b.drop_last());
    }
}

pub proof fn lemma_trim_end_blank(s: Seq<char>)
    ensures
        is_blank(s) <==> trim_end(s).len() == 0,
        trim_end(s).len() <= s.len(),
        trim_end(s) =~= s.take(trim_end(s).len() as int),
        trim_end(s).len() > 0 ==> !is_white_space(trim_end(s).last()),
        forall|k: int| trim_end(s).len() <= k < s.len() ==> is_white_space(#[trigger] s[k]),
    decreases s.len(),
{
    if s.len() > 0 && is_white_space(s.last()) {
        lemma_trim_end_blank(s.drop_last());
        if is_blank(s.drop_last()) {
            assert forall|k: int| 0 <= k < s.len() implies is_white_space(#[trigger] s[k]) by {
                if k < s.len() - 1 {
                    assert(s.drop_last()[k] == s[k]);
                }
            }
        }
        if is_blank(s) {
            assert forall|k: int| 0 <= k < s.drop_last().len() implies is_white_space(
                #[trigger] s.drop_last()[k],
            ) by {
                assert(s.drop_last()[k] == s[k]);
            }
        }
        let t = trim_end(s.drop_last());
        assert forall|k: int| t.len() <= k < s.len() implies is_white_space(#[trigger] s[k]) by {
            if k < s.len() - 1 {
                assert(s.drop_last()[k] == s[k]);
            }
        }
        assert(s.drop_last().take(t.len() as int) =~= s.take(t.len() as int));
    } else {
        assert(s.take(s.len() as int) =~= s);
        if s.len() > 0 {
            assert(!is_white_space(s[s.len() - 1]));
        }
    }
}

/// Copies `c[from..to]` onto the end of `out`.
pub fn push_range(c: &Vec<char>, from: usize, to: usize, out: &mut Vec<char>)
    requires
        from <= to <= c.len(),
    ensures
        final(out)@ == old(out)@ + c@.subrange(from as int, to as int),
{
    let mut k = from;
    while k < to
        invariant
            from <= k <= to <= c.len(),
            out@ == old(out)@ + c@.subrange(from as int, k as int),
        decreases to - k,
    {
        out.push(c[k]);
        assert(c@.subrange(from as int, k + 1) =~= c@.subrange(from as int, k as int).push(
            c@[k as int],
        ));
        k += 1;
    }
}

/// Number of `'\n'` characters in `c[from..to]`.
pub fn count_newlines(c: &Vec<char>, from: usize, to: usize) -> (r: usize)
    requires
        from <= to <= c.len(),
    ensures
        r == newline_count(c@.subrange(from as int, to as int)),
{
    let mut k = from;
    let mut n: usize = 0;
    while k < to
        invariant
            from <= k <= to <= c.len(),
            n == newline_count(c@.subrange(from as int, k as int)),
            n <= k - from,
        decreases to - k,
    {
        assert(c@.subrange(from as int, k + 1).drop_last() =~= c@.subrange(from as int, k as int));
        if c[k] == '\n' {
            n += 1;
        }
        k += 1;
    }
    n
}

/// Whether every character of `c[from..to]` is white space.
pub fn all_white_space(c: &Vec<char>, from: usize, to: usize) -> (r: bool)
    requires
        from <= to <= c.len(),
    ensures
        r == is_blank(c@.subrange(from as int, to as int)),
{
    let mut k = from;
    while k < to
        invariant
            from <= k <= to <= c.len(),
            is_blank(c@.subrange(from as int, k as int)),
        decreases to - k,
    {
        if !is_white_space_char(c[k]) {
            assert(c@.subrange(from as int, to as int)[k - from] == c@[k as int]);
            return false;
        }
        assert forall|j: int| 0 <= j < k + 1 - from implies is_white_space(
            #[trigger] c@.subrange(from as int, k + 1)[j],
        ) by {
            if j < k - from {
                assert(c@.subrange(from as int, k + 1)[j] == c@.subrange(from as int, k as int)[j]);
            }
        }
        k += 1;
    }
    true
}

/// The bounds `(a, b)` such that `c[a..b]` is `c[from..to]` without leading
/// and trailing white space.
pub fn trim_bounds(c: &Vec<char>, from: usize, to: usize) -> (r: (usize, usize))
    requires
        from <= to <= c.len(),
    ensures
        from <= r.0 <= r.1 <= to,
        c@.subrange(r.0 as int, r.1 as int) == trim(c@.subrange(from as int, to as int)),
{
    let ghost s = c@.subrange(from as int, to as int);
    let mut b = to;
    while b > from && is_white_space_char(c[b - 1])
        invariant
            from <= b <= to <= c.len(),
            trim_end(s) == trim_end(c@.subrange(from as int, b as int)),
        decreases b,
    {
        assert(c@.subrange(from as int, b as int).drop_last() =~= c@.subrange(
            from as int,
            b - 1,
        ));
        b -= 1;
    }
    assert(trim_end(c@.subrange(from as int, b as int)) == c@.subrange(from as int, b as int));
    let mut a = from;
    while a < b && is_white_space_char(c[a])
        invariant
            from <= a <= b <= to <= c.len(),
            trim(s) == trim_start(c@.subrange(a as int, b as int)),
        decreases b - a,
    {
        assert(c@.subrange(a as int, b as int).drop_first() =~= c@.subrange(a + 1, b as int));
        a += 1;
    }
    (a, b)
}

/// Appends `count` indentation units of `unit` spaces to `out`.
pub fn push_indent(count: usize, unit: usize, out: &mut Vec<char>)
    ensures
        final(out)@ == old(out)@ + indent_pad(count as nat, unit as nat),
{
    let mut k: usize = 0;
    while k < count
        invariant
            k <= count,
            out@ == old(out)@ + indent_pad(k as nat, unit as nat),
        decreases count - k,
    {
        let mut j: usize = 0;
        let ghost base = out@;
        while j < unit
            invariant
                j <= unit,
                out@ == base + spaces(j as nat),
            decreases unit - j,
        {
            out.push(' ');
            assert(spaces((j + 1) as nat) =~= spaces(j as nat).push(' '));
            j += 1;
        }
        assert(indent_pad((k + 1) as nat, unit as nat) == indent_pad(k as nat, unit as nat)
            + spaces(unit as nat));
        assert(out@ =~= old(out)@ + indent_pad((k + 1) as nat, unit as nat));
        k += 1;
    }
}

} // verus!
