//! Characters, whitespace and the line model shared by the placeholder
//! matcher, the repeat expander and the section synchronizer.

use vstd::prelude::*;
use vstd::string::StrSliceExecFns;

verus! {

/// The Unicode `White_Space` characters. Placeholder and marker syntax
/// treats exactly these as spacing.
pub open spec fn is_space(c: char) -> bool {
    ||| c == '\u{9}'
    ||| c == '\u{a}'
    ||| c == '\u{b}'
    ||| c == '\u{c}'
    ||| c == '\u{d}'
    ||| c == ' '
    ||| c == '\u{85}'
    ||| c == '\u{a0}'
    ||| c == '\u{1680}'
    ||| c == '\u{2000}'
    ||| c == '\u{2001}'
    ||| c == '\u{2002}'
    ||| c == '\u{2003}'
    ||| c == '\u{2004}'
    ||| c == '\u{2005}'
    ||| c == '\u{2006}'
    ||| c == '\u{2007}'
    ||| c == '\u{2008}'
    ||| c == '\u{2009}'
    ||| c == '\u{200a}'
    ||| c == '\u{2028}'
    ||| c == '\u{2029}'
    ||| c == '\u{202f}'
    ||| c == '\u{205f}'
    ||| c == '\u{3000}'
}

pub fn char_is_space(c: char) -> (r: bool)
    ensures
        r == is_space(c),
{
    c == '\u{9}' || c == '\u{a}' || c == '\u{b}' || c == '\u{c}' || c == '\u{d}' || c == ' '
        || c == '\u{85}' || c == '\u{a0}' || c == '\u{1680}' || (c >= '\u{2000}' && c
        <= '\u{200a}') || c == '\u{2028}' || c == '\u{2029}' || c == '\u{202f}' || c == '\u{205f}'
        || c == '\u{3000}'
}

/// Character-for-character string comparison.
pub fn str_eq(a: &str, b: &str) -> (r: bool)
    ensures
        r == (a@ == b@),
{
    let na = a.unicode_len();
    let nb = b.unicode_len();
    if na != nb {
        return false;
    }
    let mut i: usize = 0;
    while i < na
        invariant
            0 <= i <= na,
            na == a@.len(),
            na == b@.len(),
            forall|k: int| 0 <= k < i ==> a@[k] == b@[k],
        decreases na - i,
    {
        if a.get_char(i) != b.get_char(i) {
            return false;
        }
        i = i + 1;
    }
    proof {
        assert(a@ =~= b@);
    }
    true
}

/// A sequence of owned strings, seen as the sequences of characters they hold.
pub open spec fn strs_view(v: Seq<String>) -> Seq<Seq<char>> {
    v.map_values(|s: String| s@)
}

pub proof fn lemma_strs_view_push(v: Seq<String>, x: String)
    ensures
        strs_view(v.push(x)) == strs_view(v).push(x@),
{
    assert(strs_view(v.push(x)) =~= strs_view(v).push(x@));
}

/// First index at or after `i` that holds a newline, or `s.len()` if none does.
pub open spec fn find_newline(s: Seq<char>, i: int) -> int
    recommends
        0 <= i <= s.len(),
    decreases s.len() - i,
{
    if i < 0 || i >= s.len() {
        s.len() as int
    } else if s[i] == '\n' {
        i
    } else {
        find_newline(s, i + 1)
    }
}

pub proof fn lemma_find_newline(s: Seq<char>, i: int)
    requires
        0 <= i <= s.len(),
    ensures
        i <= find_newline(s, i) <= s.len(),
        find_newline(s, i) < s.len() ==> s[find_newline(s, i)] == '\n',
        forall|k: int| i <= k < find_newline(s, i) ==> s[k] != '\n',
    decreases s.len() - i,
{
    if i < s.len() && s[i] != '\n' {
        lemma_find_newline(s, i + 1);
    }
}

pub proof fn lemma_find_newline_is(s: Seq<char>, i: int, j: int)
    requires
        0 <= i <= j <= s.len(),
        forall|k: int| i <= k < j ==> s[k] != '\n',
        j < s.len() ==> s[j] == '\n',
    ensures
        find_newline(s, i) == j,
    decreases j - i,
{
    if i < j {
        lemma_find_newline_is(s, i + 1, j);
    }
}

/// First index at or after `i` that holds a non-whitespace character, or
/// `s.len()` if none does.
pub open spec fn first_non_space_at(s: Seq<char>, i: int) -> int
    recommends
        0 <= i <= s.len(),
    decreases s.len() - i,
{
    if i < 0 || i >= s.len() {
        s.len() as int
    } else if !is_space(s[i]) {
        i
    } else {
        first_non_space_at(s, i + 1)
    }
}

pub proof fn lemma_first_non_space_at(s: Seq<char>, i: int)
    requires
        0 <= i <= s.len(),
    ensures
        i <= first_non_space_at(s, i) <= s.len(),
        first_non_space_at(s, i) < s.len() ==> !is_space(s[first_non_space_at(s, i)]),
        forall|k: int| i <= k < first_non_space_at(s, i) ==> is_space(s[k]),
    decreases s.len() - i,
{
    if i < s.len() && is_space(s[i]) {
        lemma_first_non_space_at(s, i + 1);
    }
}

pub proof fn lemma_first_non_space_at_is(s: Seq<char>, i: int, j: int)
    requires
        0 <= i <= j <= s.len(),
        forall|k: int| i <= k < j ==> is_space(s[k]),
        j < s.len() ==> !is_space(s[j]),
    ensures
        first_non_space_at(s, i) == j,
    decreases j - i,
{
    if i < j {
        lemma_first_non_space_at_is(s, i + 1, j);
    }
}

/// First index at or after `i` that holds a whitespace character, or
/// `s.len()` if none does.
pub open spec fn first_space_at(s: Seq<char>, i: int) -> int
    recommends
        0 <= i <= s.len(),
    decreases s.len() - i,
{
    if i < 0 || i >= s.len() {
        s.len() as int
    } else if is_space(s[i]) {
        i
    } else {
        first_space_at(s, i + 1)
    }
}

pub proof fn lemma_first_space_at(s: Seq<char>, i: int)
    requires
        0 <= i <= s.len(),
    ensures
        i <= first_space_at(s, i) <= s.len(),
        first_space_at(s, i) < s.len() ==> is_space(s[first_space_at(s, i)]),
        forall|k: int| i <= k < first_space_at(s, i) ==> !is_space(s[k]),
    decreases s.len() - i,
{
    if i < s.len() && !is_space(s[i]) {
        lemma_first_space_at(s, i + 1);
    }
}

pub proof fn lemma_first_space_at_is(s: Seq<char>, i: int, j: int)
    requires
        0 <= i <= j <= s.len(),
        forall|k: int| i <= k < j ==> !is_space(s[k]),
        j < s.len() ==> is_space(s[j]),
    ensures
        first_space_at(s, i) == j,
    decreases j - i,
{
    if i < j {
        lemma_first_space_at_is(s, i + 1, j);
    }
}

/// Largest `e` in `lo ..= hi` with only whitespace in `e .. hi`.
pub open spec fn trim_space_end(s: Seq<char>, lo: int, hi: int) -> int
    recommends
        0 <= lo <= hi <= s.len(),
    decreases hi - lo,
{
    if hi <= lo {
        hi
    } else if is_space(s[hi - 1]) {
        trim_space_end(s, lo, hi - 1)
    } else {
        hi
    }
}

pub proof fn lemma_trim_space_end_is(s: Seq<char>, lo: int, hi: int, e: int)
    requires
        0 <= lo <= e <= hi <= s.len(),
        forall|k: int| e <= k < hi ==> is_space(s[k]),
        e > lo ==> !is_space(s[e - 1]),
    ensures
        trim_space_end(s, lo, hi) == e,
    decreases hi - e,
{
    if e < hi {
        lemma_trim_space_end_is(s, lo, hi - 1, e);
    }
}

/// A line as produced by splitting: a trailing carriage return is dropped.
pub open spec fn spec_strip_cr(l: Seq<char>) -> Seq<char> {
    if l.len() > 0 && l[l.len() - 1] == '\r' {
        l.drop_last()
    } else {
        l
    }
}

/// The lines of `s` starting at position `b`: pieces between newlines, each
/// with a trailing carriage return dropped, and no empty piece after a final
/// newline.
pub open spec fn spec_lines_at(s: Seq<char>, b: int) -> Seq<Seq<char>>
    recommends
        0 <= b <= s.len(),
    decreases s.len() - b,
{
    if b < 0 || b >= s.len() {
        seq![]
    } else {
        let j = find_newline(s, b);
        if j >= s.len() {
            seq![spec_strip_cr(s.subrange(b, s.len() as int))]
        } else {
            proof {
                lemma_find_newline(s, b);
            }
            seq![spec_strip_cr(s.subrange(b, j))] + spec_lines_at(s, j + 1)
        }
    }
}

/// The lines of a text, as `str::lines` yields them.
pub open spec fn spec_lines(s: Seq<char>) -> Seq<Seq<char>> {
    spec_lines_at(s, 0)
}

/// Splitting from a position is splitting the remaining text.
pub proof fn lemma_lines_at_skip(s: Seq<char>, b: int)
    requires
        0 <= b <= s.len(),
    ensures
        spec_lines_at(s, b) == spec_lines(s.skip(b)),
    decreases s.len() - b,
{
    let t = s.skip(b);
    assert(forall|u: int| 0 <= u < t.len() ==> t[u] == s[b + u]);
    if b < s.len() {
        let j = find_newline(s, b);
        lemma_find_newline(s, b);
        lemma_find_newline_is(t, 0, j - b);
        if j >= s.len() {
            assert(t.subrange(0, t.len() as int) =~= s.subrange(b, s.len() as int));
        } else {
            assert(t.subrange(0, j - b) =~= s.subrange(b, j));
            lemma_lines_at_skip(s, j + 1);
            lemma_lines_at_skip(t, j - b + 1);
            assert(t.skip(j - b + 1) =~= s.skip(j + 1));
            assert(spec_lines_at(s, b) =~= spec_lines(s.skip(b)));
        }
    } else {
        assert(t.len() == 0);
    }
}

/// No line a split yields holds a newline, and none is the empty text's.
pub proof fn lemma_lines_at_props(s: Seq<char>, b: int)
    requires
        0 <= b <= s.len(),
    ensures
        forall|t: int, u: int|
            0 <= t < spec_lines_at(s, b).len() && 0 <= u < spec_lines_at(s, b)[t].len()
                ==> #[trigger] spec_lines_at(s, b)[t][u] != '\n',
    decreases s.len() - b,
{
    if b < s.len() {
        let j = find_newline(s, b);
        lemma_find_newline(s, b);
        if j < s.len() {
            lemma_lines_at_props(s, j + 1);
            let r = spec_lines_at(s, b);
            assert forall|t: int, u: int|
                0 <= t < r.len() && 0 <= u < r[t].len() implies #[trigger] r[t][u] != '\n' by {
                if t == 0 {
                    assert(r[0] == spec_strip_cr(s.subrange(b, j)));
                    assert(s.subrange(b, j)[u] != '\n');
                } else {
                    assert(r[t] == spec_lines_at(s, j + 1)[t - 1]);
                }
            }
        } else {
            let r = spec_lines_at(s, b);
            assert forall|t: int, u: int|
                0 <= t < r.len() && 0 <= u < r[t].len() implies #[trigger] r[t][u] != '\n' by {
                assert(r[0] == spec_strip_cr(s.subrange(b, s.len() as int)));
                assert(s.subrange(b, s.len() as int)[u] != '\n');
            }
        }
    }
}

/// The lines joined back with a single newline between them (none at the end).
pub open spec fn spec_join(lines: Seq<Seq<char>>) -> Seq<char>
    decreases lines.len(),
{
    if lines.len() == 0 {
        seq![]
    } else if lines.len() == 1 {
        lines[0]
    } else {
        lines[0] + seq!['\n'] + spec_join(lines.drop_first())
    }
}

pub proof fn lemma_join_push(lines: Seq<Seq<char>>, x: Seq<char>)
    ensures
        lines.len() == 0 ==> spec_join(lines.push(x)) == x,
        lines.len() > 0 ==> spec_join(lines.push(x)) == spec_join(lines) + seq!['\n'] + x,
    decreases lines.len(),
{
    if lines.len() == 0 {
        assert(lines.push(x)[0] == x);
    } else if lines.len() == 1 {
        assert(lines.push(x).drop_first() =~= seq![x]);
        assert(spec_join(seq![x]) == seq![x][0]);
        assert(lines.push(x)[0] == lines[0]);
        assert(spec_join(lines.push(x)) == lines[0] + seq!['\n'] + x);
    } else {
        assert(lines.push(x).drop_first() =~= lines.drop_first().push(x));
        lemma_join_push(lines.drop_first(), x);
        assert(spec_join(lines) + seq!['\n'] + x == lines[0] + seq!['\n'] + (spec_join(
            lines.drop_first(),
        ) + seq!['\n'] + x));
    }
}

/// Splits a text into its lines, as `str::lines` does: pieces between
/// newlines, trailing carriage returns dropped, no empty final piece.
pub fn split_lines(s: &str) -> (r: Vec<String>)
    ensures
        strs_view(r@) == spec_lines(s@),
{
    let n = s.unicode_len();
    let mut r: Vec<String> = Vec::new();
    let mut start: usize = 0;
    let mut i: usize = 0;
    while i < n
        invariant
            0 <= start <= i <= n,
            n == s@.len(),
            forall|k: int| start <= k < i ==> s@[k] != '\n',
            spec_lines(s@) == strs_view(r@) + spec_lines_at(s@, start as int),
        decreases n - i,
    {
        if s.get_char(i) == '\n' {
            push_stripped_line(s, start, i, &mut r);
            proof {
                lemma_find_newline_is(s@, start as int, i as int);
            }
            start = i + 1;
        }
        i = i + 1;
    }
    if start < n {
        proof {
            lemma_find_newline_is(s@, start as int, n as int);
        }
        push_stripped_line(s, start, n, &mut r);
    }
    r
}

/// Appends `s[from..to]`, with a trailing carriage return dropped, to `out`.
fn push_stripped_line(s: &str, from: usize, to: usize, out: &mut Vec<String>)
    requires
        from <= to <= s@.len(),
    ensures
        strs_view(final(out)@) == strs_view(old(out)@).push(
            spec_strip_cr(s@.subrange(from as int, to as int)),
        ),
{
    let line = if to > from && s.get_char(to - 1) == '\r' {
        s.substring_char(from, to - 1)
    } else {
        s.substring_char(from, to)
    };
    let owned = line.to_owned();
    proof {
        assert(spec_strip_cr(s@.subrange(from as int, to as int)) =~= owned@);
        lemma_strs_view_push(out@, owned);
    }
    out.push(owned);
}

/// Joins lines with a single newline between them.
pub fn join_lines(lines: &Vec<String>) -> (r: String)
    ensures
        r@ == spec_join(strs_view(lines@)),
{
    let mut r = String::new();
    let mut i: usize = 0;
    proof {
        reveal_strlit("\n");
    }
    while i < lines.len()
        invariant
            0 <= i <= lines.len(),
            r@ == spec_join(strs_view(lines@).take(i as int)),
            "\n"@ == seq!['\n'],
        decreases lines.len() - i,
    {
        if i > 0 {
            r.append("\n");
        }
        r.append(lines[i].as_str());
        proof {
            let lv = strs_view(lines@);
            assert(lv.take(i as int).push(lines@[i as int]@) =~= lv.take(i as int + 1));
            lemma_join_push(lv.take(i as int), lines@[i as int]@);
        }
        i = i + 1;
    }
    proof {
        assert(strs_view(lines@).take(lines@.len() as int) =~= strs_view(lines@));
    }
    r
}

/// Copies the lines `from .. to` into a vector of their own.
pub fn subvec(lines: &Vec<String>, from: usize, to: usize) -> (r: Vec<String>)
    requires
        from <= to <= lines@.len(),
    ensures
        strs_view(r@) == strs_view(lines@).subrange(from as int, to as int),
{
    let mut r: Vec<String> = Vec::new();
    proof {
        assert(strs_view(r@) =~= strs_view(lines@).subrange(from as int, from as int));
    }
    let mut i = from;
    while i < to
        invariant
            from <= i <= to <= lines@.len(),
            strs_view(r@) == strs_view(lines@).subrange(from as int, i as int),
        decreases to - i,
    {
        let x = lines[i].clone();
        proof {
            lemma_strs_view_push(r@, x);
            assert(strs_view(lines@).subrange(from as int, i as int).push(x@) =~= strs_view(
                lines@,
            ).subrange(from as int, i as int + 1));
        }
        r.push(x);
        i = i + 1;
    }
    r
}

/// Copies all lines of `src` to the end of `dst`.
pub fn append_all(dst: &mut Vec<String>, src: &Vec<String>)
    ensures
        strs_view(final(dst)@) == strs_view(old(dst)@) + strs_view(src@),
{
    proof {
        assert(strs_view(dst@) =~= strs_view(old(dst)@) + strs_view(src@).take(0));
    }
    let n = src.len();
    let mut i: usize = 0;
    while i < n
        invariant
            0 <= i <= n,
            n == src@.len(),
            strs_view(dst@) == strs_view(old(dst)@) + strs_view(src@).take(i as int),
        decreases n - i,
    {
        let x = src[i].clone();
        proof {
            lemma_strs_view_push(dst@, x);
            assert((strs_view(old(dst)@) + strs_view(src@).take(i as int)).push(x@) =~= strs_view(
                old(dst)@,
            ) + strs_view(src@).take(i as int + 1));
        }
        dst.push(x);
        i = i + 1;
    }
    proof {
        assert(strs_view(src@).take(n as int) =~= strs_view(src@));
    }
}

/// What is left of `s` after dropping its first `n` characters; dropping
/// more than the length leaves nothing.
pub open spec fn spec_drop_prefix(s: Seq<char>, n: int) -> Seq<char> {
    if n >= s.len() {
        seq![]
    } else if n < 0 {
        s
    } else {
        s.skip(n)
    }
}

/// Removes the first `amount` characters of `string`; an `amount` beyond the
/// end yields the empty string.
pub fn remove_prefix(string: &str, amount: usize) -> (r: &str)
    ensures
        r@ == spec_drop_prefix(string@, amount as int),
{
    let n = string.unicode_len();
    if amount >= n {
        let r = string.substring_char(n, n);
        proof {
            assert(r@ =~= spec_drop_prefix(string@, amount as int));
        }
        r
    } else {
        let r = string.substring_char(amount, n);
        proof {
            assert(r@ =~= spec_drop_prefix(string@, amount as int));
        }
        r
    }
}

/// First position at or after `i`, not beyond `n`, that is not whitespace.
pub fn first_non_space_from(s: &str, n: usize, i: usize) -> (r: usize)
    requires
        n == s@.len(),
        i <= n,
    ensures
        r == first_non_space_at(s@, i as int),
        i <= r <= n,
{
    let mut c = i;
    while c < n
        invariant
            i <= c <= n,
            n == s@.len(),
            forall|m: int| i <= m < c ==> is_space(s@[m]),
        decreases n - c,
    {
        if !char_is_space(s.get_char(c)) {
            proof {
                lemma_first_non_space_at_is(s@, i as int, c as int);
            }
            return c;
        }
        c = c + 1;
    }
    proof {
        lemma_first_non_space_at_is(s@, i as int, n as int);
    }
    n
}

/// First position at or after `i`, not beyond `n`, that is whitespace.
pub fn first_space_from(s: &str, n: usize, i: usize) -> (r: usize)
    requires
        n == s@.len(),
        i <= n,
    ensures
        r == first_space_at(s@, i as int),
        i <= r <= n,
{
    let mut c = i;
    while c < n
        invariant
            i <= c <= n,
            n == s@.len(),
            forall|m: int| i <= m < c ==> !is_space(s@[m]),
        decreases n - c,
    {
        if char_is_space(s.get_char(c)) {
            proof {
                lemma_first_space_at_is(s@, i as int, c as int);
            }
            return c;
        }
        c = c + 1;
    }
    proof {
        lemma_first_space_at_is(s@, i as int, n as int);
    }
    n
}

} // verus!
