//! The repeat-block expander.
//!
//! A line of the form `<{ repeat <pool> }>` opens a block and a line of the
//! form `<{ endrepeat }>` closes it; both are matched against whole physical
//! lines. The body between them is rendered once per entry of the named
//! pool, in pool order, with the private two-key table `{key, value}`.

use vstd::prelude::*;
use vstd::string::StrSliceExecFns;
use crate::error::GenError;
use crate::fill::{fill_template, spec_fill_at};
use crate::values::{ValueTable, Values};
use crate::text::{
    append_all,
    char_is_space,
    join_lines,
    spec_join,
    spec_lines,
    split_lines,
    str_eq,
    subvec,
    first_non_space_at,
    first_non_space_from,
    first_space_from,
    first_space_at,
    is_space,
    lemma_first_non_space_at,
    lemma_first_space_at,
    lemma_trim_space_end_is,
    strs_view,
    trim_space_end,
};

verus! {

/// The pool name of a repeat marker line, if the line is one: `<{`,
/// whitespace, the word `repeat`, whitespace, a non-empty run of
/// non-whitespace characters, whitespace, and a final `}>`.
pub open spec fn spec_repeat_pool(line: Seq<char>) -> Option<Seq<char>> {
    let n = line.len() as int;
    if n < 2 || line[0] != '<' || line[1] != '{' {
        None
    } else {
        let i = first_non_space_at(line, 2);
        if i + 6 > n {
            None
        } else if !(line[i] == 'r' && line[i + 1] == 'e' && line[i + 2] == 'p' && line[i + 3] == 'e'
            && line[i + 4] == 'a' && line[i + 5] == 't') {
            None
        } else if i + 6 >= n || !is_space(line[i + 6]) {
            None
        } else {
            let p0 = first_non_space_at(line, i + 6);
            if p0 >= n {
                None
            } else if !(line[n - 2] == '}' && line[n - 1] == '>') {
                None
            } else if p0 > n - 2 {
                None
            } else {
                let e = trim_space_end(line, p0, n - 2);
                if e <= p0 {
                    None
                } else if first_space_at(line, p0) < e {
                    None
                } else {
                    Some(line.subrange(p0, e))
                }
            }
        }
    }
}

/// Whether the line is an endrepeat marker: `<{`, whitespace, the word
/// `endrepeat`, whitespace, and a final `}>`.
pub open spec fn spec_is_endrepeat(line: Seq<char>) -> bool {
    let n = line.len() as int;
    n >= 2 && line[0] == '<' && line[1] == '{' && {
        let i = first_non_space_at(line, 2);
        i + 9 <= n && line[i] == 'e' && line[i + 1] == 'n' && line[i + 2] == 'd' && line[i + 3]
            == 'r' && line[i + 4] == 'e' && line[i + 5] == 'p' && line[i + 6] == 'e' && line[i + 7]
            == 'a' && line[i + 8] == 't' && {
            let q = first_non_space_at(line, i + 9);
            q == n - 2 && line[n - 2] == '}' && line[n - 1] == '>'
        }
    }
}

/// Matches a repeat marker line and hands back its pool name.
pub fn parse_repeat_line(line: &str) -> (r: Option<String>)
    ensures
        match r {
            Some(pool) => spec_repeat_pool(line@) == Some(pool@),
            None => spec_repeat_pool(line@) is None,
        },
{
    let n = line.unicode_len();
    if n < 2 || line.get_char(0) != '<' || line.get_char(1) != '{' {
        return None;
    }
    let i = first_non_space_from(line, n, 2);
    if n - i < 6 {
        return None;
    }
    if !(line.get_char(i) == 'r' && line.get_char(i + 1) == 'e' && line.get_char(i + 2) == 'p'
        && line.get_char(i + 3) == 'e' && line.get_char(i + 4) == 'a' && line.get_char(i + 5)
        == 't') {
        return None;
    }
    if n - i == 6 || !char_is_space(line.get_char(i + 6)) {
        return None;
    }
    let p0 = first_non_space_from(line, n, i + 6);
    if p0 >= n {
        return None;
    }
    if !(line.get_char(n - 2) == '}' && line.get_char(n - 1) == '>') {
        return None;
    }
    if p0 > n - 2 {
        return None;
    }
    let mut e = n - 2;
    while e > p0 && char_is_space(line.get_char(e - 1))
        invariant
            n == line@.len(),
            p0 <= e <= n - 2,
            forall|k: int| e <= k < n - 2 ==> is_space(line@[k]),
        decreases e,
    {
        e = e - 1;
    }
    proof {
        lemma_trim_space_end_is(line@, p0 as int, n as int - 2, e as int);
    }
    if e <= p0 {
        return None;
    }
    let q = first_space_from(line, n, p0);
    if q < e {
        return None;
    }
    let pool = line.substring_char(p0, e).to_owned();
    Some(pool)
}

/// Matches an endrepeat marker line.
pub fn is_endrepeat_line(line: &str) -> (r: bool)
    ensures
        r == spec_is_endrepeat(line@),
{
    let n = line.unicode_len();
    if n < 2 || line.get_char(0) != '<' || line.get_char(1) != '{' {
        return false;
    }
    let i = first_non_space_from(line, n, 2);
    if n - i < 9 {
        return false;
    }
    if !(line.get_char(i) == 'e' && line.get_char(i + 1) == 'n' && line.get_char(i + 2) == 'd'
        && line.get_char(i + 3) == 'r' && line.get_char(i + 4) == 'e' && line.get_char(i + 5)
        == 'p' && line.get_char(i + 6) == 'e' && line.get_char(i + 7) == 'a' && line.get_char(
        i + 8,
    ) == 't') {
        return false;
    }
    let q = first_non_space_from(line, n, i + 9);
    q == n - 2 && line.get_char(n - 2) == '}' && line.get_char(n - 1) == '>'
}

/// First line at or after `i` that is a repeat marker, or the line count.
pub open spec fn find_marker_from(lines: Seq<Seq<char>>, i: int) -> int
    recommends
        0 <= i <= lines.len(),
    decreases lines.len() - i,
{
    if i < 0 || i >= lines.len() {
        lines.len() as int
    } else if spec_repeat_pool(lines[i]) is Some {
        i
    } else {
        find_marker_from(lines, i + 1)
    }
}

pub proof fn lemma_find_marker_from_is(lines: Seq<Seq<char>>, i: int, j: int)
    requires
        0 <= i <= j <= lines.len(),
        forall|k: int| i <= k < j ==> spec_repeat_pool(#[trigger] lines[k]) is None,
        j < lines.len() ==> spec_repeat_pool(lines[j]) is Some,
    ensures
        find_marker_from(lines, i) == j,
    decreases j - i,
{
    if i < j {
        lemma_find_marker_from_is(lines, i + 1, j);
    }
}

/// First line at or after `i` that is an endrepeat marker, or the line count.
pub open spec fn find_endrepeat_from(lines: Seq<Seq<char>>, i: int) -> int
    recommends
        0 <= i <= lines.len(),
    decreases lines.len() - i,
{
    if i < 0 || i >= lines.len() {
        lines.len() as int
    } else if spec_is_endrepeat(lines[i]) {
        i
    } else {
        find_endrepeat_from(lines, i + 1)
    }
}

pub proof fn lemma_find_endrepeat_from_is(lines: Seq<Seq<char>>, i: int, j: int)
    requires
        0 <= i <= j <= lines.len(),
        forall|k: int| i <= k < j ==> !spec_is_endrepeat(#[trigger] lines[k]),
        j < lines.len() ==> spec_is_endrepeat(lines[j]),
    ensures
        find_endrepeat_from(lines, i) == j,
    decreases j - i,
{
    if i < j {
        lemma_find_endrepeat_from_is(lines, i + 1, j);
    }
}

/// The private two-key table a repeat body is rendered with.
pub open spec fn entry_map(k: Seq<char>, v: Seq<char>) -> Map<Seq<char>, Seq<char>> {
    Map::empty().insert(seq!['k', 'e', 'y'], k).insert(seq!['v', 'a', 'l', 'u', 'e'], v)
}

/// The lines a repeat body expands to: the body rendered once per entry, in
/// pool order, each rendering contributing its lines.
pub open spec fn spec_expansion_lines(
    body: Seq<char>,
    entries: Seq<(Seq<char>, Seq<char>)>,
) -> Seq<Seq<char>>
    decreases entries.len(),
{
    if entries.len() == 0 {
        seq![]
    } else {
        spec_lines(spec_fill_at(body, entry_map(entries[0].0, entries[0].1), 0).0)
            + spec_expansion_lines(body, entries.drop_first())
    }
}

pub proof fn lemma_expansion_push(
    body: Seq<char>,
    entries: Seq<(Seq<char>, Seq<char>)>,
    x: (Seq<char>, Seq<char>),
)
    ensures
        spec_expansion_lines(body, entries.push(x)) == spec_expansion_lines(body, entries)
            + spec_lines(spec_fill_at(body, entry_map(x.0, x.1), 0).0),
    decreases entries.len(),
{
    if entries.len() == 0 {
        assert(entries.push(x)[0] == x);
        assert(entries.push(x).drop_first() =~= Seq::<(Seq<char>, Seq<char>)>::empty());
        assert(spec_expansion_lines(body, Seq::<(Seq<char>, Seq<char>)>::empty())
            == Seq::<Seq<char>>::empty());
        assert(spec_expansion_lines(body, entries) == Seq::<Seq<char>>::empty());
        assert(spec_expansion_lines(body, entries.push(x)) =~= spec_expansion_lines(body, entries)
            + spec_lines(spec_fill_at(body, entry_map(x.0, x.1), 0).0));
    } else {
        assert(entries.push(x)[0] == entries[0]);
        assert(entries.push(x).drop_first() =~= entries.drop_first().push(x));
        lemma_expansion_push(body, entries.drop_first(), x);
        assert(spec_expansion_lines(body, entries.push(x)) =~= spec_expansion_lines(body, entries)
            + spec_lines(spec_fill_at(body, entry_map(x.0, x.1), 0).0));
    }
}

/// What `expand_repeat_statement` owes for a template, value tables and a
/// template name: the first repeat block is expanded, or the malformation
/// that stops it is reported.
pub open spec fn spec_expand_outcome(
    t: Seq<char>,
    data: Seq<(Seq<char>, Seq<char>)>,
    vars: Seq<(Seq<char>, Seq<char>)>,
    tname: Seq<char>,
    r: Result<String, GenError>,
) -> bool {
    let ls = spec_lines(t);
    let s = find_marker_from(ls, 0);
    if s == ls.len() {
        match r {
            Ok(out) => out@ == t,
            Err(_) => false,
        }
    } else {
        let pool_name = spec_repeat_pool(ls[s])->Some_0;
        if pool_name != seq!['v', 'a', 'l', 'u', 'e', 's'] && pool_name != seq!['v', 'a', 'r', 's'] {
            match r {
                Err(GenError::UnknownPool { pool }) => pool@ == pool_name,
                _ => false,
            }
        } else {
            let entries = if pool_name == seq!['v', 'a', 'l', 'u', 'e', 's'] {
                data
            } else {
                vars
            };
            let e = find_endrepeat_from(ls, s + 1);
            if e == ls.len() {
                match r {
                    Err(GenError::MissingEndRepeat { template, line }) => template@ == tname && line
                        == s + 1,
                    _ => false,
                }
            } else {
                let nested = find_marker_from(ls, s + 1);
                if nested < e {
                    match r {
                        Err(GenError::NestedRepeat { outer_line, inner_line }) => outer_line == s
                            + 1 && inner_line == nested + 1,
                        _ => false,
                    }
                } else {
                    let body = spec_join(ls.subrange(s + 1, e));
                    let miss = if entries.len() > 0 {
                        spec_fill_at(body, entry_map(entries[0].0, entries[0].1), 0).1
                    } else {
                        seq![]
                    };
                    if miss.len() > 0 {
                        match r {
                            Err(GenError::MissingKeys { values_name, keys }) => values_name@
                                == seq!['k', 'e', 'y', ',', 'v', 'a', 'l', 'u', 'e'] && strs_view(
                                keys@,
                            ) == miss,
                            _ => false,
                        }
                    } else {
                        match r {
                            Ok(out) => out@ == spec_join(
                                ls.subrange(0, s) + spec_expansion_lines(body, entries)
                                    + ls.subrange(e + 1, ls.len() as int),
                            ),
                            _ => false,
                        }
                    }
                }
            }
        }
    }
}

/// The text one successful expansion round produces: `None` where the round
/// fails (unknown pool, missing endrepeat, nested marker, or a body key
/// outside `{key, value}` with a non-empty pool). A marker-less text comes
/// back unchanged.
pub open spec fn spec_expand_ok(
    t: Seq<char>,
    data: Seq<(Seq<char>, Seq<char>)>,
    vars: Seq<(Seq<char>, Seq<char>)>,
) -> Option<Seq<char>> {
    let ls = spec_lines(t);
    let s = find_marker_from(ls, 0);
    if s == ls.len() {
        Some(t)
    } else {
        let pool_name = spec_repeat_pool(ls[s])->Some_0;
        if pool_name != seq!['v', 'a', 'l', 'u', 'e', 's'] && pool_name != seq!['v', 'a', 'r', 's'] {
            None
        } else {
            let entries = if pool_name == seq!['v', 'a', 'l', 'u', 'e', 's'] {
                data
            } else {
                vars
            };
            let e = find_endrepeat_from(ls, s + 1);
            if e == ls.len() {
                None
            } else if find_marker_from(ls, s + 1) < e {
                None
            } else {
                let body = spec_join(ls.subrange(s + 1, e));
                let miss = if entries.len() > 0 {
                    spec_fill_at(body, entry_map(entries[0].0, entries[0].1), 0).1
                } else {
                    seq![]
                };
                if miss.len() > 0 {
                    None
                } else {
                    Some(
                        spec_join(
                            ls.subrange(0, s) + spec_expansion_lines(body, entries) + ls.subrange(
                                e + 1,
                                ls.len() as int,
                            ),
                        ),
                    )
                }
            }
        }
    }
}

/// A round that returns a text made it by a successful expansion.
pub proof fn lemma_expand_outcome_ok(
    t: Seq<char>,
    data: Seq<(Seq<char>, Seq<char>)>,
    vars: Seq<(Seq<char>, Seq<char>)>,
    tname: Seq<char>,
    out: String,
)
    requires
        spec_expand_outcome(t, data, vars, tname, Ok(out)),
    ensures
        spec_expand_ok(t, data, vars) == Some(out@),
{
}

/// A round that returns an error had no successful expansion.
pub proof fn lemma_expand_outcome_err(
    t: Seq<char>,
    data: Seq<(Seq<char>, Seq<char>)>,
    vars: Seq<(Seq<char>, Seq<char>)>,
    tname: Seq<char>,
    e: GenError,
)
    requires
        spec_expand_outcome(t, data, vars, tname, Err(e)),
    ensures
        spec_expand_ok(t, data, vars) is None,
{
}

/// How many repeat marker lines stand at or after line `i`.
pub open spec fn marker_count_from(lines: Seq<Seq<char>>, i: int) -> int
    recommends
        0 <= i <= lines.len(),
    decreases lines.len() - i,
{
    if i < 0 || i >= lines.len() {
        0
    } else {
        (if spec_repeat_pool(lines[i]) is Some {
            1int
        } else {
            0int
        }) + marker_count_from(lines, i + 1)
    }
}

pub proof fn lemma_marker_count_bounds(lines: Seq<Seq<char>>, i: int)
    requires
        0 <= i <= lines.len(),
    ensures
        0 <= marker_count_from(lines, i) <= lines.len() - i,
        marker_count_from(lines, i) == 0 <==> find_marker_from(lines, i) == lines.len(),
    decreases lines.len() - i,
{
    if i < lines.len() {
        lemma_marker_count_bounds(lines, i + 1);
    }
}

/// Counts the repeat marker lines of a text.
pub fn count_markers(text: &str) -> (c: usize)
    ensures
        c == marker_count_from(spec_lines(text@), 0),
{
    let lines = split_lines(text);
    let n = lines.len();
    let mut c: usize = 0;
    let mut i: usize = 0;
    proof {
        lemma_marker_count_bounds(strs_view(lines@), 0);
    }
    while i < n
        invariant
            0 <= i <= n,
            n == lines@.len(),
            c <= i,
            c + marker_count_from(strs_view(lines@), i as int) == marker_count_from(
                strs_view(lines@),
                0,
            ),
        decreases n - i,
    {
        proof {
            assert(strs_view(lines@)[i as int] == lines@[i as int]@);
        }
        match parse_repeat_line(lines[i].as_str()) {
            Some(_) => {
                proof {
                    lemma_marker_count_bounds(strs_view(lines@), i as int);
                }
                c = c + 1;
            },
            None => {},
        }
        i = i + 1;
    }
    c
}

/// First repeat marker line at or after `from`, with its pool name.
fn find_marker(lines: &Vec<String>, from: usize) -> (r: Option<(usize, String)>)
    requires
        from <= lines@.len(),
    ensures
        match r {
            Some(t) => t.0 == find_marker_from(strs_view(lines@), from as int) && from <= t.0
                < lines@.len() && spec_repeat_pool(strs_view(lines@)[t.0 as int]) == Some(t.1@),
            None => find_marker_from(strs_view(lines@), from as int) == lines@.len(),
        },
{
    let n = lines.len();
    let mut i = from;
    while i < n
        invariant
            from <= i <= n,
            n == lines@.len(),
            forall|j: int|
                from <= j < i ==> spec_repeat_pool(#[trigger] strs_view(lines@)[j]) is None,
        decreases n - i,
    {
        proof {
            assert(strs_view(lines@)[i as int] == lines@[i as int]@);
        }
        match parse_repeat_line(lines[i].as_str()) {
            Some(pool) => {
                proof {
                    lemma_find_marker_from_is(strs_view(lines@), from as int, i as int);
                }
                return Some((i, pool));
            },
            None => {},
        }
        i = i + 1;
    }
    proof {
        lemma_find_marker_from_is(strs_view(lines@), from as int, n as int);
    }
    None
}

/// First endrepeat marker line at or after `from`.
fn find_endrepeat(lines: &Vec<String>, from: usize) -> (r: Option<usize>)
    requires
        from <= lines@.len(),
    ensures
        match r {
            Some(e) => e == find_endrepeat_from(strs_view(lines@), from as int) && from <= e
                < lines@.len(),
            None => find_endrepeat_from(strs_view(lines@), from as int) == lines@.len(),
        },
{
    let n = lines.len();
    let mut i = from;
    while i < n
        invariant
            from <= i <= n,
            n == lines@.len(),
            forall|j: int| from <= j < i ==> !spec_is_endrepeat(#[trigger] strs_view(lines@)[j]),
        decreases n - i,
    {
        proof {
            assert(strs_view(lines@)[i as int] == lines@[i as int]@);
        }
        if is_endrepeat_line(lines[i].as_str()) {
            proof {
                lemma_find_endrepeat_from_is(strs_view(lines@), from as int, i as int);
            }
            return Some(i);
        }
        i = i + 1;
    }
    proof {
        lemma_find_endrepeat_from_is(strs_view(lines@), from as int, n as int);
    }
    None
}

/// Expands the first repeat block of `template`: the body between the
/// markers is rendered once per entry of the named pool, in pool order, and
/// replaces the block; a template without a marker comes back unchanged.
pub fn expand_repeat_statement(template: &str, values: &Values, template_name: &str) -> (r: Result<
    String,
    GenError,
>)
    requires
        values.wf(),
    ensures
        spec_expand_outcome(template@, values.data@, values.vars@, template_name@, r),
{
    let lines = split_lines(template);
    let ghost ls = spec_lines(template@);
    let n = lines.len();
    let found = find_marker(&lines, 0);
    match found {
        None => Ok(template.to_owned()),
        Some((s, pool)) => {
            let is_values = str_eq(pool.as_str(), "values");
            let is_vars = str_eq(pool.as_str(), "vars");
            proof {
                reveal_strlit("values");
                reveal_strlit("vars");
                assert("values"@ =~= seq!['v', 'a', 'l', 'u', 'e', 's']);
                assert("vars"@ =~= seq!['v', 'a', 'r', 's']);
            }
            if !is_values && !is_vars {
                return Err(GenError::UnknownPool { pool });
            }
            let entries_table = if is_values {
                &values.data
            } else {
                &values.vars
            };
            let ghost entries_v = entries_table@;
            match find_endrepeat(&lines, s + 1) {
                None => Err(
                    GenError::MissingEndRepeat { template: template_name.to_owned(), line: s + 1 },
                ),
                Some(e) => {
                    match find_marker(&lines, s + 1) {
                        Some(t) => {
                            if t.0 < e {
                                return Err(
                                    GenError::NestedRepeat { outer_line: s + 1, inner_line: t.0 + 1 },
                                );
                            }
                        },
                        None => {},
                    }
                    let body_lines = subvec(&lines, s + 1, e);
                    let body = join_lines(&body_lines);
                    let mut out_lines = subvec(&lines, 0, s);
                    proof {
                        assert(entries_v.take(0) =~= Seq::<(Seq<char>, Seq<char>)>::empty());
                        assert(spec_expansion_lines(body@, entries_v.take(0))
                            == Seq::<Seq<char>>::empty());
                        assert(ls.subrange(0, s as int) + Seq::<Seq<char>>::empty()
                            =~= ls.subrange(0, s as int));
                    }
                    let m = entries_table.len();
                    let mut idx: usize = 0;
                    while idx < m
                        invariant
                            0 <= idx <= m,
                            m == entries_v.len(),
                            entries_table@ == entries_v,
                            entries_table.wf(),
                            ls == spec_lines(template@),
                            strs_view(lines@) == ls,
                            s < e < n,
                            n == lines@.len(),
                            find_marker_from(ls, 0) == s as int,
                            spec_repeat_pool(ls[s as int]) == Some(pool@),
                            pool@ == seq!['v', 'a', 'l', 'u', 'e', 's'] || pool@ == seq![
                                'v',
                                'a',
                                'r',
                                's',
                            ],
                            entries_v == if pool@ == seq!['v', 'a', 'l', 'u', 'e', 's'] {
                                values.data@
                            } else {
                                values.vars@
                            },
                            find_endrepeat_from(ls, s as int + 1) == e as int,
                            find_marker_from(ls, s as int + 1) >= e as int,
                            body@ == spec_join(ls.subrange(s as int + 1, e as int)),
                            strs_view(out_lines@) == ls.subrange(0, s as int)
                                + spec_expansion_lines(body@, entries_v.take(idx as int)),
                            idx > 0 ==> spec_fill_at(
                                body@,
                                entry_map(entries_v[0].0, entries_v[0].1),
                                0,
                            ).1.len() == 0,
                        decreases m - idx,
                    {
                        let pair = entries_table.entry(idx);
                        let k = pair.0.clone();
                        let v = pair.1.clone();
                        let mut two = ValueTable::new();
                        two.insert("key".to_owned(), k);
                        two.insert("value".to_owned(), v);
                        proof {
                            reveal_strlit("key");
                            reveal_strlit("value");
                            assert("key"@ =~= seq!['k', 'e', 'y']);
                            assert("value"@ =~= seq!['v', 'a', 'l', 'u', 'e']);
                            assert(two.as_map() =~= entry_map(
                                entries_v[idx as int].0,
                                entries_v[idx as int].1,
                            ));
                        }
                        match fill_template(body.as_str(), &two, "key,value") {
                            Ok(filled) => {
                                let filled_lines = split_lines(filled.as_str());
                                append_all(&mut out_lines, &filled_lines);
                                proof {
                                    lemma_expansion_push(
                                        body@,
                                        entries_v.take(idx as int),
                                        entries_v[idx as int],
                                    );
                                    assert(entries_v.take(idx as int).push(entries_v[idx as int])
                                        =~= entries_v.take(idx as int + 1));
                                    assert(strs_view(out_lines@) =~= ls.subrange(0, s as int)
                                        + spec_expansion_lines(
                                        body@,
                                        entries_v.take(idx as int + 1),
                                    ));
                                }
                            },
                            Err(err) => {
                                proof {
                                    if idx > 0 {
                                        crate::fill::lemma_fill_missing_dom(
                                            body@,
                                            entry_map(entries_v[0].0, entries_v[0].1),
                                            entry_map(
                                                entries_v[idx as int].0,
                                                entries_v[idx as int].1,
                                            ),
                                            0,
                                        );
                                        assert(entry_map(entries_v[0].0, entries_v[0].1).dom()
                                            =~= entry_map(
                                            entries_v[idx as int].0,
                                            entries_v[idx as int].1,
                                        ).dom());
                                        assert(false);
                                    }
                                    reveal_strlit("key,value");
                                    assert("key,value"@ =~= seq![
                                        'k',
                                        'e',
                                        'y',
                                        ',',
                                        'v',
                                        'a',
                                        'l',
                                        'u',
                                        'e',
                                    ]);
                                }
                                return Err(err);
                            },
                        }
                        idx = idx + 1;
                    }
                    let tail = subvec(&lines, e + 1, n);
                    append_all(&mut out_lines, &tail);
                    let out = join_lines(&out_lines);
                    proof {
                        assert(entries_v.take(m as int) =~= entries_v);
                        assert(strs_view(out_lines@) =~= ls.subrange(0, s as int)
                            + spec_expansion_lines(body@, entries_v) + ls.subrange(
                            e as int + 1,
                            n as int,
                        ));
                    }
                    Ok(out)
                },
            }
        },
    }
}

} // verus!
