//! The section synchronizer.
//!
//! Before rendered content is appended or prepended to a destination file,
//! any block previously inserted there is excised: scanning line by line, a
//! line equal to the rendered content's first line opens a block, and every
//! line through the next one equal to the rendered content's last line
//! falls with it. What remains is kept in order, each line with a newline
//! after it, so re-running the same template replaces its own block instead
//! of stacking another copy.

use vstd::prelude::*;
use vstd::string::StrSliceExecFns;
use vstd::string::StringExecFns;
use crate::config::TemplateMode;
use crate::error::GenError;
use crate::text::{spec_lines, split_lines, str_eq, strs_view};

verus! {

/// The destination lines that survive the excision, scanning from `i` with
/// the given in-block flag: outside a block, a line equal to `first` opens
/// one and falls; inside, every line falls, and one equal to `last` closes
/// the block as it falls.
pub open spec fn spec_clean_lines(
    dest: Seq<Seq<char>>,
    i: int,
    skipping: bool,
    first: Seq<char>,
    last: Seq<char>,
) -> Seq<Seq<char>>
    recommends
        0 <= i <= dest.len(),
    decreases dest.len() - i,
{
    if i < 0 || i >= dest.len() {
        seq![]
    } else {
        let line = dest[i];
        if !skipping && line == first {
            spec_clean_lines(dest, i + 1, true, first, last)
        } else if skipping && line == last {
            spec_clean_lines(dest, i + 1, false, first, last)
        } else if skipping {
            spec_clean_lines(dest, i + 1, true, first, last)
        } else {
            seq![line] + spec_clean_lines(dest, i + 1, false, first, last)
        }
    }
}

/// The lines laid out one after another, each with a newline after it.
pub open spec fn spec_cat_lines(lines: Seq<Seq<char>>) -> Seq<char>
    decreases lines.len(),
{
    if lines.len() == 0 {
        seq![]
    } else {
        lines[0] + seq!['\n'] + spec_cat_lines(lines.drop_first())
    }
}

/// What remains of a destination text after the block bounded by the
/// rendered content's first and last lines is excised.
pub open spec fn spec_clean(dest: Seq<char>, rendered: Seq<char>) -> Seq<char> {
    let rl = spec_lines(rendered);
    spec_cat_lines(spec_clean_lines(spec_lines(dest), 0, false, rl[0], rl[rl.len() - 1]))
}

/// Laying out lines and splitting again round-trips, and what follows the
/// laid-out lines splits on its own — provided no line holds a newline or
/// ends in a carriage return.
proof fn lemma_lines_of_cat(ls: Seq<Seq<char>>, tail: Seq<char>)
    requires
        forall|t: int, u: int|
            0 <= t < ls.len() && 0 <= u < ls[t].len() ==> #[trigger] ls[t][u] != '\n',
        forall|t: int| 0 <= t < ls.len() ==> ls[t].len() == 0 || (#[trigger] ls[t]).last() != '\r',
    ensures
        spec_lines(spec_cat_lines(ls) + tail) == ls + spec_lines(tail),
    decreases ls.len(),
{
    if ls.len() == 0 {
        assert(spec_cat_lines(ls) + tail =~= tail);
        assert(ls + spec_lines(tail) =~= spec_lines(tail));
    } else {
        let head = ls[0];
        let rest = ls.drop_first();
        let x = spec_cat_lines(ls) + tail;
        let lhead = head.len() as int;
        assert(x =~= head + seq!['\n'] + (spec_cat_lines(rest) + tail));
        assert(forall|u: int| 0 <= u < lhead ==> x[u] == head[u]);
        assert(x[lhead] == '\n');
        crate::text::lemma_find_newline_is(x, 0, lhead);
        assert(x.subrange(0, lhead) =~= head);
        assert(crate::text::spec_strip_cr(head) == head);
        crate::text::lemma_lines_at_skip(x, lhead + 1);
        assert(x.skip(lhead + 1) =~= spec_cat_lines(rest) + tail);
        assert(forall|t: int, u: int|
            0 <= t < rest.len() && 0 <= u < rest[t].len() ==> #[trigger] rest[t][u] != '\n');
        assert(forall|t: int|
            0 <= t < rest.len() ==> rest[t].len() == 0 || (#[trigger] rest[t]).last() != '\r');
        lemma_lines_of_cat(rest, tail);
        assert(spec_lines(x) =~= ls + spec_lines(tail));
    }
}

/// Every line the excision keeps came from the destination and differs from
/// the block's first line.
proof fn lemma_clean_lines_kept(
    dest: Seq<Seq<char>>,
    i: int,
    skipping: bool,
    first: Seq<char>,
    last: Seq<char>,
)
    requires
        0 <= i <= dest.len(),
    ensures
        forall|t: int|
            0 <= t < spec_clean_lines(dest, i, skipping, first, last).len() ==> (
            #[trigger] spec_clean_lines(dest, i, skipping, first, last)[t]) != first && (exists|
                k: int,
            | i <= k < dest.len() && dest[k] == spec_clean_lines(dest, i, skipping, first, last)[t]),
    decreases dest.len() - i,
{
    if i < dest.len() {
        let line = dest[i];
        let r = spec_clean_lines(dest, i, skipping, first, last);
        if !skipping || line == first || line == last {
            let sk2 = if !skipping { line == first } else { !(line == last) };
            lemma_clean_lines_kept(dest, i + 1, sk2, first, last);
            let rec = spec_clean_lines(dest, i + 1, sk2, first, last);
            if !skipping && line != first {
                assert forall|t: int| 0 <= t < r.len() implies (#[trigger] r[t]) != first && (
                exists|k: int| i <= k < dest.len() && dest[k] == r[t]) by {
                    if t == 0 {
                        assert(r[0] == line);
                        assert(dest[i] == r[0]);
                    } else {
                        assert(r[t] == rec[t - 1]);
                        let k = choose|k: int| i + 1 <= k < dest.len() && dest[k] == rec[t - 1];
                        assert(dest[k] == r[t]);
                    }
                }
            } else {
                assert(r == rec);
                assert forall|t: int| 0 <= t < r.len() implies (#[trigger] r[t]) != first && (
                exists|k: int| i <= k < dest.len() && dest[k] == r[t]) by {
                    assert(rec[t] != first);
                    let k = choose|k: int| i + 1 <= k < dest.len() && dest[k] == rec[t];
                    assert(dest[k] == r[t]);
                }
            }
        } else {
            lemma_clean_lines_kept(dest, i + 1, true, first, last);
            let rec = spec_clean_lines(dest, i + 1, true, first, last);
            assert(r == rec);
            assert forall|t: int| 0 <= t < r.len() implies (#[trigger] r[t]) != first && (exists|
                k: int,
            | i <= k < dest.len() && dest[k] == r[t]) by {
                assert(rec[t] != first);
                let k = choose|k: int| i + 1 <= k < dest.len() && dest[k] == rec[t];
                assert(dest[k] == r[t]);
            }
        }
    }
}

/// Scanning outside a block through lines that never open one keeps them
/// all.
proof fn lemma_clean_through_prefix(
    d: Seq<Seq<char>>,
    i: int,
    c_len: int,
    first: Seq<char>,
    last: Seq<char>,
)
    requires
        0 <= i <= c_len <= d.len(),
        forall|k: int| i <= k < c_len ==> d[k] != first,
    ensures
        spec_clean_lines(d, i, false, first, last) == d.subrange(i, c_len) + spec_clean_lines(
            d,
            c_len,
            false,
            first,
            last,
        ),
    decreases c_len - i,
{
    if i < c_len {
        lemma_clean_through_prefix(d, i + 1, c_len, first, last);
        assert(spec_clean_lines(d, i, false, first, last) =~= d.subrange(i, c_len)
            + spec_clean_lines(d, c_len, false, first, last));
    } else {
        assert(d.subrange(i, c_len) =~= Seq::<Seq<char>>::empty());
        assert(spec_clean_lines(d, i, false, first, last) =~= d.subrange(i, c_len)
            + spec_clean_lines(d, c_len, false, first, last));
    }
}

/// Inside a block, every line up to and including the closing one falls.
proof fn lemma_clean_skip_interior(
    d: Seq<Seq<char>>,
    j: int,
    close: int,
    first: Seq<char>,
    last: Seq<char>,
)
    requires
        0 <= j <= close < d.len(),
        forall|k: int| j <= k < close ==> d[k] != last,
        d[close] == last,
    ensures
        spec_clean_lines(d, j, true, first, last) == spec_clean_lines(
            d,
            close + 1,
            false,
            first,
            last,
        ),
    decreases close - j,
{
    if j < close {
        lemma_clean_skip_interior(d, j + 1, close, first, last);
    }
}

/// A text that ends with a newline splits independently of what follows it.
proof fn lemma_lines_of_terminated(r: Seq<char>, x: Seq<char>)
    requires
        r.len() > 0,
        r.last() == '\n',
    ensures
        spec_lines(r + x) == spec_lines(r) + spec_lines(x),
    decreases r.len(),
{
    let whole = r + x;
    let j = crate::text::find_newline(r, 0);
    crate::text::lemma_find_newline(r, 0);
    assert(j < r.len()) by {
        if j >= r.len() {
            assert(r[r.len() - 1] != '\n');
        }
    }
    assert(forall|u: int| 0 <= u < j ==> whole[u] == r[u]);
    assert(whole[j] == '\n');
    crate::text::lemma_find_newline_is(whole, 0, j);
    assert(whole.subrange(0, j) =~= r.subrange(0, j));
    crate::text::lemma_lines_at_skip(whole, j + 1);
    crate::text::lemma_lines_at_skip(r, j + 1);
    let rest = r.skip(j + 1);
    assert(whole.skip(j + 1) =~= rest + x);
    if rest.len() == 0 {
        assert(rest + x =~= x);
        assert(spec_lines(r) =~= seq![crate::text::spec_strip_cr(r.subrange(0, j))]);
        assert(spec_lines(r + x) =~= spec_lines(r) + spec_lines(x));
    } else {
        assert(rest.last() == '\n');
        lemma_lines_of_terminated(rest, x);
        assert(spec_lines(r + x) =~= spec_lines(r) + spec_lines(x));
    }
}

/// Law: a prepend is idempotent — running it again over its own output
/// writes the same bytes. Besides what the append law asks, the rendered
/// content must end with a newline, so that its last line does not fuse
/// with the remainder behind it.
pub proof fn lemma_prepend_idempotent(dest: Seq<char>, rendered: Seq<char>)
    requires
        rendered.len() > 0,
        rendered.last() == '\n',
        spec_lines(rendered).len() >= 2,
        forall|i: int|
            1 <= i < spec_lines(rendered).len() - 1 ==> (#[trigger] spec_lines(rendered)[i])
                != spec_lines(rendered).last(),
        forall|t: int|
            0 <= t < spec_lines(dest).len() ==> (#[trigger] spec_lines(dest)[t]).len() == 0
                || spec_lines(dest)[t].last() != '\r',
    ensures
        rendered + spec_clean(rendered + spec_clean(dest, rendered), rendered) == rendered
            + spec_clean(dest, rendered),
{
    let rl = spec_lines(rendered);
    let f = rl[0];
    let l = rl[rl.len() - 1];
    let dl = spec_lines(dest);
    let c = spec_clean_lines(dl, 0, false, f, l);
    lemma_clean_lines_kept(dl, 0, false, f, l);
    crate::text::lemma_lines_at_props(dest, 0);
    assert forall|t: int, u: int|
        0 <= t < c.len() && 0 <= u < c[t].len() implies #[trigger] c[t][u] != '\n' by {
        let k = choose|k: int| 0 <= k < dl.len() && dl[k] == c[t];
        assert(dl[k][u] != '\n');
    }
    assert forall|t: int| 0 <= t < c.len() implies c[t].len() == 0 || (#[trigger] c[t]).last()
        != '\r' by {
        let k = choose|k: int| 0 <= k < dl.len() && dl[k] == c[t];
    }
    lemma_lines_of_terminated(rendered, spec_cat_lines(c));
    assert(spec_cat_lines(c) + Seq::<char>::empty() =~= spec_cat_lines(c));
    lemma_lines_of_cat(c, Seq::<char>::empty());
    assert(spec_lines(Seq::<char>::empty()) =~= Seq::<Seq<char>>::empty());
    assert(spec_lines(spec_cat_lines(c)) =~= c);
    let once_tail = rendered + spec_cat_lines(c);
    assert(spec_lines(once_tail) == rl + c);
    let d2 = rl + c;
    assert(d2[0] == f);
    assert(spec_clean_lines(d2, 0, false, f, l) == spec_clean_lines(d2, 1, true, f, l));
    let close = rl.len() as int - 1;
    assert(d2[close] == l);
    assert forall|k: int| 1 <= k < close implies d2[k] != l by {
        assert(d2[k] == rl[k]);
    }
    if close >= 1 {
        lemma_clean_skip_interior(d2, 1, close, f, l);
    }
    assert(spec_clean_lines(d2, 1, true, f, l) == spec_clean_lines(d2, close + 1, false, f, l));
    assert(forall|k: int| close + 1 <= k < d2.len() ==> d2[k] == c[k - rl.len()]);
    assert(forall|k: int| close + 1 <= k < d2.len() ==> d2[k] != f);
    lemma_clean_through_prefix(d2, close + 1, d2.len() as int, f, l);
    assert(spec_clean_lines(d2, d2.len() as int, false, f, l) =~= Seq::<Seq<char>>::empty());
    assert(d2.subrange(close + 1, d2.len() as int) =~= c);
    assert(spec_clean_lines(d2, 0, false, f, l) =~= c);
    assert(spec_clean(once_tail, rendered) == spec_cat_lines(c));
}

/// Law: an append is idempotent — running it again over its own output
/// writes the same bytes, replacing the block it inserted rather than
/// stacking a second copy. The rendered content must span at least two
/// lines and must not repeat its last line strictly inside itself, and no
/// destination line may end in a carriage return.
pub proof fn lemma_append_idempotent(dest: Seq<char>, rendered: Seq<char>)
    requires
        spec_lines(rendered).len() >= 2,
        forall|i: int|
            1 <= i < spec_lines(rendered).len() - 1 ==> (#[trigger] spec_lines(rendered)[i])
                != spec_lines(rendered).last(),
        forall|t: int|
            0 <= t < spec_lines(dest).len() ==> (#[trigger] spec_lines(dest)[t]).len() == 0
                || spec_lines(dest)[t].last() != '\r',
    ensures
        spec_clean(spec_clean(dest, rendered) + rendered, rendered) == spec_clean(dest, rendered),
        spec_clean(spec_clean(dest, rendered) + rendered, rendered) + rendered == spec_clean(
            dest,
            rendered,
        ) + rendered,
{
    let rl = spec_lines(rendered);
    let f = rl[0];
    let l = rl[rl.len() - 1];
    let dl = spec_lines(dest);
    let c = spec_clean_lines(dl, 0, false, f, l);
    lemma_clean_lines_kept(dl, 0, false, f, l);
    crate::text::lemma_lines_at_props(dest, 0);
    assert forall|t: int, u: int|
        0 <= t < c.len() && 0 <= u < c[t].len() implies #[trigger] c[t][u] != '\n' by {
        let k = choose|k: int| 0 <= k < dl.len() && dl[k] == c[t];
        assert(dl[k][u] != '\n');
    }
    assert forall|t: int| 0 <= t < c.len() implies c[t].len() == 0 || (#[trigger] c[t]).last()
        != '\r' by {
        let k = choose|k: int| 0 <= k < dl.len() && dl[k] == c[t];
    }
    lemma_lines_of_cat(c, rendered);
    let once = spec_clean(dest, rendered) + rendered;
    assert(spec_lines(once) == c + rl);
    let d2 = c + rl;
    assert(forall|k: int| 0 <= k < c.len() ==> d2[k] == c[k] && d2[k] != f);
    lemma_clean_through_prefix(d2, 0, c.len() as int, f, l);
    assert(d2.subrange(0, c.len() as int) =~= c);
    assert(d2[c.len() as int] == f);
    assert(spec_clean_lines(d2, c.len() as int, false, f, l) == spec_clean_lines(
        d2,
        c.len() as int + 1,
        true,
        f,
        l,
    ));
    let close = c.len() as int + rl.len() as int - 1;
    assert(d2[close] == l);
    assert forall|k: int| c.len() + 1 <= k < close implies d2[k] != l by {
        assert(d2[k] == rl[k - c.len()]);
    }
    lemma_clean_skip_interior(d2, c.len() as int + 1, close, f, l);
    assert(spec_clean_lines(d2, close + 1, false, f, l) =~= Seq::<Seq<char>>::empty());
    assert(spec_clean_lines(d2, 0, false, f, l) =~= c);
    assert(spec_clean(once, rendered) == spec_cat_lines(c));
}

/// Removes a previously inserted copy of `rendered` from the existing
/// destination content. A missing destination leaves nothing to clean; an
/// existing one demands rendered content of at least two lines, whose first
/// and last bound the excised block.
pub fn clean_template(existing: Option<&str>, rendered: &str, template_name: &str) -> (r: Result<
    String,
    GenError,
>)
    ensures
        ({
            match existing {
                None => match r {
                    Ok(out) => out@ == Seq::<char>::empty(),
                    Err(_) => false,
                },
                Some(dest) => {
                    let rl = spec_lines(rendered@);
                    if rl.len() == 0 {
                        match r {
                            Err(GenError::EmptyTemplate { template }) => template@
                                == template_name@,
                            _ => false,
                        }
                    } else if rl.len() == 1 {
                        match r {
                            Err(GenError::SingleLineTemplate { template }) => template@
                                == template_name@,
                            _ => false,
                        }
                    } else {
                        match r {
                            Ok(out) => out@ == spec_clean(dest@, rendered@),
                            Err(_) => false,
                        }
                    }
                },
            }
        }),
{
    let dest = match existing {
        None => {
            return Ok(String::new());
        },
        Some(d) => d,
    };
    let rlines = split_lines(rendered);
    if rlines.len() == 0 {
        return Err(GenError::EmptyTemplate { template: template_name.to_owned() });
    }
    if rlines.len() == 1 {
        return Err(GenError::SingleLineTemplate { template: template_name.to_owned() });
    }
    let ghost rl = spec_lines(rendered@);
    let ghost f = rl[0];
    let ghost l = rl[rl.len() - 1];
    proof {
        assert(strs_view(rlines@)[0] == rlines@[0]@);
        assert(strs_view(rlines@)[rlines@.len() - 1] == rlines@[rlines@.len() - 1]@);
    }
    let dlines = split_lines(dest);
    let ghost dv = spec_lines(dest@);
    let n = dlines.len();
    let mut out = String::new();
    let mut skipping = false;
    let mut i: usize = 0;
    proof {
        reveal_strlit("\n");
    }
    while i < n
        invariant
            0 <= i <= n,
            n == dlines@.len(),
            strs_view(dlines@) == dv,
            rlines@.len() >= 2,
            f == rlines@[0]@,
            l == rlines@[rlines@.len() - 1]@,
            "\n"@ == seq!['\n'],
            spec_cat_lines(spec_clean_lines(dv, 0, false, f, l)) == out@ + spec_cat_lines(
                spec_clean_lines(dv, i as int, skipping, f, l),
            ),
        decreases n - i,
    {
        proof {
            assert(strs_view(dlines@)[i as int] == dlines@[i as int]@);
        }
        if !skipping && str_eq(dlines[i].as_str(), rlines[0].as_str()) {
            skipping = true;
        } else if skipping && str_eq(dlines[i].as_str(), rlines[rlines.len() - 1].as_str()) {
            skipping = false;
        } else if !skipping {
            let ghost out0 = out@;
            out.append(dlines[i].as_str());
            out.append("\n");
            proof {
                let rest = spec_clean_lines(dv, i as int + 1, false, f, l);
                assert(spec_clean_lines(dv, i as int, false, f, l) == seq![dv[i as int]] + rest);
                assert((seq![dv[i as int]] + rest).drop_first() =~= rest);
                assert((seq![dv[i as int]] + rest)[0] == dv[i as int]);
                assert(spec_cat_lines(seq![dv[i as int]] + rest) == dv[i as int] + seq!['\n']
                    + spec_cat_lines(rest));
                assert(out0 + (dv[i as int] + seq!['\n'] + spec_cat_lines(rest)) =~= out@
                    + spec_cat_lines(rest));
            }
        }
        i = i + 1;
    }
    proof {
        assert(spec_cat_lines(spec_clean_lines(dv, n as int, skipping, f, l)) =~= Seq::<
            char,
        >::empty());
    }
    Ok(out)
}

/// The final bytes for one destination path: Replace hands the rendered
/// content through; Append keeps the cleaned remainder first; Prepend puts
/// the rendered content first. A destination that does not exist counts as
/// empty remainder.
pub fn compose_output(
    mode: &TemplateMode,
    rendered: &str,
    existing: Option<&str>,
    template_name: &str,
) -> (r: Result<String, GenError>)
    ensures
        ({
            match mode {
                TemplateMode::Replace => match r {
                    Ok(out) => out@ == rendered@,
                    Err(_) => false,
                },
                _ => {
                    match existing {
                        None => match r {
                            Ok(out) => out@ == rendered@,
                            Err(_) => false,
                        },
                        Some(dest) => {
                            let rl = spec_lines(rendered@);
                            if rl.len() == 0 {
                                match r {
                                    Err(GenError::EmptyTemplate { template }) => template@
                                        == template_name@,
                                    _ => false,
                                }
                            } else if rl.len() == 1 {
                                match r {
                                    Err(GenError::SingleLineTemplate { template }) => template@
                                        == template_name@,
                                    _ => false,
                                }
                            } else {
                                match r {
                                    Ok(out) => out@ == (if mode is Append {
                                        spec_clean(dest@, rendered@) + rendered@
                                    } else {
                                        rendered@ + spec_clean(dest@, rendered@)
                                    }),
                                    Err(_) => false,
                                }
                            }
                        },
                    }
                },
            }
        }),
{
    match mode {
        TemplateMode::Replace => Ok(rendered.to_owned()),
        TemplateMode::Append => {
            match clean_template(existing, rendered, template_name) {
                Ok(mut cleaned) => {
                    cleaned.append(rendered);
                    Ok(cleaned)
                },
                Err(e) => Err(e),
            }
        },
        TemplateMode::Prepend => {
            match clean_template(existing, rendered, template_name) {
                Ok(cleaned) => {
                    let mut out = rendered.to_owned();
                    out.append(cleaned.as_str());
                    Ok(out)
                },
                Err(e) => Err(e),
            }
        },
    }
}

} // verus!
