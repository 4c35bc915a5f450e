//! The placeholder resolver.
//!
//! A placeholder token is `{{`, optional whitespace, a non-empty run of
//! non-whitespace characters, optional whitespace, and `}}`. The token's key
//! may begin with dashes: each dash drops one leading character from the
//! resolved value. Text between two braces that holds whitespace is no
//! placeholder and passes through unchanged. All keys the table does not
//! hold are collected, and reported together after the whole text was
//! scanned.

use vstd::prelude::*;
use vstd::string::StrSliceExecFns;
use vstd::string::StringExecFns;
use crate::error::GenError;
use crate::text::{
    char_is_space,
    first_non_space_at,
    first_non_space_from,
    is_space,
    lemma_first_non_space_at,
    lemma_first_non_space_at_is,
    remove_prefix,
    spec_drop_prefix,
    strs_view,
};
use crate::values::ValueTable;

verus! {

/// Whether a key ends at this position: whitespace, or the start of a
/// closing `}}` pair.
pub open spec fn is_break(s: Seq<char>, idx: int) -> bool {
    is_space(s[idx]) || (idx + 1 < s.len() && s[idx] == '}' && s[idx + 1] == '}')
}

/// First index at or after `j` where a key would end, or `s.len()` if none.
pub open spec fn first_break_at(s: Seq<char>, j: int) -> int
    recommends
        0 <= j <= s.len(),
    decreases s.len() - j,
{
    if j < 0 || j >= s.len() {
        s.len() as int
    } else if is_break(s, j) {
        j
    } else {
        first_break_at(s, j + 1)
    }
}

pub proof fn lemma_first_break_at(s: Seq<char>, j: int)
    requires
        0 <= j <= s.len(),
    ensures
        j <= first_break_at(s, j) <= s.len(),
        first_break_at(s, j) < s.len() ==> is_break(s, first_break_at(s, j)),
        forall|m: int| j <= m < first_break_at(s, j) ==> !is_break(s, m),
    decreases s.len() - j,
{
    if j < s.len() && !is_break(s, j) {
        lemma_first_break_at(s, j + 1);
    }
}

pub proof fn lemma_first_break_at_is(s: Seq<char>, j: int, m: int)
    requires
        0 <= j <= m <= s.len(),
        forall|u: int| j <= u < m ==> !is_break(s, u),
        m < s.len() ==> is_break(s, m),
    ensures
        first_break_at(s, j) == m,
    decreases m - j,
{
    if j < m {
        lemma_first_break_at_is(s, j + 1, m);
    }
}

/// The placeholder token anchored at position `i`, if one begins there:
/// the bounds of its key and the position right after the closing braces.
///
/// The key is the non-empty run after `{{` and any whitespace that reaches
/// the first whitespace or closing `}}` pair; after it, only whitespace may
/// stand before the `}}` that ends the token.
pub open spec fn spec_token_at(s: Seq<char>, i: int) -> Option<(int, int, int)>
    recommends
        0 <= i <= s.len(),
{
    if i < 0 || i + 2 > s.len() || s[i] != '{' || s[i + 1] != '{' {
        None
    } else {
        let j = first_non_space_at(s, i + 2);
        if j >= s.len() {
            None
        } else {
            let k = first_break_at(s, j);
            if k == j || k >= s.len() {
                None
            } else if !is_space(s[k]) {
                Some((j, k, k + 2))
            } else {
                let p = first_non_space_at(s, k);
                if p + 2 <= s.len() && s[p] == '}' && s[p + 1] == '}' {
                    Some((j, k, p + 2))
                } else {
                    None
                }
            }
        }
    }
}

/// Bounds of a matched token: the key is non-empty, free of whitespace, and
/// the match reaches past it.
pub proof fn lemma_token_at(s: Seq<char>, i: int)
    requires
        0 <= i <= s.len(),
    ensures
        match spec_token_at(s, i) {
            Some((ks, ke, me)) => {
                &&& i + 2 <= ks < ke <= s.len()
                &&& ke < me <= s.len()
                &&& forall|j: int| ks <= j < ke ==> !is_space(s[j])
            },
            None => true,
        },
{
    if !(i < 0 || i + 2 > s.len() || s[i] != '{' || s[i + 1] != '{') {
        let j = first_non_space_at(s, i + 2);
        lemma_first_non_space_at(s, i + 2);
        if j < s.len() {
            let k = first_break_at(s, j);
            lemma_first_break_at(s, j);
            assert forall|m: int| j <= m < k implies !is_space(s[m]) by {
                assert(!is_break(s, m));
            }
            if j < k < s.len() {
                if !is_space(s[k]) {
                    assert(is_break(s, k));
                    assert(k + 1 < s.len());
                } else {
                    lemma_first_non_space_at(s, k);
                }
            }
        }
    }
}

/// First index at or after `i` that is not a dash, or `k.len()` if none.
pub open spec fn first_non_dash(k: Seq<char>, i: int) -> int
    recommends
        0 <= i <= k.len(),
    decreases k.len() - i,
{
    if i < 0 || i >= k.len() {
        k.len() as int
    } else if k[i] != '-' {
        i
    } else {
        first_non_dash(k, i + 1)
    }
}

pub proof fn lemma_first_non_dash_is(k: Seq<char>, i: int, j: int)
    requires
        0 <= i <= j <= k.len(),
        forall|m: int| i <= m < j ==> k[m] == '-',
        j < k.len() ==> k[j] != '-',
    ensures
        first_non_dash(k, i) == j,
    decreases j - i,
{
    if i < j {
        lemma_first_non_dash_is(k, i + 1, j);
    }
}

/// The rendered text and the missing keys, scanning from position `i` on.
///
/// Each placeholder token is replaced by the value under its dash-trimmed
/// key, with as many leading characters dropped as the key had dashes; a key
/// the table does not hold contributes nothing to the text and is recorded.
/// Every other character is kept.
pub open spec fn spec_fill_at(s: Seq<char>, pool: Map<Seq<char>, Seq<char>>, i: int) -> (Seq<char>, Seq<
    Seq<char>,
>)
    recommends
        0 <= i <= s.len(),
    decreases s.len() - i,
{
    if i < 0 || i >= s.len() {
        (seq![], seq![])
    } else {
        match spec_token_at(s, i) {
            Some((ks, ke, me)) => {
                proof {
                    lemma_token_at(s, i);
                }
                let key = s.subrange(ks, ke);
                let d = first_non_dash(key, 0);
                let trimmed = key.skip(d);
                let rest = spec_fill_at(s, pool, me);
                if pool.dom().contains(trimmed) {
                    (spec_drop_prefix(pool[trimmed], d) + rest.0, rest.1)
                } else {
                    (rest.0, seq![trimmed] + rest.1)
                }
            },
            None => {
                let rest = spec_fill_at(s, pool, i + 1);
                (seq![s[i]] + rest.0, rest.1)
            },
        }
    }
}

/// The set of dash-trimmed placeholder keys of the text, from position `i`
/// on.
pub open spec fn spec_keys_at(s: Seq<char>, i: int) -> Set<Seq<char>>
    recommends
        0 <= i <= s.len(),
    decreases s.len() - i,
{
    if i < 0 || i >= s.len() {
        Set::empty()
    } else {
        match spec_token_at(s, i) {
            Some((ks, ke, me)) => {
                proof {
                    lemma_token_at(s, i);
                }
                let key = s.subrange(ks, ke);
                let trimmed = key.skip(first_non_dash(key, 0));
                spec_keys_at(s, me).insert(trimmed)
            },
            None => spec_keys_at(s, i + 1),
        }
    }
}

/// The set a sequence's elements make, grown head-first.
proof fn lemma_to_set_cons(x: Seq<char>, rest: Seq<Seq<char>>)
    ensures
        (seq![x] + rest).to_set() == rest.to_set().insert(x),
{
    let all = seq![x] + rest;
    assert forall|y: Seq<char>| #[trigger] all.to_set().contains(y) implies rest.to_set().insert(
        x,
    ).contains(y) by {
        let k = choose|k: int| 0 <= k < all.len() && all[k] == y;
        if k > 0 {
            assert(rest[k - 1] == y);
            assert(rest.to_set().contains(y));
        }
    }
    assert forall|y: Seq<char>| rest.to_set().insert(x).contains(y) implies #[trigger] all.to_set().contains(
        y,
    ) by {
        if y == x {
            assert(all[0] == y);
        } else {
            assert(rest.to_set().contains(y));
            let k = choose|k: int| 0 <= k < rest.len() && rest[k] == y;
            assert(all[k + 1] == y);
        }
    }
    assert((seq![x] + rest).to_set() =~= rest.to_set().insert(x));
}

/// An empty sequence makes an empty set, and only it does.
proof fn lemma_to_set_empty(s: Seq<Seq<char>>)
    ensures
        s.to_set() == Set::<Seq<char>>::empty() <==> s.len() == 0,
{
    if s.len() == 0 {
        assert(s.to_set() =~= Set::<Seq<char>>::empty());
    } else {
        assert(s.to_set().contains(s[0]));
        assert(!Set::<Seq<char>>::empty().contains(s[0]));
    }
}

/// Law: the keys reported missing are exactly the placeholder keys the
/// table lacks — so filling succeeds exactly when every placeholder key is
/// a key of the table.
pub proof fn lemma_fill_missing_exact(s: Seq<char>, pool: Map<Seq<char>, Seq<char>>, i: int)
    requires
        0 <= i <= s.len(),
    ensures
        spec_fill_at(s, pool, i).1.to_set() == spec_keys_at(s, i).difference(pool.dom()),
        spec_fill_at(s, pool, i).1.len() == 0 <==> spec_keys_at(s, i).subset_of(pool.dom()),
    decreases s.len() - i,
{
    broadcast use vstd::set::group_set_axioms;

    if i >= s.len() {
        assert(spec_fill_at(s, pool, i).1.to_set() =~= spec_keys_at(s, i).difference(pool.dom()));
    } else {
        match spec_token_at(s, i) {
            Some(t) => {
                let (ks, ke, me) = t;
                lemma_token_at(s, i);
                lemma_fill_missing_exact(s, pool, me);
                let key = s.subrange(ks, ke);
                let trimmed = key.skip(first_non_dash(key, 0));
                let rest = spec_fill_at(s, pool, me);
                if pool.dom().contains(trimmed) {
                    assert(spec_keys_at(s, i).difference(pool.dom()) =~= spec_keys_at(
                        s,
                        me,
                    ).difference(pool.dom()));
                } else {
                    lemma_to_set_cons(trimmed, rest.1);
                    assert(spec_keys_at(s, i).difference(pool.dom()) =~= spec_keys_at(
                        s,
                        me,
                    ).difference(pool.dom()).insert(trimmed));
                    assert(spec_fill_at(s, pool, i).1.len() > 0);
                    assert(!spec_keys_at(s, i).subset_of(pool.dom())) by {
                        assert(spec_keys_at(s, i).contains(trimmed));
                    }
                }
            },
            None => {
                lemma_fill_missing_exact(s, pool, i + 1);
            },
        }
        lemma_to_set_empty(spec_fill_at(s, pool, i).1);
        if spec_fill_at(s, pool, i).1.len() == 0 {
            assert(spec_fill_at(s, pool, i).1.to_set() =~= Set::<Seq<char>>::empty());
            assert(spec_keys_at(s, i).difference(pool.dom()) == Set::<Seq<char>>::empty());
            assert forall|y: Seq<char>| spec_keys_at(s, i).contains(y) implies pool.dom().contains(
                y,
            ) by {
                assert(!spec_keys_at(s, i).difference(pool.dom()).contains(y));
            }
        }
        if spec_keys_at(s, i).subset_of(pool.dom()) {
            assert(spec_keys_at(s, i).difference(pool.dom()) =~= Set::<Seq<char>>::empty());
            assert(spec_fill_at(s, pool, i).1.to_set() == Set::<Seq<char>>::empty());
        }
    }
}

/// Law: rendering against a base table merged with overrides succeeds
/// exactly when every placeholder key is a key of the base table or of the
/// overrides; otherwise exactly the other placeholder keys are reported.
pub proof fn lemma_render_keys_law(
    t: Seq<char>,
    base: Seq<(Seq<char>, Seq<char>)>,
    overrides: Seq<(Seq<char>, Seq<char>)>,
)
    requires
        crate::values::unique_keys(base),
    ensures
        ({
            let merged = crate::values::table_map(crate::values::spec_merge(base, overrides));
            let keys = crate::values::table_map(base).dom() + crate::values::table_map(
                overrides,
            ).dom();
            &&& (spec_fill_at(t, merged, 0).1.len() == 0 <==> spec_keys_at(t, 0).subset_of(keys))
            &&& spec_fill_at(t, merged, 0).1.to_set() == spec_keys_at(t, 0).difference(keys)
        }),
{
    crate::values::lemma_merge_keys(base, overrides);
    lemma_fill_missing_exact(
        t,
        crate::values::table_map(crate::values::spec_merge(base, overrides)),
        0,
    );
}

/// A run of dashes.
pub open spec fn spec_dashes(d: nat) -> Seq<char> {
    Seq::new(d, |i: int| '-')
}

/// Law: a placeholder whose key carries `d` leading dashes renders to the
/// key's value with its first `d` characters dropped; more dashes than the
/// value has characters leave nothing.
pub proof fn lemma_dash_trim(k: Seq<char>, v: Seq<char>, d: nat, pool: Map<Seq<char>, Seq<char>>)
    requires
        k.len() > 0,
        forall|i: int| 0 <= i < k.len() ==> !is_space(#[trigger] k[i]),
        forall|i: int| 0 <= i < k.len() ==> #[trigger] k[i] != '}',
        k[0] != '-',
        pool.dom().contains(k),
        pool[k] == v,
    ensures
        ({
            let tok = seq!['{', '{'] + spec_dashes(d) + k + seq!['}', '}'];
            spec_fill_at(tok, pool, 0) == (
                spec_drop_prefix(v, d as int),
                Seq::<Seq<char>>::empty(),
            )
        }),
{
    let tok = seq!['{', '{'] + spec_dashes(d) + k + seq!['}', '}'];
    let n = tok.len() as int;
    assert(n == 4 + d + k.len());
    assert(!is_space('-'));
    assert(!is_space('}'));
    let ke = 2 + d + k.len() as int;
    assert(forall|i: int| 2 <= i < n ==> !is_space(#[trigger] tok[i]));
    assert(forall|i: int| 2 <= i < ke ==> #[trigger] tok[i] != '}');
    lemma_first_non_space_at_is(tok, 2, 2);
    assert(tok[n - 2] == '}' && tok[n - 1] == '}');
    assert forall|u: int| 2 <= u < ke implies !is_break(tok, u) by {
        if u + 1 < n && tok[u] == '}' {
        }
    }
    assert(is_break(tok, ke));
    lemma_first_break_at_is(tok, 2, ke);
    assert(!is_space(tok[ke]));
    assert(spec_token_at(tok, 0) == Some((2int, ke, n)));
    let key = tok.subrange(2, ke);
    assert(key =~= spec_dashes(d) + k);
    lemma_first_non_dash_is(key, 0, d as int);
    assert(key.skip(d as int) =~= k);
    assert(spec_fill_at(tok, pool, n) == (Seq::<char>::empty(), Seq::<Seq<char>>::empty()));
    assert(spec_fill_at(tok, pool, 0).0 =~= spec_drop_prefix(v, d as int));
    assert(spec_fill_at(tok, pool, 0).1 =~= Seq::<Seq<char>>::empty());
}

/// Which keys are missing depends on the table's keys alone, not on its
/// values.
pub proof fn lemma_fill_missing_dom(
    s: Seq<char>,
    p1: Map<Seq<char>, Seq<char>>,
    p2: Map<Seq<char>, Seq<char>>,
    i: int,
)
    requires
        p1.dom() == p2.dom(),
        0 <= i <= s.len(),
    ensures
        spec_fill_at(s, p1, i).1 == spec_fill_at(s, p2, i).1,
    decreases s.len() - i,
{
    if i < s.len() {
        match spec_token_at(s, i) {
            Some(t) => {
                lemma_token_at(s, i);
                lemma_fill_missing_dom(s, p1, p2, t.2);
            },
            None => {
                lemma_fill_missing_dom(s, p1, p2, i + 1);
            },
        }
    }
}

/// The placeholder token anchored at position `i`, if one begins there.
fn token_at(s: &str, n: usize, i: usize) -> (r: Option<(usize, usize, usize)>)
    requires
        n == s@.len(),
        i <= n,
    ensures
        match r {
            Some(t) => spec_token_at(s@, i as int) == Some((t.0 as int, t.1 as int, t.2 as int)),
            None => spec_token_at(s@, i as int) is None,
        },
{
    if n - i < 2 || s.get_char(i) != '{' || s.get_char(i + 1) != '{' {
        return None;
    }
    let j = first_non_space_from(s, n, i + 2);
    if j >= n {
        return None;
    }
    let mut k = j;
    while k < n && !(char_is_space(s.get_char(k)) || (s.get_char(k) == '}' && n - k >= 2
        && s.get_char(k + 1) == '}'))
        invariant
            n == s@.len(),
            j <= k <= n,
            forall|m: int| j <= m < k ==> !is_break(s@, m),
        decreases n - k,
    {
        k = k + 1;
    }
    proof {
        lemma_first_break_at_is(s@, j as int, k as int);
    }
    if k == j || k >= n {
        return None;
    }
    if !char_is_space(s.get_char(k)) {
        return Some((j, k, k + 2));
    }
    let p = first_non_space_from(s, n, k);
    if n - p >= 2 && s.get_char(p) == '}' && s.get_char(p + 1) == '}' {
        return Some((j, k, p + 2));
    }
    None
}

/// Substitutes every placeholder of `template` from `value_pool`, or
/// reports every key the table does not hold, in scan order, under the
/// value-set name that was used.
pub fn fill_template(template: &str, value_pool: &ValueTable, values_name: &str) -> (r: Result<
    String,
    GenError,
>)
    requires
        value_pool.wf(),
    ensures
        ({
            let filled = spec_fill_at(template@, value_pool.as_map(), 0);
            match r {
                Ok(out) => out@ == filled.0 && filled.1.len() == 0,
                Err(e) => match e {
                    GenError::MissingKeys { values_name: vn, keys } => vn@ == values_name@
                        && strs_view(keys@) == filled.1 && filled.1.len() > 0,
                    _ => false,
                },
            }
        }),
{
    let ghost pool = value_pool.as_map();
    let n = template.unicode_len();
    let mut out = String::new();
    let mut missing: Vec<String> = Vec::new();
    let mut i: usize = 0;
    let mut seg: usize = 0;
    while i < n
        invariant
            0 <= seg <= i <= n,
            n == template@.len(),
            value_pool.wf(),
            pool == value_pool.as_map(),
            spec_fill_at(template@, pool, 0).0 == out@ + template@.subrange(
                seg as int,
                i as int,
            ) + spec_fill_at(template@, pool, i as int).0,
            spec_fill_at(template@, pool, 0).1 == strs_view(missing@) + spec_fill_at(
                template@,
                pool,
                i as int,
            ).1,
        decreases n - i,
    {
        match token_at(template, n, i) {
            None => {
                proof {
                    assert(template@.subrange(seg as int, i as int).push(template@[i as int])
                        =~= template@.subrange(seg as int, i as int + 1));
                    assert(template@.subrange(seg as int, i as int) + (seq![
                        template@[i as int],
                    ] + spec_fill_at(template@, pool, i as int + 1).0) =~= template@.subrange(
                        seg as int,
                        i as int + 1,
                    ) + spec_fill_at(template@, pool, i as int + 1).0);
                }
                i = i + 1;
            },
            Some(t) => {
                let (ks, ke, me) = t;
                proof {
                    lemma_token_at(template@, i as int);
                }
                let ghost out0 = out@;
                let ghost missing0 = missing@;
                out.append(template.substring_char(seg, i));
                let ghost key = template@.subrange(ks as int, ke as int);
                let mut d: usize = 0;
                while ks + d < ke && template.get_char(ks + d) == '-'
                    invariant
                        n == template@.len(),
                        ks < ke <= n,
                        key == template@.subrange(ks as int, ke as int),
                        key.len() == ke - ks,
                        forall|m: int| 0 <= m < key.len() ==> key[m] == template@[ks + m],
                        0 <= d <= key.len(),
                        forall|m: int| 0 <= m < d ==> key[m] == '-',
                    decreases ke - ks - d,
                {
                    d = d + 1;
                }
                proof {
                    lemma_first_non_dash_is(key, 0, d as int);
                }
                let trimmed = template.substring_char(ks + d, ke);
                proof {
                    assert(trimmed@ =~= key.skip(d as int));
                }
                match value_pool.get(trimmed) {
                    Some(v) => {
                        out.append(remove_prefix(v.as_str(), d));
                    },
                    None => {
                        let owned = trimmed.to_owned();
                        proof {
                            crate::text::lemma_strs_view_push(missing@, owned);
                        }
                        missing.push(owned);
                    },
                }
                proof {
                    let s = template@;
                    let trimmed_s = key.skip(d as int);
                    let fill_i = spec_fill_at(s, pool, i as int);
                    let fill_me = spec_fill_at(s, pool, me as int);
                    if pool.dom().contains(trimmed_s) {
                        assert(fill_i.0 == spec_drop_prefix(pool[trimmed_s], d as int) + fill_me.0);
                        assert(fill_i.1 == fill_me.1);
                        assert(out@ == (out0 + s.subrange(seg as int, i as int)) + spec_drop_prefix(
                            pool[trimmed_s],
                            d as int,
                        ));
                        assert(strs_view(missing@) == strs_view(missing0));
                    } else {
                        assert(fill_i.0 == fill_me.0);
                        assert(fill_i.1 == seq![trimmed_s] + fill_me.1);
                        assert(out@ == (out0 + s.subrange(seg as int, i as int)));
                        assert(strs_view(missing@) == strs_view(missing0).push(trimmed_s));
                    }
                    assert(s.subrange(me as int, me as int) =~= Seq::<char>::empty());
                    assert(spec_fill_at(s, pool, 0).0 =~= out@ + s.subrange(me as int, me as int)
                        + fill_me.0);
                    assert(spec_fill_at(s, pool, 0).1 =~= strs_view(missing@) + fill_me.1);
                }
                i = me;
                seg = me;
            },
        }
    }
    out.append(template.substring_char(seg, n));
    proof {
        assert(spec_fill_at(template@, pool, n as int).0 =~= Seq::<char>::empty());
        assert(spec_fill_at(template@, pool, n as int).1 =~= Seq::<Seq<char>>::empty());
        assert(out@ == spec_fill_at(template@, pool, 0).0);
        assert(strs_view(missing@) =~= spec_fill_at(template@, pool, 0).1);
    }
    if missing.len() == 0 {
        proof {
            assert(strs_view(missing@).len() == 0);
        }
        Ok(out)
    } else {
        proof {
            assert(strs_view(missing@).len() > 0);
        }
        Err(GenError::MissingKeys { values_name: values_name.to_owned(), keys: missing })
    }
}

} // verus!
