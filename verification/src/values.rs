//! Value tables: ordered string-to-string mappings with distinct keys.
//!
//! A value set pairs such a table of placeholder values (`data`) with a
//! secondary table of raw variables (`vars`); repeat blocks may iterate over
//! either, in table order.

use vstd::prelude::*;
use vstd::string::StrSliceExecFns;
use vstd::string::StringExecFns;
use crate::error::GenError;
use crate::text::{str_eq, strs_view};

verus! {

/// A sequence of owned string pairs, seen as pairs of character sequences.
pub open spec fn pairs_view(v: Seq<(String, String)>) -> Seq<(Seq<char>, Seq<char>)> {
    v.map_values(|e: (String, String)| (e.0@, e.1@))
}

pub proof fn lemma_pairs_view_push(v: Seq<(String, String)>, x: (String, String))
    ensures
        pairs_view(v.push(x)) == pairs_view(v).push((x.0@, x.1@)),
{
    assert(pairs_view(v.push(x)) =~= pairs_view(v).push((x.0@, x.1@)));
}

/// No two entries share a key.
pub open spec fn unique_keys(entries: Seq<(Seq<char>, Seq<char>)>) -> bool {
    forall|i: int, j: int| 0 <= i < j < entries.len() ==> entries[i].0 != entries[j].0
}

/// The mapping an entry list denotes; a later entry wins over an earlier one
/// with the same key.
pub open spec fn table_map(entries: Seq<(Seq<char>, Seq<char>)>) -> Map<Seq<char>, Seq<char>>
    decreases entries.len(),
{
    if entries.len() == 0 {
        Map::empty()
    } else {
        table_map(entries.drop_last()).insert(entries.last().0, entries.last().1)
    }
}

pub proof fn lemma_table_map_dom(entries: Seq<(Seq<char>, Seq<char>)>)
    ensures
        forall|k: Seq<char>| #[trigger]
            table_map(entries).dom().contains(k) <==> exists|i: int|
                0 <= i < entries.len() && #[trigger] entries[i].0 == k,
    decreases entries.len(),
{
    if entries.len() > 0 {
        let dl = entries.drop_last();
        lemma_table_map_dom(dl);
        assert(table_map(entries) == table_map(dl).insert(entries.last().0, entries.last().1));
        assert forall|k: Seq<char>| #[trigger] table_map(entries).dom().contains(k) implies exists|
            i: int,
        | 0 <= i < entries.len() && #[trigger] entries[i].0 == k by {
            if k == entries.last().0 {
                assert(entries[entries.len() - 1].0 == k);
            } else {
                assert(table_map(dl).dom().contains(k));
                let i = choose|i: int| 0 <= i < dl.len() && #[trigger] dl[i].0 == k;
                assert(entries[i].0 == k);
            }
        }
        assert forall|k: Seq<char>|
            (exists|i: int| 0 <= i < entries.len() && #[trigger] entries[i].0 == k)
            implies #[trigger] table_map(entries).dom().contains(k) by {
            let i = choose|i: int| 0 <= i < entries.len() && #[trigger] entries[i].0 == k;
            if i < entries.len() - 1 {
                assert(dl[i].0 == k);
                assert(table_map(dl).dom().contains(k));
            }
        }
    }
}

pub proof fn lemma_table_map_at(entries: Seq<(Seq<char>, Seq<char>)>, i: int)
    requires
        unique_keys(entries),
        0 <= i < entries.len(),
    ensures
        table_map(entries).dom().contains(entries[i].0),
        table_map(entries)[entries[i].0] == entries[i].1,
    decreases entries.len(),
{
    if i < entries.len() - 1 {
        assert(unique_keys(entries.drop_last()));
        lemma_table_map_at(entries.drop_last(), i);
        assert(entries[i].0 != entries.last().0);
    }
}

/// First index whose entry has key `k`, from `i` on, or the length if none.
pub open spec fn find_key(entries: Seq<(Seq<char>, Seq<char>)>, k: Seq<char>, i: int) -> int
    recommends
        0 <= i <= entries.len(),
    decreases entries.len() - i,
{
    if i < 0 || i >= entries.len() {
        entries.len() as int
    } else if entries[i].0 == k {
        i
    } else {
        find_key(entries, k, i + 1)
    }
}

pub proof fn lemma_find_key(entries: Seq<(Seq<char>, Seq<char>)>, k: Seq<char>, i: int)
    requires
        0 <= i <= entries.len(),
    ensures
        i <= find_key(entries, k, i) <= entries.len(),
        find_key(entries, k, i) < entries.len() ==> entries[find_key(entries, k, i)].0 == k,
        forall|j: int| i <= j < find_key(entries, k, i) ==> entries[j].0 != k,
    decreases entries.len() - i,
{
    if i < entries.len() && entries[i].0 != k {
        lemma_find_key(entries, k, i + 1);
    }
}

/// The entry list after setting `k` to `v`: the first entry with key `k` is
/// replaced in place, or a new entry is appended.
pub open spec fn spec_table_insert(
    entries: Seq<(Seq<char>, Seq<char>)>,
    k: Seq<char>,
    v: Seq<char>,
) -> Seq<(Seq<char>, Seq<char>)> {
    let i = find_key(entries, k, 0);
    if i == entries.len() {
        entries.push((k, v))
    } else {
        entries.update(i, (k, v))
    }
}

pub proof fn lemma_table_insert_map(entries: Seq<(Seq<char>, Seq<char>)>, k: Seq<char>, v: Seq<char>)
    requires
        unique_keys(entries),
    ensures
        unique_keys(spec_table_insert(entries, k, v)),
        table_map(spec_table_insert(entries, k, v)) == table_map(entries).insert(k, v),
{
    lemma_find_key(entries, k, 0);
    let i = find_key(entries, k, 0);
    let new = spec_table_insert(entries, k, v);
    lemma_table_map_dom(entries);
    lemma_table_map_dom(new);
    if i == entries.len() {
        assert(unique_keys(new));
        assert(new.drop_last() =~= entries);
        assert(table_map(new) == table_map(entries).insert(k, v));
    } else {
        assert(forall|j: int| 0 <= j < new.len() && j != i ==> new[j] == entries[j]);
        assert(new[i].0 == entries[i].0);
        assert(unique_keys(new));
        assert forall|k2: Seq<char>| #[trigger]
            table_map(new).dom().contains(k2) == table_map(entries).insert(
                k,
                v,
            ).dom().contains(k2) by {
            assert forall|j: int| 0 <= j < entries.len() implies entries[j].0 == new[j].0 by {}
            if table_map(new).dom().contains(k2) {
                let j = choose|j: int| 0 <= j < new.len() && #[trigger] new[j].0 == k2;
                assert(entries[j].0 == k2);
            }
            if table_map(entries).insert(k, v).dom().contains(k2) {
                if k2 == k {
                    assert(new[i].0 == k2);
                } else {
                    let j = choose|j: int|
                        0 <= j < entries.len() && #[trigger] entries[j].0 == k2;
                    assert(new[j].0 == k2);
                }
            }
        }
        assert forall|k2: Seq<char>| table_map(new).dom().contains(k2) implies #[trigger] table_map(
            new,
        )[k2] == table_map(entries).insert(k, v)[k2] by {
            let j = choose|j: int| 0 <= j < new.len() && #[trigger] new[j].0 == k2;
            lemma_table_map_at(new, j);
            if k2 == k {
                assert(j == i) by {
                    if j != i {
                        assert(new[j].0 != new[i].0);
                    }
                }
            } else {
                assert(j != i);
                lemma_table_map_at(entries, j);
            }
        }
        assert(table_map(new) =~= table_map(entries).insert(k, v));
    }
}

/// The entry list after applying each override in turn.
pub open spec fn spec_merge(
    entries: Seq<(Seq<char>, Seq<char>)>,
    overrides: Seq<(Seq<char>, Seq<char>)>,
) -> Seq<(Seq<char>, Seq<char>)>
    decreases overrides.len(),
{
    if overrides.len() == 0 {
        entries
    } else {
        spec_merge(
            spec_table_insert(entries, overrides[0].0, overrides[0].1),
            overrides.drop_first(),
        )
    }
}

pub proof fn lemma_merge_unique(
    entries: Seq<(Seq<char>, Seq<char>)>,
    overrides: Seq<(Seq<char>, Seq<char>)>,
)
    requires
        unique_keys(entries),
    ensures
        unique_keys(spec_merge(entries, overrides)),
    decreases overrides.len(),
{
    if overrides.len() > 0 {
        lemma_table_insert_map(entries, overrides[0].0, overrides[0].1);
        lemma_merge_unique(
            spec_table_insert(entries, overrides[0].0, overrides[0].1),
            overrides.drop_first(),
        );
    }
}

/// Law: after a merge, the available keys are the keys of the base table
/// together with the keys of the overrides — an override never removes a
/// key, and a new key becomes available.
pub proof fn lemma_merge_keys(
    entries: Seq<(Seq<char>, Seq<char>)>,
    overrides: Seq<(Seq<char>, Seq<char>)>,
)
    requires
        unique_keys(entries),
    ensures
        table_map(spec_merge(entries, overrides)).dom() == table_map(entries).dom() + table_map(
            overrides,
        ).dom(),
    decreases overrides.len(),
{
    if overrides.len() == 0 {
        lemma_table_map_dom(overrides);
        assert(table_map(overrides).dom() =~= Set::<Seq<char>>::empty());
        assert(table_map(spec_merge(entries, overrides)).dom() =~= table_map(entries).dom()
            + table_map(overrides).dom());
    } else {
        let inserted = spec_table_insert(entries, overrides[0].0, overrides[0].1);
        lemma_table_insert_map(entries, overrides[0].0, overrides[0].1);
        lemma_merge_keys(inserted, overrides.drop_first());
        lemma_table_map_dom(overrides);
        lemma_table_map_dom(overrides.drop_first());
        assert forall|k: Seq<char>| #[trigger] table_map(overrides).dom().contains(k) implies
            table_map(inserted).dom().contains(k) || table_map(
            overrides.drop_first(),
        ).dom().contains(k) by {
            let i = choose|i: int| 0 <= i < overrides.len() && #[trigger] overrides[i].0 == k;
            if i == 0 {
                assert(table_map(entries).insert(overrides[0].0, overrides[0].1).dom().contains(k));
            } else {
                assert(overrides.drop_first()[i - 1].0 == k);
            }
        }
        assert forall|k: Seq<char>| #[trigger]
            table_map(overrides.drop_first()).dom().contains(k) implies table_map(
            overrides,
        ).dom().contains(k) by {
            let i = choose|i: int|
                0 <= i < overrides.drop_first().len() && #[trigger] overrides.drop_first()[i].0
                    == k;
            assert(overrides[i + 1].0 == k);
        }
        assert(table_map(spec_merge(entries, overrides)).dom() =~= table_map(entries).dom()
            + table_map(overrides).dom());
    }
}

/// An ordered table of distinct string keys and their string values.
#[derive(Debug)]
pub struct ValueTable {
    pub entries: Vec<(String, String)>,
}

impl Clone for ValueTable {
    fn clone(&self) -> (r: Self)
        ensures
            r@ == self@,
    {
        let n = self.entries.len();
        let mut entries: Vec<(String, String)> = Vec::new();
        proof {
            assert(pairs_view(entries@) =~= self@.take(0));
        }
        let mut i: usize = 0;
        while i < n
            invariant
                0 <= i <= n,
                n == self.entries@.len(),
                pairs_view(entries@) == self@.take(i as int),
            decreases n - i,
        {
            let pair = &self.entries[i];
            let x = (pair.0.clone(), pair.1.clone());
            proof {
                lemma_pairs_view_push(entries@, x);
                assert(self@.take(i as int).push((x.0@, x.1@)) =~= self@.take(i as int + 1));
            }
            entries.push(x);
            i = i + 1;
        }
        proof {
            assert(self@.take(n as int) =~= self@);
        }
        ValueTable { entries }
    }
}

impl View for ValueTable {
    type V = Seq<(Seq<char>, Seq<char>)>;

    open spec fn view(&self) -> Seq<(Seq<char>, Seq<char>)> {
        pairs_view(self.entries@)
    }
}

impl ValueTable {
    /// All keys are distinct.
    pub open spec fn wf(self) -> bool {
        unique_keys(self@)
    }

    /// The mapping this table denotes.
    pub open spec fn as_map(self) -> Map<Seq<char>, Seq<char>> {
        table_map(self@)
    }

    pub fn new() -> (r: ValueTable)
        ensures
            r.wf(),
            r@ == Seq::<(Seq<char>, Seq<char>)>::empty(),
    {
        let r = ValueTable { entries: Vec::new() };
        proof {
            assert(r@ =~= Seq::<(Seq<char>, Seq<char>)>::empty());
        }
        r
    }

    pub fn len(&self) -> (r: usize)
        ensures
            r == self@.len(),
    {
        self.entries.len()
    }

    /// The key and value at a position, in table order.
    pub fn entry(&self, i: usize) -> (r: &(String, String))
        requires
            i < self@.len(),
        ensures
            (r.0@, r.1@) == self@[i as int],
    {
        &self.entries[i]
    }

    /// The value stored under `key`, if any.
    pub fn get<'a>(&'a self, key: &str) -> (r: Option<&'a String>)
        requires
            self.wf(),
        ensures
            match r {
                Some(v) => self.as_map().dom().contains(key@) && v@ == self.as_map()[key@],
                None => !self.as_map().dom().contains(key@),
            },
    {
        proof {
            lemma_table_map_dom(self@);
        }
        let n = self.entries.len();
        let mut i: usize = 0;
        while i < n
            invariant
                self.wf(),
                n == self@.len(),
                n == self.entries@.len(),
                0 <= i <= n,
                forall|j: int| 0 <= j < i ==> self@[j].0 != key@,
                forall|k: Seq<char>| #[trigger]
                    table_map(self@).dom().contains(k) <==> exists|j: int|
                        0 <= j < self@.len() && #[trigger] self@[j].0 == k,
            decreases n - i,
        {
            if str_eq(self.entries[i].0.as_str(), key) {
                proof {
                    lemma_table_map_at(self@, i as int);
                }
                return Some(&self.entries[i].1);
            }
            i = i + 1;
        }
        proof {
            if self.as_map().dom().contains(key@) {
                let j = choose|j: int| 0 <= j < self@.len() && #[trigger] self@[j].0 == key@;
            }
        }
        None
    }

    /// Sets `key` to `value`: replaces the value of an existing entry in
    /// place, or appends a new entry.
    pub fn insert(&mut self, key: String, value: String)
        requires
            old(self).wf(),
        ensures
            final(self).wf(),
            final(self)@ == spec_table_insert(old(self)@, key@, value@),
            final(self).as_map() == old(self).as_map().insert(key@, value@),
    {
        let n = self.entries.len();
        let mut i: usize = 0;
        while i < n
            invariant
                n == self.entries@.len(),
                0 <= i <= n,
                self.entries@ == old(self).entries@,
                old(self).wf(),
                forall|j: int| 0 <= j < i ==> old(self)@[j].0 != key@,
            decreases n - i,
        {
            if str_eq(self.entries[i].0.as_str(), key.as_str()) {
                proof {
                    let ghost ii = i as int;
                    assert(self@[ii] == (self.entries@[ii].0@, self.entries@[ii].1@));
                    lemma_find_key(self@, key@, 0);
                    assert(find_key(self@, key@, 0) == i as int);
                    lemma_table_insert_map(self@, key@, value@);
                }
                self.entries.set(i, (key, value));
                proof {
                    assert(self@ =~= spec_table_insert(old(self)@, key@, value@));
                }
                return ;
            }
            i = i + 1;
        }
        proof {
            lemma_find_key(old(self)@, key@, 0);
            lemma_table_insert_map(old(self)@, key@, value@);
        }
        self.entries.push((key, value));
        proof {
            lemma_pairs_view_push(old(self).entries@, (key, value));
            assert(self@ =~= spec_table_insert(old(self)@, key@, value@));
        }
    }

    /// Applies each override in turn; an override wins over a same-named key.
    pub fn merge_overrides(&mut self, overrides: &Vec<(String, String)>)
        requires
            old(self).wf(),
        ensures
            final(self).wf(),
            final(self)@ == spec_merge(old(self)@, pairs_view(overrides@)),
    {
        proof {
            assert(pairs_view(overrides@).skip(0) =~= pairs_view(overrides@));
        }
        let n = overrides.len();
        let mut i: usize = 0;
        while i < n
            invariant
                n == overrides@.len(),
                0 <= i <= n,
                self.wf(),
                spec_merge(old(self)@, pairs_view(overrides@)) == spec_merge(
                    self@,
                    pairs_view(overrides@).skip(i as int),
                ),
            decreases n - i,
        {
            let ghost before = self@;
            let ghost rest = pairs_view(overrides@).skip(i as int);
            let e = &overrides[i];
            let key = e.0.clone();
            let value = e.1.clone();
            self.insert(key, value);
            proof {
                assert(rest[0] == pairs_view(overrides@)[i as int]);
                assert(rest.drop_first() =~= pairs_view(overrides@).skip(i as int + 1));
                assert(spec_merge(before, rest) == spec_merge(self@, rest.drop_first()));
            }
            i = i + 1;
        }
        proof {
            assert(pairs_view(overrides@).skip(n as int) =~= Seq::<(Seq<char>, Seq<char>)>::empty());
        }
    }
}

/// A raw value, resolved against the `vars` table: `$name` looks `name` up,
/// `\$rest` means a literal `$rest`, anything else stands as written.
pub open spec fn spec_resolved_value(v: Seq<char>, vars: Map<Seq<char>, Seq<char>>) -> Seq<char> {
    if v.len() > 0 && v[0] == '$' {
        vars[v.skip(1)]
    } else if v.len() >= 2 && v[0] == '\\' && v[1] == '$' {
        seq!['$'] + v.skip(2)
    } else {
        v
    }
}

/// Whether a raw value can be resolved: a `$name` value demands that the
/// `vars` table holds `name`.
pub open spec fn spec_value_resolves(v: Seq<char>, vars: Map<Seq<char>, Seq<char>>) -> bool {
    (v.len() > 0 && v[0] == '$') ==> vars.dom().contains(v.skip(1))
}

/// First entry at or after `i` whose value cannot be resolved, or the length.
pub open spec fn find_unresolved(
    entries: Seq<(Seq<char>, Seq<char>)>,
    vars: Map<Seq<char>, Seq<char>>,
    i: int,
) -> int
    recommends
        0 <= i <= entries.len(),
    decreases entries.len() - i,
{
    if i < 0 || i >= entries.len() {
        entries.len() as int
    } else if !spec_value_resolves(entries[i].1, vars) {
        i
    } else {
        find_unresolved(entries, vars, i + 1)
    }
}

pub proof fn lemma_find_unresolved_is(
    entries: Seq<(Seq<char>, Seq<char>)>,
    vars: Map<Seq<char>, Seq<char>>,
    i: int,
    j: int,
)
    requires
        0 <= i <= j <= entries.len(),
        forall|k: int| i <= k < j ==> spec_value_resolves(#[trigger] entries[k].1, vars),
        j < entries.len() ==> !spec_value_resolves(entries[j].1, vars),
    ensures
        find_unresolved(entries, vars, i) == j,
    decreases j - i,
{
    if i < j {
        lemma_find_unresolved_is(entries, vars, i + 1, j);
    }
}

/// The entries with every value resolved against `vars`.
pub open spec fn spec_resolve_all(
    entries: Seq<(Seq<char>, Seq<char>)>,
    vars: Map<Seq<char>, Seq<char>>,
) -> Seq<(Seq<char>, Seq<char>)> {
    Seq::new(entries.len(), |i: int| (entries[i].0, spec_resolved_value(entries[i].1, vars)))
}

/// The required keys the table does not hold, in requirement order.
pub open spec fn spec_missing_list(
    req: Seq<Seq<char>>,
    entries: Seq<(Seq<char>, Seq<char>)>,
) -> Seq<Seq<char>>
    decreases req.len(),
{
    if req.len() == 0 {
        seq![]
    } else {
        (if find_key(entries, req[0], 0) == entries.len() {
            seq![req[0]]
        } else {
            seq![]
        }) + spec_missing_list(req.drop_first(), entries)
    }
}

/// The table keys the requirement does not name, in table order.
pub open spec fn spec_extra_list(
    entries: Seq<(Seq<char>, Seq<char>)>,
    req: Seq<Seq<char>>,
) -> Seq<Seq<char>>
    decreases entries.len(),
{
    if entries.len() == 0 {
        seq![]
    } else {
        (if !req.contains(entries[0].0) {
            seq![entries[0].0]
        } else {
            seq![]
        }) + spec_extra_list(entries.drop_first(), req)
    }
}

pub proof fn lemma_missing_list_push(
    req: Seq<Seq<char>>,
    entries: Seq<(Seq<char>, Seq<char>)>,
    x: Seq<char>,
)
    ensures
        find_key(entries, x, 0) == entries.len() ==> spec_missing_list(req.push(x), entries)
            == spec_missing_list(req, entries).push(x),
        find_key(entries, x, 0) != entries.len() ==> spec_missing_list(req.push(x), entries)
            == spec_missing_list(req, entries),
    decreases req.len(),
{
    if req.len() == 0 {
        assert(req.push(x)[0] == x);
        assert(req.push(x).drop_first() =~= Seq::<Seq<char>>::empty());
        assert(spec_missing_list(Seq::<Seq<char>>::empty(), entries) == Seq::<Seq<char>>::empty());
        assert(spec_missing_list(req, entries) == Seq::<Seq<char>>::empty());
        if find_key(entries, x, 0) == entries.len() {
            assert(spec_missing_list(req.push(x), entries) =~= spec_missing_list(
                req,
                entries,
            ).push(x));
        } else {
            assert(spec_missing_list(req.push(x), entries) =~= spec_missing_list(req, entries));
        }
    } else {
        assert(req.push(x)[0] == req[0]);
        assert(req.push(x).drop_first() =~= req.drop_first().push(x));
        lemma_missing_list_push(req.drop_first(), entries, x);
        if find_key(entries, x, 0) == entries.len() {
            assert(spec_missing_list(req.push(x), entries) =~= spec_missing_list(
                req,
                entries,
            ).push(x));
        } else {
            assert(spec_missing_list(req.push(x), entries) =~= spec_missing_list(req, entries));
        }
    }
}

pub proof fn lemma_extra_list_push(
    entries: Seq<(Seq<char>, Seq<char>)>,
    req: Seq<Seq<char>>,
    x: (Seq<char>, Seq<char>),
)
    ensures
        !req.contains(x.0) ==> spec_extra_list(entries.push(x), req) == spec_extra_list(
            entries,
            req,
        ).push(x.0),
        req.contains(x.0) ==> spec_extra_list(entries.push(x), req) == spec_extra_list(
            entries,
            req,
        ),
    decreases entries.len(),
{
    if entries.len() == 0 {
        assert(entries.push(x)[0] == x);
        assert(entries.push(x).drop_first() =~= Seq::<(Seq<char>, Seq<char>)>::empty());
        assert(spec_extra_list(Seq::<(Seq<char>, Seq<char>)>::empty(), req) == Seq::<
            Seq<char>,
        >::empty());
        assert(spec_extra_list(entries, req) == Seq::<Seq<char>>::empty());
        if !req.contains(x.0) {
            assert(spec_extra_list(entries.push(x), req) =~= spec_extra_list(entries, req).push(
                x.0,
            ));
        } else {
            assert(spec_extra_list(entries.push(x), req) =~= spec_extra_list(entries, req));
        }
    } else {
        assert(entries.push(x)[0] == entries[0]);
        assert(entries.push(x).drop_first() =~= entries.drop_first().push(x));
        lemma_extra_list_push(entries.drop_first(), req, x);
        if !req.contains(x.0) {
            assert(spec_extra_list(entries.push(x), req) =~= spec_extra_list(entries, req).push(
                x.0,
            ));
        } else {
            assert(spec_extra_list(entries.push(x), req) =~= spec_extra_list(entries, req));
        }
    }
}

/// What loading a value set owes: every `$name` value is replaced from the
/// `vars` table — the first that cannot be is the error — and where a list
/// of required keys is given, the resolved table must hold exactly those,
/// else both deviations are reported together.
pub open spec fn spec_load_outcome(
    vname: Seq<char>,
    raw: Seq<(Seq<char>, Seq<char>)>,
    vars: Map<Seq<char>, Seq<char>>,
    required: Option<Seq<Seq<char>>>,
    r: Result<(String, ValueTable), GenError>,
) -> bool {
    let bad = find_unresolved(raw, vars, 0);
    if bad < raw.len() {
        match r {
            Err(GenError::VarNotDefined { var, values_name }) => var@ == raw[bad].1.skip(1)
                && values_name@ == vname,
            _ => false,
        }
    } else {
        let data = spec_resolve_all(raw, vars);
        let ok = match r {
            Ok(p) => p.0@ == vname && p.1@ == data && p.1.wf(),
            Err(_) => false,
        };
        match required {
            Some(req) => {
                let missing = spec_missing_list(req, data);
                let extra = spec_extra_list(data, req);
                if missing.len() > 0 || extra.len() > 0 {
                    match r {
                        Err(GenError::InvalidValues { values_name, missing: m, extra: e }) => {
                            &&& values_name@ == vname
                            &&& strs_view(m@) == missing
                            &&& strs_view(e@) == extra
                        },
                        _ => false,
                    }
                } else {
                    ok
                }
            },
            None => ok,
        }
    }
}

/// Whether one of the strings reads `s`.
pub fn list_contains(v: &Vec<String>, s: &str) -> (r: bool)
    ensures
        r == strs_view(v@).contains(s@),
{
    let n = v.len();
    let mut i: usize = 0;
    while i < n
        invariant
            0 <= i <= n,
            n == v@.len(),
            forall|j: int| 0 <= j < i ==> strs_view(v@)[j] != s@,
        decreases n - i,
    {
        proof {
            assert(strs_view(v@)[i as int] == v@[i as int]@);
        }
        if str_eq(v[i].as_str(), s) {
            proof {
                assert(strs_view(v@)[i as int] == s@);
            }
            return true;
        }
        i = i + 1;
    }
    proof {
        if strs_view(v@).contains(s@) {
            let j = choose|j: int| 0 <= j < strs_view(v@).len() && strs_view(v@)[j] == s@;
        }
    }
    false
}

/// Builds a value set's table: resolves each raw value against the `vars`
/// table and, where a list of required keys is given, checks that the
/// resolved table holds exactly those keys. Hands back the value set's name
/// with the table.
pub fn load_values(
    values_name: String,
    raw: &ValueTable,
    vars: &ValueTable,
    required: Option<&Vec<String>>,
) -> (r: Result<(String, ValueTable), GenError>)
    requires
        raw.wf(),
        vars.wf(),
    ensures
        spec_load_outcome(
            values_name@,
            raw@,
            vars.as_map(),
            match required {
                Some(req) => Some(strs_view(req@)),
                None => None,
            },
            r,
        ),
{
    let ghost varsm = vars.as_map();
    let n = raw.len();
    let mut entries: Vec<(String, String)> = Vec::new();
    proof {
        reveal_strlit("$");
        assert("$"@ =~= seq!['$']);
    }
    let mut i: usize = 0;
    while i < n
        invariant
            0 <= i <= n,
            n == raw@.len(),
            raw.wf(),
            vars.wf(),
            varsm == vars.as_map(),
            "$"@ == seq!['$'],
            forall|j: int| 0 <= j < i ==> spec_value_resolves(#[trigger] raw@[j].1, varsm),
            pairs_view(entries@) == spec_resolve_all(raw@, varsm).take(i as int),
        decreases n - i,
    {
        let pair = raw.entry(i);
        let value = &pair.1;
        let vlen = value.as_str().unicode_len();
        let resolved: String = if vlen > 0 && value.as_str().get_char(0) == '$' {
            let var = crate::text::remove_prefix(value.as_str(), 1);
            match vars.get(var) {
                None => {
                    proof {
                        assert(var@ =~= raw@[i as int].1.skip(1));
                        assert(!spec_value_resolves(raw@[i as int].1, varsm));
                        lemma_find_unresolved_is(raw@, varsm, 0, i as int);
                    }
                    return Err(
                        GenError::VarNotDefined { var: var.to_owned(), values_name },
                    );
                },
                Some(v) => {
                    proof {
                        assert(var@ =~= raw@[i as int].1.skip(1));
                    }
                    v.clone()
                },
            }
        } else if vlen >= 2 && value.as_str().get_char(0) == '\\' && value.as_str().get_char(1)
            == '$' {
            let rest = value.as_str().substring_char(2, vlen);
            let mut s = "$".to_owned();
            s.append(rest);
            proof {
                assert(s@ =~= seq!['$'] + raw@[i as int].1.skip(2));
            }
            s
        } else {
            value.clone()
        };
        let key = pair.0.clone();
        proof {
            assert(spec_value_resolves(raw@[i as int].1, varsm));
            assert(resolved@ == spec_resolved_value(raw@[i as int].1, varsm));
            lemma_pairs_view_push(entries@, (key, resolved));
            assert(spec_resolve_all(raw@, varsm).take(i as int).push(
                (key@, resolved@),
            ) =~= spec_resolve_all(raw@, varsm).take(i as int + 1));
        }
        entries.push((key, resolved));
        i = i + 1;
    }
    proof {
        lemma_find_unresolved_is(raw@, varsm, 0, n as int);
        assert(spec_resolve_all(raw@, varsm).take(n as int) =~= spec_resolve_all(raw@, varsm));
    }
    let data = ValueTable { entries };
    proof {
        assert(data.wf()) by {
            assert(forall|j: int|
                0 <= j < data@.len() ==> data@[j].0 == raw@[j].0);
        }
    }
    let req = match required {
        Some(req) => req,
        None => {
            return Ok((values_name, data));
        },
    };
    let ghost reqv = strs_view(req@);
    let mut missing: Vec<String> = Vec::new();
    proof {
        assert(reqv.take(0) =~= Seq::<Seq<char>>::empty());
        assert(spec_missing_list(Seq::<Seq<char>>::empty(), data@) == Seq::<Seq<char>>::empty());
        assert(strs_view(missing@) =~= Seq::<Seq<char>>::empty());
    }
    let rn = req.len();
    let mut i: usize = 0;
    while i < rn
        invariant
            0 <= i <= rn,
            rn == req@.len(),
            reqv == strs_view(req@),
            data.wf(),
            strs_view(missing@) == spec_missing_list(reqv.take(i as int), data@),
        decreases rn - i,
    {
        proof {
            assert(reqv[i as int] == req@[i as int]@);
            assert(reqv.take(i as int).push(reqv[i as int]) =~= reqv.take(i as int + 1));
            lemma_missing_list_push(reqv.take(i as int), data@, reqv[i as int]);
        }
        let absent = match data.get(req[i].as_str()) {
            Some(_) => false,
            None => true,
        };
        proof {
            lemma_find_key(data@, reqv[i as int], 0);
            lemma_table_map_dom(data@);
            if absent {
                assert(find_key(data@, reqv[i as int], 0) == data@.len()) by {
                    if find_key(data@, reqv[i as int], 0) < data@.len() {
                        assert(data@[find_key(data@, reqv[i as int], 0)].0 == reqv[i as int]);
                    }
                }
            } else {
                let ghost kk = reqv[i as int];
                assert(find_key(data@, kk, 0) != data@.len()) by {
                    let w = choose|w: int| 0 <= w < data@.len() && #[trigger] data@[w].0 == kk;
                }
            }
        }
        if absent {
            let owned = req[i].clone();
            proof {
                crate::text::lemma_strs_view_push(missing@, owned);
            }
            missing.push(owned);
        }
        i = i + 1;
    }
    proof {
        assert(reqv.take(rn as int) =~= reqv);
    }
    let mut extra: Vec<String> = Vec::new();
    proof {
        assert(data@.take(0) =~= Seq::<(Seq<char>, Seq<char>)>::empty());
        assert(spec_extra_list(Seq::<(Seq<char>, Seq<char>)>::empty(), reqv) == Seq::<
            Seq<char>,
        >::empty());
        assert(strs_view(extra@) =~= Seq::<Seq<char>>::empty());
    }
    let dn = data.len();
    let mut i: usize = 0;
    while i < dn
        invariant
            0 <= i <= dn,
            dn == data@.len(),
            reqv == strs_view(req@),
            strs_view(extra@) == spec_extra_list(data@.take(i as int), reqv),
        decreases dn - i,
    {
        proof {
            assert(data@.take(i as int).push(data@[i as int]) =~= data@.take(i as int + 1));
            lemma_extra_list_push(data@.take(i as int), reqv, data@[i as int]);
        }
        let pair = data.entry(i);
        if !list_contains(req, pair.0.as_str()) {
            let owned = pair.0.clone();
            proof {
                crate::text::lemma_strs_view_push(extra@, owned);
            }
            extra.push(owned);
        }
        i = i + 1;
    }
    proof {
        assert(data@.take(dn as int) =~= data@);
    }
    if missing.len() > 0 || extra.len() > 0 {
        return Err(GenError::InvalidValues { values_name, missing, extra });
    }
    Ok((values_name, data))
}

/// A value set: the placeholder values and the raw variables it was loaded
/// with.
#[derive(Debug)]
pub struct Values {
    pub data: ValueTable,
    pub vars: ValueTable,
}

impl Clone for Values {
    fn clone(&self) -> (r: Self)
        ensures
            r.data@ == self.data@,
            r.vars@ == self.vars@,
    {
        Values { data: self.data.clone(), vars: self.vars.clone() }
    }
}

impl Values {
    pub open spec fn wf(self) -> bool {
        self.data.wf() && self.vars.wf()
    }

    pub fn new() -> (r: Values)
        ensures
            r.wf(),
            r.data@ == Seq::<(Seq<char>, Seq<char>)>::empty(),
            r.vars@ == Seq::<(Seq<char>, Seq<char>)>::empty(),
    {
        Values { data: ValueTable::new(), vars: ValueTable::new() }
    }
}

} // verus!
