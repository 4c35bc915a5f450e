//! The listing selection: which projects a listing shows, each with the
//! names of its value sets, in configuration order.
//!
//! Laying the selection out on a terminal is the caller's business.

use vstd::prelude::*;
use crate::config::{Config, Project};
use crate::error::GenError;
use crate::text::{str_eq, strs_view};
use crate::values::Values;

verus! {

/// The names of a project's value sets, in order.
pub open spec fn value_names(vs: Seq<(String, Values)>) -> Seq<Seq<char>> {
    vs.map_values(|p: (String, Values)| p.0@)
}

/// One listing entry: a project's name and its value-set names.
pub open spec fn spec_listing_item(p: (String, Project)) -> (Seq<char>, Seq<Seq<char>>) {
    (p.0@, value_names(p.1.values@))
}

/// The listing entries kept by the filter: all projects, or only the one of
/// the given name.
pub open spec fn spec_selected(
    ps: Seq<(String, Project)>,
    filter: Option<Seq<char>>,
) -> Seq<(Seq<char>, Seq<Seq<char>>)>
    decreases ps.len(),
{
    if ps.len() == 0 {
        seq![]
    } else {
        (if match filter {
            Some(n) => ps[0].0@ == n,
            None => true,
        } {
            seq![spec_listing_item(ps[0])]
        } else {
            seq![]
        }) + spec_selected(ps.drop_first(), filter)
    }
}

pub proof fn lemma_selected_push(
    ps: Seq<(String, Project)>,
    filter: Option<Seq<char>>,
    x: (String, Project),
)
    ensures
        (match filter {
            Some(n) => x.0@ == n,
            None => true,
        }) ==> spec_selected(ps.push(x), filter) == spec_selected(ps, filter).push(
            spec_listing_item(x),
        ),
        !(match filter {
            Some(n) => x.0@ == n,
            None => true,
        }) ==> spec_selected(ps.push(x), filter) == spec_selected(ps, filter),
    decreases ps.len(),
{
    if ps.len() == 0 {
        assert(ps.push(x)[0] == x);
        assert(ps.push(x).drop_first() =~= Seq::<(String, Project)>::empty());
        assert(spec_selected(Seq::<(String, Project)>::empty(), filter) == Seq::<
            (Seq<char>, Seq<Seq<char>>),
        >::empty());
        assert(spec_selected(ps, filter) == Seq::<(Seq<char>, Seq<Seq<char>>)>::empty());
        if match filter {
            Some(n) => x.0@ == n,
            None => true,
        } {
            assert(spec_selected(ps.push(x), filter) =~= spec_selected(ps, filter).push(
                spec_listing_item(x),
            ));
        } else {
            assert(spec_selected(ps.push(x), filter) =~= spec_selected(ps, filter));
        }
    } else {
        assert(ps.push(x)[0] == ps[0]);
        assert(ps.push(x).drop_first() =~= ps.drop_first().push(x));
        lemma_selected_push(ps.drop_first(), filter, x);
        if match filter {
            Some(n) => x.0@ == n,
            None => true,
        } {
            assert(spec_selected(ps.push(x), filter) =~= spec_selected(ps, filter).push(
                spec_listing_item(x),
            ));
        } else {
            assert(spec_selected(ps.push(x), filter) =~= spec_selected(ps, filter));
        }
    }
}

/// The returned entries, seen as character sequences.
pub open spec fn listing_view(v: Seq<(String, Vec<String>)>) -> Seq<(Seq<char>, Seq<Seq<char>>)> {
    v.map_values(|p: (String, Vec<String>)| (p.0@, strs_view(p.1@)))
}

/// What listing owes: the kept entries are exactly the selection, in order;
/// an empty selection is the error — the missing project where a name was
/// given, else a configuration without projects.
pub open spec fn spec_list_outcome(
    cfg: Config,
    filter: Option<Seq<char>>,
    r: Result<Vec<(String, Vec<String>)>, GenError>,
) -> bool {
    let selected = spec_selected(cfg.projects@, filter);
    if selected.len() == 0 {
        match filter {
            Some(n) => match r {
                Err(GenError::ProjectNotFound { project }) => project@ == n,
                _ => false,
            },
            None => match r {
                Err(GenError::NoProjects) => true,
                _ => false,
            },
        }
    } else {
        match r {
            Ok(v) => listing_view(v@) == selected,
            Err(_) => false,
        }
    }
}

/// Selects what a listing shows: every project, or the one of the given
/// name, each with the names of its value sets, in configuration order.
pub fn list(project_name: Option<&str>, config: &Config) -> (r: Result<
    Vec<(String, Vec<String>)>,
    GenError,
>)
    ensures
        spec_list_outcome(
            *config,
            match project_name {
                Some(n) => Some(n@),
                None => None,
            },
            r,
        ),
{
    let ghost filter: Option<Seq<char>> = match project_name {
        Some(n) => Some(n@),
        None => None,
    };
    let mut out: Vec<(String, Vec<String>)> = Vec::new();
    let n = config.projects.len();
    proof {
        assert(config.projects@.take(0) =~= Seq::<(String, Project)>::empty());
        assert(spec_selected(Seq::<(String, Project)>::empty(), filter) == Seq::<
            (Seq<char>, Seq<Seq<char>>),
        >::empty());
        assert(listing_view(out@) =~= Seq::<(Seq<char>, Seq<Seq<char>>)>::empty());
    }
    let mut i: usize = 0;
    while i < n
        invariant
            0 <= i <= n,
            n == config.projects@.len(),
            filter == (match project_name {
                Some(m) => Some(m@),
                None => None,
            }),
            listing_view(out@) == spec_selected(config.projects@.take(i as int), filter),
        decreases n - i,
    {
        let entry = &config.projects[i];
        let keep = match project_name {
            Some(m) => str_eq(entry.0.as_str(), m),
            None => true,
        };
        proof {
            assert(config.projects@.take(i as int).push(config.projects@[i as int]) =~= config.projects@.take(i as int + 1));
            lemma_selected_push(config.projects@.take(i as int), filter, config.projects@[i as int]);
        }
        if keep {
            let name = entry.0.clone();
            let mut names: Vec<String> = Vec::new();
            let m = entry.1.values.len();
            proof {
                assert(strs_view(names@) =~= value_names(entry.1.values@).take(0));
            }
            let mut j: usize = 0;
            while j < m
                invariant
                    0 <= j <= m,
                    m == entry.1.values@.len(),
                    strs_view(names@) == value_names(entry.1.values@).take(j as int),
                decreases m - j,
            {
                let vname = entry.1.values[j].0.clone();
                proof {
                    crate::text::lemma_strs_view_push(names@, vname);
                    assert(value_names(entry.1.values@)[j as int] == entry.1.values@[j as int].0@);
                    assert(value_names(entry.1.values@).take(j as int).push(vname@) =~= value_names(
                        entry.1.values@,
                    ).take(j as int + 1));
                }
                names.push(vname);
                j = j + 1;
            }
            proof {
                assert(value_names(entry.1.values@).take(m as int) =~= value_names(
                    entry.1.values@,
                ));
                assert(listing_view(out@.push((name, names))) =~= listing_view(out@).push(
                    (name@, strs_view(names@)),
                ));
                assert((name@, strs_view(names@)) == spec_listing_item(
                    config.projects@[i as int],
                ));
            }
            out.push((name, names));
        }
        i = i + 1;
    }
    proof {
        assert(config.projects@.take(n as int) =~= config.projects@);
    }
    if out.len() == 0 {
        proof {
            assert(listing_view(out@) =~= Seq::<(Seq<char>, Seq<Seq<char>>)>::empty());
        }
        return match project_name {
            Some(m) => Err(GenError::ProjectNotFound { project: m.to_owned() }),
            None => Err(GenError::NoProjects),
        };
    }
    proof {
        assert(spec_selected(config.projects@, filter).len() > 0) by {
            if spec_selected(config.projects@, filter).len() == 0 {
                assert(listing_view(out@).len() == 0);
            }
        }
    }
    Ok(out)
}

} // verus!
