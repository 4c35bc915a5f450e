//! The generation orchestrator.
//!
//! Resolves a project and its value table (named, random, or built from
//! overrides alone), merges the overrides, selects the templates, and
//! renders each selected template: repeat blocks are expanded until none is
//! left, then the placeholders are filled. Writing the rendered content to
//! its destination paths is the caller's business.

use vstd::prelude::*;
use rand::Rng;
use vstd::string::StrSliceExecFns;
use crate::config::{
    Config,
    find_project_named,
    find_values_named,
    Template,
    template_view,
    templates_view,
    TemplateView,
};
use crate::error::GenError;
use crate::fill::{fill_template, spec_fill_at};
use crate::repeat::{
    count_markers,
    expand_repeat_statement,
    lemma_expand_outcome_err,
    lemma_expand_outcome_ok,
    marker_count_from,
    spec_expand_ok,
    spec_expand_outcome,
};
use crate::text::{spec_lines, str_eq, strs_view};
use crate::values::{pairs_view, spec_merge, table_map, Values};

verus! {

/// Relies on rand: `Rng::random_range` over `0 .. n` returns a uniformly
/// chosen value of the range, and panics only when the range is empty.
#[verifier::external_body]
fn random_index(n: usize) -> (r: usize)
    requires
        n >= 1,
    ensures
        r < n,
{
    rand::rng().random_range(0..n)
}

/// A source of choice over a finite index range: the orchestrator draws
/// from it when a value set is to be picked at random, so a caller may
/// substitute a reproducible sequence.
pub trait IndexChooser {
    fn choose_index(&mut self, n: usize) -> (r: usize)
        requires
            n >= 1,
        ensures
            r < n,
    ;
}

/// The production chooser: a process-wide random generator.
pub struct RandomChooser;

impl IndexChooser for RandomChooser {
    fn choose_index(&mut self, n: usize) -> (r: usize) {
        random_index(n)
    }
}

/// A reproducible chooser: hands out the held index, clamped to the range.
pub struct FixedChooser {
    pub index: usize,
}

impl IndexChooser for FixedChooser {
    fn choose_index(&mut self, n: usize) -> (r: usize) {
        if self.index < n {
            self.index
        } else {
            n - 1
        }
    }
}

/// What rendering owes: some run of successful expansion rounds leads from
/// the template's contents to a text; on success that text is marker-free
/// and the result is its placeholder filling, with no key missing. On
/// failure the last text of the run pins the error: the round itself
/// failed, or a round left as many markers as it found, or the marker-free
/// text had missing keys.
pub open spec fn spec_render_outcome(
    contents: Seq<char>,
    data: Seq<(Seq<char>, Seq<char>)>,
    vars: Seq<(Seq<char>, Seq<char>)>,
    tname: Seq<char>,
    vname: Seq<char>,
    r: Result<String, GenError>,
) -> bool {
    exists|chain: Seq<Seq<char>>|
        {
            &&& chain.len() >= 1
            &&& chain[0] == contents
            &&& (forall|i: int|
                0 <= i < chain.len() - 1 ==> spec_expand_ok(#[trigger] chain[i], data, vars)
                    == Some(chain[i + 1]))
            &&& match r {
                Ok(out) => {
                    &&& marker_count_from(spec_lines(chain.last()), 0) == 0
                    &&& spec_fill_at(chain.last(), table_map(data), 0).1.len() == 0
                    &&& out@ == spec_fill_at(chain.last(), table_map(data), 0).0
                },
                Err(e) => {
                    ||| spec_expand_outcome(chain.last(), data, vars, tname, Err(e))
                    ||| (match e {
                        GenError::RepeatMarkerIntroduced { template } => template@ == tname
                            && marker_count_from(spec_lines(chain.last()), 0) > 0 && (exists|
                            next: Seq<char>,
                        |
                            spec_expand_ok(chain.last(), data, vars) == Some(next)
                                && marker_count_from(spec_lines(next), 0) >= marker_count_from(
                                spec_lines(chain.last()),
                                0,
                            )),
                        _ => false,
                    })
                    ||| ({
                        &&& marker_count_from(spec_lines(chain.last()), 0) == 0
                        &&& match e {
                            GenError::MissingKeys { values_name, keys } => values_name@ == vname
                                && strs_view(keys@) == spec_fill_at(
                                chain.last(),
                                table_map(data),
                                0,
                            ).1 && spec_fill_at(chain.last(), table_map(data), 0).1.len() > 0,
                            _ => false,
                        }
                    })
                },
            }
        }
}

/// Renders one template against a value set: repeat blocks are expanded,
/// round by round, until no marker line is left — a round that does not
/// lower the marker count is refused — and the marker-free text has its
/// placeholders filled from the value table.
pub fn render_template(template: &Template, values: &Values, values_name: &str) -> (r: Result<
    String,
    GenError,
>)
    requires
        values.wf(),
    ensures
        spec_render_outcome(
            template.contents@,
            values.data@,
            values.vars@,
            template.name@,
            values_name@,
            r,
        ),
{
    let mut text = template.contents.clone();
    let mut count = count_markers(text.as_str());
    let ghost chain: Seq<Seq<char>> = seq![text@];
    let mut chain_tracker = Ghost(chain);
    while count > 0
        invariant
            values.wf(),
            count == marker_count_from(spec_lines(text@), 0),
            chain_tracker@.len() >= 1,
            chain_tracker@[0] == template.contents@,
            chain_tracker@.last() == text@,
            forall|i: int|
                0 <= i < chain_tracker@.len() - 1 ==> spec_expand_ok(
                    #[trigger] chain_tracker@[i],
                    values.data@,
                    values.vars@,
                ) == Some(chain_tracker@[i + 1]),
        decreases count,
    {
        match expand_repeat_statement(text.as_str(), values, template.name.as_str()) {
            Ok(new_text) => {
                proof {
                    lemma_expand_outcome_ok(
                        text@,
                        values.data@,
                        values.vars@,
                        template.name@,
                        new_text,
                    );
                }
                let new_count = count_markers(new_text.as_str());
                if new_count >= count {
                    return Err(
                        GenError::RepeatMarkerIntroduced { template: template.name.clone() },
                    );
                }
                text = new_text;
                count = new_count;
                proof {
                    let c0 = chain_tracker@;
                    chain_tracker@ = chain_tracker@.push(text@);
                    assert(chain_tracker@.last() == text@);
                    assert(chain_tracker@[0] == template.contents@);
                    assert forall|i: int| 0 <= i < chain_tracker@.len() - 1 implies spec_expand_ok(
                        #[trigger] chain_tracker@[i],
                        values.data@,
                        values.vars@,
                    ) == Some(chain_tracker@[i + 1]) by {
                        if i < c0.len() - 1 {
                            assert(chain_tracker@[i] == c0[i]);
                            assert(chain_tracker@[i + 1] == c0[i + 1]);
                        } else {
                            assert(chain_tracker@[i] == c0.last());
                        }
                    }
                }
            },
            Err(e) => {
                proof {
                    lemma_expand_outcome_err(text@, values.data@, values.vars@, template.name@, e);
                }
                return Err(e);
            },
        }
    }
    fill_template(text.as_str(), &values.data, values_name)
}

/// What one generation run hands the caller: the merged value table, the
/// name of the value set it came from, and the selected templates in
/// project order.
#[derive(Debug)]
pub struct Generation {
    pub values: Values,
    pub values_name: String,
    pub templates: Vec<Template>,
}

/// The generation result owed for a chosen base value set: the overrides
/// merged over its table, and the chosen templates carried over.
pub open spec fn spec_generation_is(
    base_data: Seq<(Seq<char>, Seq<char>)>,
    base_vars: Seq<(Seq<char>, Seq<char>)>,
    used_name: Seq<char>,
    overrides: Seq<(Seq<char>, Seq<char>)>,
    chosen: Seq<TemplateView>,
    r: Result<Generation, GenError>,
) -> bool {
    match r {
        Ok(g) => {
            &&& g.values.data@ == spec_merge(base_data, overrides)
            &&& g.values.vars@ == base_vars
            &&& g.values.wf()
            &&& g.values_name@ == used_name
            &&& templates_view(g.templates@) == chosen
        },
        Err(_) => false,
    }
}

/// The templates of this name, in order.
pub open spec fn spec_templates_named(tv: Seq<TemplateView>, name: Seq<char>) -> Seq<TemplateView>
    decreases tv.len(),
{
    if tv.len() == 0 {
        seq![]
    } else {
        (if tv[0].0 == name {
            seq![tv[0]]
        } else {
            seq![]
        }) + spec_templates_named(tv.drop_first(), name)
    }
}

pub proof fn lemma_templates_named_push(tv: Seq<TemplateView>, name: Seq<char>, x: TemplateView)
    ensures
        x.0 == name ==> spec_templates_named(tv.push(x), name) == spec_templates_named(tv, name).push(x),
        x.0 != name ==> spec_templates_named(tv.push(x), name) == spec_templates_named(tv, name),
    decreases tv.len(),
{
    if tv.len() == 0 {
        assert(tv.push(x)[0] == x);
        assert(tv.push(x).drop_first() =~= Seq::<TemplateView>::empty());
        assert(spec_templates_named(Seq::<TemplateView>::empty(), name)
            == Seq::<TemplateView>::empty());
        if x.0 == name {
            assert(spec_templates_named(tv.push(x), name) =~= spec_templates_named(
                tv,
                name,
            ).push(x));
        } else {
            assert(spec_templates_named(tv.push(x), name) =~= spec_templates_named(tv, name));
        }
    } else {
        assert(tv.push(x)[0] == tv[0]);
        assert(tv.push(x).drop_first() =~= tv.drop_first().push(x));
        lemma_templates_named_push(tv.drop_first(), name, x);
        if x.0 == name {
            assert(spec_templates_named(tv.push(x), name) =~= spec_templates_named(
                tv,
                name,
            ).push(x));
        } else {
            assert(spec_templates_named(tv.push(x), name) =~= spec_templates_named(tv, name));
        }
    }
}

/// The template-selection step: a named filter keeps exactly the templates
/// of that name and must keep at least one; without a filter the project
/// must own a template at all.
pub open spec fn spec_select_templates(
    pname: Seq<char>,
    project: crate::config::Project,
    base_data: Seq<(Seq<char>, Seq<char>)>,
    base_vars: Seq<(Seq<char>, Seq<char>)>,
    used_name: Seq<char>,
    overrides: Seq<(Seq<char>, Seq<char>)>,
    tfilter: Option<Seq<char>>,
    r: Result<Generation, GenError>,
) -> bool {
    let tv = templates_view(project.templates@);
    match tfilter {
        Some(tn) => {
            let chosen = spec_templates_named(tv, tn);
            if chosen.len() == 0 {
                match r {
                    Err(GenError::TemplateNotFound { template, project: p2 }) => template@ == tn
                        && p2@ == pname,
                    _ => false,
                }
            } else {
                spec_generation_is(base_data, base_vars, used_name, overrides, chosen, r)
            }
        },
        None => {
            if tv.len() == 0 {
                match r {
                    Err(GenError::NoTemplates) => true,
                    _ => false,
                }
            } else {
                spec_generation_is(base_data, base_vars, used_name, overrides, tv, r)
            }
        },
    }
}

/// What `generate` owes: the project is found by name; the base value table
/// comes from the named value set, from one of the project's value sets
/// when chosen at random, or is empty when overrides alone drive the run;
/// each absence is the corresponding error, and override-only runs demand
/// at least one override.
pub open spec fn spec_generate_outcome(
    pname: Seq<char>,
    vname: Option<Seq<char>>,
    overrides: Seq<(Seq<char>, Seq<char>)>,
    random: bool,
    tfilter: Option<Seq<char>>,
    cfg: Config,
    r: Result<Generation, GenError>,
) -> bool {
    let pi = find_project_named(cfg.projects@, pname, 0);
    if pi == cfg.projects@.len() {
        match r {
            Err(GenError::ProjectNotFound { project }) => project@ == pname,
            _ => false,
        }
    } else {
        let project = cfg.projects@[pi].1;
        match vname {
            Some(vn) => {
                let vi = find_values_named(project.values@, vn, 0);
                if vi == project.values@.len() {
                    match r {
                        Err(GenError::ValuesNotFound { values, project: p2 }) => values@ == vn
                            && p2@ == pname,
                        _ => false,
                    }
                } else {
                    spec_select_templates(
                        pname,
                        project,
                        project.values@[vi].1.data@,
                        project.values@[vi].1.vars@,
                        vn,
                        overrides,
                        tfilter,
                        r,
                    )
                }
            },
            None => {
                if random {
                    if project.values@.len() == 0 {
                        match r {
                            Err(GenError::NoValueSets { project: p2 }) => p2@ == pname,
                            _ => false,
                        }
                    } else {
                        exists|i: int|
                            0 <= i < project.values@.len() && spec_select_templates(
                                pname,
                                project,
                                (#[trigger] project.values@[i]).1.data@,
                                project.values@[i].1.vars@,
                                project.values@[i].0@,
                                overrides,
                                tfilter,
                                r,
                            )
                    }
                } else {
                    if overrides.len() == 0 {
                        match r {
                            Err(GenError::NoSelection) => true,
                            _ => false,
                        }
                    } else {
                        spec_select_templates(
                            pname,
                            project,
                            seq![],
                            seq![],
                            seq![],
                            overrides,
                            tfilter,
                            r,
                        )
                    }
                }
            },
        }
    }
}

/// Resolves the project, the value table and the template selection of one
/// generation run. The caller renders each returned template with the
/// merged values and writes it to its output paths, in order.
pub fn generate<C: IndexChooser>(
    project_name: &str,
    values_name: Option<&str>,
    value_overrides: &Vec<(String, String)>,
    random_values: bool,
    template_name: Option<&str>,
    config: &Config,
    chooser: &mut C,
) -> (r: Result<Generation, GenError>)
    requires
        config.wf(),
    ensures
        spec_generate_outcome(
            project_name@,
            match values_name {
                Some(v) => Some(v@),
                None => None,
            },
            pairs_view(value_overrides@),
            random_values,
            match template_name {
                Some(t) => Some(t@),
                None => None,
            },
            *config,
            r,
        ),
{
    let project = match config.get_project(project_name) {
        None => {
            return Err(GenError::ProjectNotFound { project: project_name.to_owned() });
        },
        Some(p) => p,
    };
    proof {
        crate::config::lemma_find_project_named(config.projects@, project_name@, 0);
        let pi = find_project_named(config.projects@, project_name@, 0);
        assert(0 <= pi < config.projects@.len());
        assert(config.projects@[pi].1.wf());
        assert(project.wf());
    }
    let base: (Values, String) = match values_name {
        Some(vn) => {
            match project.get_values(vn) {
                None => {
                    return Err(
                        GenError::ValuesNotFound {
                            values: vn.to_owned(),
                            project: project_name.to_owned(),
                        },
                    );
                },
                Some(v) => {
                    proof {
                        crate::config::lemma_find_values_named(project.values@, vn@, 0);
                        let vi = find_values_named(project.values@, vn@, 0);
                        assert(0 <= vi < project.values@.len());
                        assert(project.values@[vi].1.wf());
                    }
                    (v.clone(), vn.to_owned())
                },
            }
        },
        None => {
            if random_values {
                let len = project.values.len();
                if len == 0 {
                    return Err(GenError::NoValueSets { project: project_name.to_owned() });
                }
                let idx = chooser.choose_index(len);
                let pair = &project.values[idx];
                proof {
                    assert(project.values@[idx as int].1.wf());
                }
                (pair.1.clone(), pair.0.clone())
            } else {
                if value_overrides.len() == 0 {
                    return Err(GenError::NoSelection);
                }
                (Values::new(), String::new())
            }
        },
    };
    let (mut values, used_name) = base;
    values.data.merge_overrides(value_overrides);
    let ghost tv = templates_view(project.templates@);
    let mut templates: Vec<Template> = Vec::new();
    let n = project.templates.len();
    proof {
        assert(tv.take(0) =~= Seq::<TemplateView>::empty());
        assert(templates_view(templates@) =~= Seq::<TemplateView>::empty());
        assert(spec_templates_named(Seq::<TemplateView>::empty(), match template_name {
            Some(tn) => tn@,
            None => seq![],
        }) == Seq::<TemplateView>::empty());
    }
    let mut i: usize = 0;
    while i < n
        invariant
            0 <= i <= n,
            n == project.templates@.len(),
            tv == templates_view(project.templates@),
            templates_view(templates@) == (match template_name {
                Some(tn) => spec_templates_named(tv.take(i as int), tn@),
                None => tv.take(i as int),
            }),
        decreases n - i,
    {
        let t = &project.templates[i];
        let keep = match template_name {
            Some(tn) => str_eq(t.name.as_str(), tn),
            None => true,
        };
        let ghost x = template_view(project.templates@[i as int]);
        proof {
            assert(tv.take(i as int).push(x) =~= tv.take(i as int + 1));
            if template_name is Some {
                lemma_templates_named_push(
                    tv.take(i as int),
                    template_name->Some_0@,
                    x,
                );
            }
        }
        if keep {
            let cloned = t.clone();
            proof {
                assert(template_view(cloned) == x);
                assert(templates_view(templates@.push(cloned)) =~= templates_view(templates@).push(
                    template_view(cloned),
                ));
            }
            templates.push(cloned);
        }
        i = i + 1;
    }
    proof {
        assert(tv.take(n as int) =~= tv);
    }
    if templates.len() == 0 {
        return match template_name {
            Some(tn) => Err(
                GenError::TemplateNotFound {
                    template: tn.to_owned(),
                    project: project_name.to_owned(),
                },
            ),
            None => Err(GenError::NoTemplates),
        };
    }
    Ok(Generation { values, values_name: used_name, templates })
}

} // verus!
