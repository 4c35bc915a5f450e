//! The data the engine is driven by: templates, projects and the
//! configuration that owns them.
//!
//! Loading these from disk is the caller's business; the engine receives
//! them fully built and only reads them.

use vstd::prelude::*;
use crate::text::{str_eq, strs_view, subvec};
use crate::values::Values;

verus! {

/// How rendered content reaches a destination file.
#[derive(Clone, Copy, Debug, PartialEq, Eq, Structural)]
pub enum TemplateMode {
    /// Overwrite the file with the rendered content.
    Replace,
    /// Keep the remainder of the file, then the rendered content.
    Append,
    /// The rendered content, then the remainder of the file.
    Prepend,
}

/// A unit of renderable text bound to one or more output paths and a mode.
#[derive(Debug)]
pub struct Template {
    pub name: String,
    pub contents: String,
    pub out: Vec<String>,
    pub mode: TemplateMode,
}

impl Clone for Template {
    fn clone(&self) -> (r: Self)
        ensures
            r.name@ == self.name@,
            r.contents@ == self.contents@,
            strs_view(r.out@) == strs_view(self.out@),
            r.mode == self.mode,
    {
        let out = subvec(&self.out, 0, self.out.len());
        proof {
            assert(strs_view(self.out@).subrange(0, self.out@.len() as int) =~= strs_view(
                self.out@,
            ));
        }
        Template {
            name: self.name.clone(),
            contents: self.contents.clone(),
            out,
            mode: self.mode,
        }
    }
}

/// What a template holds, as plain mathematical values: name, contents,
/// output paths and mode.
pub type TemplateView = (Seq<char>, Seq<char>, Seq<Seq<char>>, TemplateMode);

pub open spec fn template_view(t: Template) -> TemplateView {
    (t.name@, t.contents@, strs_view(t.out@), t.mode)
}

pub open spec fn templates_view(ts: Seq<Template>) -> Seq<TemplateView> {
    ts.map_values(|t: Template| template_view(t))
}

/// First index at or after `i` whose value set carries `name`, or the
/// length if none does.
pub open spec fn find_values_named(vs: Seq<(String, Values)>, name: Seq<char>, i: int) -> int
    recommends
        0 <= i <= vs.len(),
    decreases vs.len() - i,
{
    if i < 0 || i >= vs.len() {
        vs.len() as int
    } else if vs[i].0@ == name {
        i
    } else {
        find_values_named(vs, name, i + 1)
    }
}

pub proof fn lemma_find_values_named(vs: Seq<(String, Values)>, name: Seq<char>, i: int)
    requires
        0 <= i <= vs.len(),
    ensures
        i <= find_values_named(vs, name, i) <= vs.len(),
        find_values_named(vs, name, i) < vs.len() ==> vs[find_values_named(vs, name, i)].0@
            == name,
        forall|j: int| i <= j < find_values_named(vs, name, i) ==> vs[j].0@ != name,
    decreases vs.len() - i,
{
    if i < vs.len() && vs[i].0@ != name {
        lemma_find_values_named(vs, name, i + 1);
    }
}

/// A named collection of templates and value sets.
#[derive(Debug)]
pub struct Project {
    pub templates: Vec<Template>,
    pub values: Vec<(String, Values)>,
}

impl Project {
    /// Value-set names are distinct and each value set is well formed.
    pub open spec fn wf(self) -> bool {
        &&& forall|i: int, j: int|
            0 <= i < j < self.values@.len() ==> self.values@[i].0@ != self.values@[j].0@
        &&& forall|i: int| 0 <= i < self.values@.len() ==> #[trigger] self.values@[i].1.wf()
    }

    /// The value set of this name, if the project owns one.
    pub fn get_values<'a>(&'a self, name: &str) -> (r: Option<&'a Values>)
        ensures
            ({
                let i = find_values_named(self.values@, name@, 0);
                match r {
                    Some(v) => i < self.values@.len() && v == &self.values@[i].1
                        && self.values@[i].0@ == name@,
                    None => i == self.values@.len(),
                }
            }),
    {
        let n = self.values.len();
        let mut i: usize = 0;
        while i < n
            invariant
                0 <= i <= n,
                n == self.values@.len(),
                forall|j: int| 0 <= j < i ==> self.values@[j].0@ != name@,
            decreases n - i,
        {
            if str_eq(self.values[i].0.as_str(), name) {
                proof {
                    lemma_find_values_named(self.values@, name@, 0);
                }
                return Some(&self.values[i].1);
            }
            i = i + 1;
        }
        proof {
            lemma_find_values_named(self.values@, name@, 0);
        }
        None
    }
}

/// First index at or after `i` whose project carries `name`, or the length
/// if none does.
pub open spec fn find_project_named(ps: Seq<(String, Project)>, name: Seq<char>, i: int) -> int
    recommends
        0 <= i <= ps.len(),
    decreases ps.len() - i,
{
    if i < 0 || i >= ps.len() {
        ps.len() as int
    } else if ps[i].0@ == name {
        i
    } else {
        find_project_named(ps, name, i + 1)
    }
}

pub proof fn lemma_find_project_named(ps: Seq<(String, Project)>, name: Seq<char>, i: int)
    requires
        0 <= i <= ps.len(),
    ensures
        i <= find_project_named(ps, name, i) <= ps.len(),
        find_project_named(ps, name, i) < ps.len() ==> ps[find_project_named(ps, name, i)].0@
            == name,
        forall|j: int| i <= j < find_project_named(ps, name, i) ==> ps[j].0@ != name,
    decreases ps.len() - i,
{
    if i < ps.len() && ps[i].0@ != name {
        lemma_find_project_named(ps, name, i + 1);
    }
}

/// Every project, by name, in a fixed order.
#[derive(Debug)]
pub struct Config {
    pub projects: Vec<(String, Project)>,
}

impl Config {
    /// Project names are distinct and each project is well formed.
    pub open spec fn wf(self) -> bool {
        &&& forall|i: int, j: int|
            0 <= i < j < self.projects@.len() ==> self.projects@[i].0@ != self.projects@[j].0@
        &&& forall|i: int| 0 <= i < self.projects@.len() ==> #[trigger] self.projects@[i].1.wf()
    }

    /// The project of this name, if the configuration holds one.
    pub fn get_project<'a>(&'a self, name: &str) -> (r: Option<&'a Project>)
        ensures
            ({
                let i = find_project_named(self.projects@, name@, 0);
                match r {
                    Some(p) => i < self.projects@.len() && p == &self.projects@[i].1
                        && self.projects@[i].0@ == name@,
                    None => i == self.projects@.len(),
                }
            }),
    {
        let n = self.projects.len();
        let mut i: usize = 0;
        while i < n
            invariant
                0 <= i <= n,
                n == self.projects@.len(),
                forall|j: int| 0 <= j < i ==> self.projects@[j].0@ != name@,
            decreases n - i,
        {
            if str_eq(self.projects[i].0.as_str(), name) {
                proof {
                    lemma_find_project_named(self.projects@, name@, 0);
                }
                return Some(&self.projects[i].1);
            }
            i = i + 1;
        }
        proof {
            lemma_find_project_named(self.projects@, name@, 0);
        }
        None
    }
}

} // verus!
