//! Errors of the rendering engine.
//!
//! Reading or writing destination files is the caller's business, so
//! input/output failures carry no variant here: the engine only reports what
//! is wrong with the projects, value sets and templates it was given.

use vstd::prelude::*;

verus! {

#[derive(Debug)]
pub enum GenError {
    /// No project of this name exists.
    ProjectNotFound { project: String },
    /// The configuration holds no project at all.
    NoProjects,
    /// The project has no value set of this name.
    ValuesNotFound { values: String, project: String },
    /// The project has no template of this name.
    TemplateNotFound { template: String, project: String },
    /// Random selection was asked of a project that owns no value set.
    NoValueSets { project: String },
    /// Neither a value-set name, nor random selection, nor an override was supplied.
    NoSelection,
    /// The project owns no templates at all.
    NoTemplates,
    /// Placeholder keys that the merged value table does not hold, in the
    /// order they were met, with the name of the value set that was used.
    MissingKeys { values_name: String, keys: Vec<String> },
    /// A repeat marker names a pool that is neither `values` nor `vars`.
    UnknownPool { pool: String },
    /// A repeat marker (at this one-based line) has no endrepeat marker after it.
    MissingEndRepeat { template: String, line: usize },
    /// A repeat marker (at the one-based `inner_line`) stands inside the body
    /// of another (at `outer_line`).
    NestedRepeat { outer_line: usize, inner_line: usize },
    /// An expansion round left as many repeat markers as it found: a pool
    /// value smuggled a marker line into the document.
    RepeatMarkerIntroduced { template: String },
    /// A value said `$var`, but the value set's `vars` table has no such entry.
    VarNotDefined { var: String, values_name: String },
    /// The value set does not hold exactly the required keys.
    InvalidValues { values_name: String, missing: Vec<String>, extra: Vec<String> },
    /// Appending or prepending needs a rendered block with a first line, but
    /// the rendered content is empty.
    EmptyTemplate { template: String },
    /// Appending or prepending needs distinct first and last lines, but the
    /// rendered content has only one line.
    SingleLineTemplate { template: String },
}

} // verus!
