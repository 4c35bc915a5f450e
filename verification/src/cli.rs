//! The command-line surface: the parsed invocation the engine is driven by,
//! and the parser for `KEY=VALUE` override arguments.
//!
//! Reading the actual process arguments is the caller's business; it hands
//! the engine a `Cli` value.

use vstd::prelude::*;
use vstd::string::StrSliceExecFns;
use crate::text::str_eq;

verus! {

/// A parsed invocation.
#[derive(Debug)]
pub struct Cli {
    pub command: Commands,
    /// An explicit configuration directory, where the caller gave one.
    pub config: Option<String>,
}

#[derive(Debug)]
pub enum Commands {
    /// List the projects, or one project's value sets.
    List {
        /// Restrict the listing to the project of this name.
        project: Option<String>,
        /// Leave each project's value-set names out.
        no_values: bool,
    },
    /// Generate template files.
    Generate {
        /// The project whose templates are generated.
        project: String,
        /// The value set to render with.
        values: Option<String>,
        /// Pick a value set at random instead.
        random: bool,
        /// Generate only the template of this name.
        template: Option<String>,
        /// Explicit key/value pairs that win over the value set.
        value_overrides: Vec<(String, String)>,
    },
}

/// First index at or after `i` holding `=`, or the length if none.
pub open spec fn find_eq(s: Seq<char>, i: int) -> int
    recommends
        0 <= i <= s.len(),
    decreases s.len() - i,
{
    if i < 0 || i >= s.len() {
        s.len() as int
    } else if s[i] == '=' {
        i
    } else {
        find_eq(s, i + 1)
    }
}

pub proof fn lemma_find_eq_is(s: Seq<char>, i: int, j: int)
    requires
        0 <= i <= j <= s.len(),
        forall|k: int| i <= k < j ==> s[k] != '=',
        j < s.len() ==> s[j] == '=',
    ensures
        find_eq(s, i) == j,
    decreases j - i,
{
    if i < j {
        lemma_find_eq_is(s, i + 1, j);
    }
}

/// Splits a `KEY=VALUE` argument at its first `=`: the key must be
/// non-empty, the value may itself contain `=`.
pub fn parse_key_val(s: &str) -> (r: Result<(String, String), String>)
    ensures
        ({
            let eq = find_eq(s@, 0);
            if eq == s@.len() {
                match r {
                    Err(m) => m@ == "expected KEY=VALUE"@,
                    _ => false,
                }
            } else if eq == 0 {
                match r {
                    Err(m) => m@ == "Key cannot be empty"@,
                    _ => false,
                }
            } else {
                match r {
                    Ok(p) => p.0@ == s@.take(eq) && p.1@ == s@.skip(eq + 1),
                    _ => false,
                }
            }
        }),
{
    let n = s.unicode_len();
    let mut i: usize = 0;
    while i < n
        invariant
            0 <= i <= n,
            n == s@.len(),
            forall|k: int| 0 <= k < i ==> s@[k] != '=',
        decreases n - i,
    {
        if s.get_char(i) == '=' {
            proof {
                lemma_find_eq_is(s@, 0, i as int);
            }
            if i == 0 {
                return Err("Key cannot be empty".to_owned());
            }
            let key = s.substring_char(0, i).to_owned();
            let value = s.substring_char(i + 1, n).to_owned();
            return Ok((key, value));
        }
        i = i + 1;
    }
    proof {
        lemma_find_eq_is(s@, 0, n as int);
    }
    Err("expected KEY=VALUE".to_owned())
}

} // verus!
