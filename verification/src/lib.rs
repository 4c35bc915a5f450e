//! Template rendering and file-synchronization engine.
//!
//! Renders parameterized text templates against named, project-scoped value
//! sets: placeholder substitution with a leading-dash trim modifier,
//! repeat-block expansion, and idempotent section update of destination
//! files (append/prepend with in-place block replacement). The engine works
//! on values alone; reading configuration from disk, writing destination
//! files and talking to a terminal are the caller's business.

use vstd::prelude::*;

pub mod cli;
pub mod config;
pub mod error;
pub mod fill;
pub mod generate;
pub mod list;
pub mod repeat;
pub mod sync;
pub mod text;
pub mod values;

use crate::cli::{Cli, Commands};
use crate::config::Config;
use crate::error::GenError;
use crate::generate::{Generation, IndexChooser, spec_generate_outcome};
use crate::list::spec_list_outcome;
use crate::values::pairs_view;

verus! {

/// What one invocation asks for: a listing selection to lay out, or a
/// generation whose templates the caller renders and writes.
#[derive(Debug)]
pub enum RunOutput {
    Listing(Vec<(String, Vec<String>)>),
    Generation(Generation),
}

/// Decides one invocation: a `List` command becomes the listing selection, a
/// `Generate` command becomes the resolved generation.
pub fn run<C: IndexChooser>(cli: &Cli, config: &Config, chooser: &mut C) -> (r: Result<
    RunOutput,
    GenError,
>)
    requires
        config.wf(),
    ensures
        match cli.command {
            Commands::List { project, .. } => match r {
                Ok(RunOutput::Listing(v)) => spec_list_outcome(
                    *config,
                    match project {
                        Some(p) => Some(p@),
                        None => None,
                    },
                    Ok(v),
                ),
                Ok(_) => false,
                Err(e) => spec_list_outcome(
                    *config,
                    match project {
                        Some(p) => Some(p@),
                        None => None,
                    },
                    Err(e),
                ),
            },
            Commands::Generate { project, values, random, template, value_overrides } => match r {
                Ok(RunOutput::Generation(g)) => spec_generate_outcome(
                    project@,
                    match values {
                        Some(v) => Some(v@),
                        None => None,
                    },
                    pairs_view(value_overrides@),
                    random,
                    match template {
                        Some(t) => Some(t@),
                        None => None,
                    },
                    *config,
                    Ok(g),
                ),
                Ok(_) => false,
                Err(e) => spec_generate_outcome(
                    project@,
                    match values {
                        Some(v) => Some(v@),
                        None => None,
                    },
                    pairs_view(value_overrides@),
                    random,
                    match template {
                        Some(t) => Some(t@),
                        None => None,
                    },
                    *config,
                    Err(e),
                ),
            },
        },
{
    match &cli.command {
        Commands::List { project, no_values: _ } => {
            let filter = match project {
                Some(p) => Some(p.as_str()),
                None => None,
            };
            match crate::list::list(filter, config) {
                Ok(v) => Ok(RunOutput::Listing(v)),
                Err(e) => Err(e),
            }
        },
        Commands::Generate { project, values, random, template, value_overrides } => {
            let values_name = match values {
                Some(v) => Some(v.as_str()),
                None => None,
            };
            let template_name = match template {
                Some(t) => Some(t.as_str()),
                None => None,
            };
            match crate::generate::generate(
                project.as_str(),
                values_name,
                value_overrides,
                *random,
                template_name,
                config,
                chooser,
            ) {
                Ok(g) => Ok(RunOutput::Generation(g)),
                Err(e) => Err(e),
            }
        },
    }
}

} // verus!
