//! The orchestrator, the value-set loader, the listing selection and the
//! command-line parser on concrete inputs.

use metemplate::cli::{parse_key_val, Cli, Commands};
use metemplate::config::{Config, Project, Template, TemplateMode};
use metemplate::error::GenError;
use metemplate::generate::{generate, render_template, FixedChooser, RandomChooser};
use metemplate::list::list;
use metemplate::sync::compose_output;
use metemplate::values::{load_values, ValueTable, Values};
use metemplate::{run, RunOutput};

fn table(pairs: &[(&str, &str)]) -> ValueTable {
    let mut t = ValueTable::new();
    for (k, v) in pairs {
        t.insert(k.to_string(), v.to_string());
    }
    t
}

fn values(data: &[(&str, &str)]) -> Values {
    Values { data: table(data), vars: table(&[]) }
}

fn template(name: &str, contents: &str, out: &[&str], mode: TemplateMode) -> Template {
    Template {
        name: name.to_string(),
        contents: contents.to_string(),
        out: out.iter().map(|p| p.to_string()).collect(),
        mode,
    }
}

fn one_project_config() -> Config {
    let project = Project {
        templates: vec![template("site", "url: {{host}}\n", &["site.conf"], TemplateMode::Replace)],
        values: vec![("dev".to_string(), values(&[("host", "a.com")]))],
    };
    Config { projects: vec![("p".to_string(), project)] }
}

fn overrides(pairs: &[(&str, &str)]) -> Vec<(String, String)> {
    pairs.iter().map(|(k, v)| (k.to_string(), v.to_string())).collect()
}

#[test]
fn end_to_end_named_value_set_renders_and_replaces() {
    let config = one_project_config();
    let mut chooser = RandomChooser;
    let g = generate("p", Some("dev"), &overrides(&[]), false, None, &config, &mut chooser)
        .unwrap();
    assert_eq!(g.values_name, "dev");
    assert_eq!(g.templates.len(), 1);
    let rendered = render_template(&g.templates[0], &g.values, g.values_name.as_str()).unwrap();
    assert_eq!(rendered, "url: a.com\n");
    let written =
        compose_output(&g.templates[0].mode, rendered.as_str(), None, "site").unwrap();
    assert_eq!(written, "url: a.com\n");
    assert_eq!(g.templates[0].out, vec!["site.conf".to_string()]);
}

#[test]
fn unknown_project_is_reported() {
    let config = one_project_config();
    let mut chooser = RandomChooser;
    match generate("nope", Some("dev"), &overrides(&[]), false, None, &config, &mut chooser) {
        Err(GenError::ProjectNotFound { project }) => assert_eq!(project, "nope"),
        other => panic!("expected project not found, got {:?}", other),
    }
}

#[test]
fn unknown_value_set_is_reported_and_nothing_is_generated() {
    let config = one_project_config();
    let mut chooser = RandomChooser;
    match generate("p", Some("prod"), &overrides(&[]), false, None, &config, &mut chooser) {
        Err(GenError::ValuesNotFound { values, project }) => {
            assert_eq!(values, "prod");
            assert_eq!(project, "p");
        }
        other => panic!("expected values not found, got {:?}", other),
    }
}

#[test]
fn random_selection_without_value_sets_is_reported() {
    let project = Project {
        templates: vec![template("t", "x\n", &["o"], TemplateMode::Replace)],
        values: vec![],
    };
    let config = Config { projects: vec![("p".to_string(), project)] };
    let mut chooser = RandomChooser;
    match generate("p", None, &overrides(&[]), true, None, &config, &mut chooser) {
        Err(GenError::NoValueSets { project }) => assert_eq!(project, "p"),
        other => panic!("expected no value sets, got {:?}", other),
    }
}

#[test]
fn random_selection_with_one_set_must_take_it() {
    let config = one_project_config();
    let mut chooser = RandomChooser;
    let g = generate("p", None, &overrides(&[]), true, None, &config, &mut chooser).unwrap();
    assert_eq!(g.values_name, "dev");
    assert_eq!(g.values.data.entries, vec![("host".to_string(), "a.com".to_string())]);
}

#[test]
fn a_fixed_chooser_picks_the_asked_for_set() {
    let project = Project {
        templates: vec![template("t", "{{k}}", &["o"], TemplateMode::Replace)],
        values: vec![
            ("alpha".to_string(), values(&[("k", "1")])),
            ("beta".to_string(), values(&[("k", "2")])),
        ],
    };
    let config = Config { projects: vec![("p".to_string(), project)] };
    let mut chooser = FixedChooser { index: 1 };
    let g = generate("p", None, &overrides(&[]), true, None, &config, &mut chooser).unwrap();
    assert_eq!(g.values_name, "beta");
}

#[test]
fn neither_name_nor_random_nor_overrides_is_an_error() {
    let config = one_project_config();
    let mut chooser = RandomChooser;
    match generate("p", None, &overrides(&[]), false, None, &config, &mut chooser) {
        Err(GenError::NoSelection) => {}
        other => panic!("expected no selection, got {:?}", other),
    }
}

#[test]
fn overrides_alone_drive_a_generation() {
    let config = one_project_config();
    let mut chooser = RandomChooser;
    let g = generate(
        "p",
        None,
        &overrides(&[("host", "b.org")]),
        false,
        None,
        &config,
        &mut chooser,
    )
    .unwrap();
    assert_eq!(g.values_name, "");
    let rendered = render_template(&g.templates[0], &g.values, "").unwrap();
    assert_eq!(rendered, "url: b.org\n");
}

#[test]
fn an_override_wins_over_the_value_set() {
    let config = one_project_config();
    let mut chooser = RandomChooser;
    let g = generate(
        "p",
        Some("dev"),
        &overrides(&[("host", "c.net")]),
        false,
        None,
        &config,
        &mut chooser,
    )
    .unwrap();
    let rendered = render_template(&g.templates[0], &g.values, "dev").unwrap();
    assert_eq!(rendered, "url: c.net\n");
}

#[test]
fn a_template_filter_keeps_only_that_template() {
    let project = Project {
        templates: vec![
            template("one", "1", &["a"], TemplateMode::Replace),
            template("two", "2", &["b"], TemplateMode::Replace),
        ],
        values: vec![("dev".to_string(), values(&[]))],
    };
    let config = Config { projects: vec![("p".to_string(), project)] };
    let mut chooser = RandomChooser;
    let g = generate("p", Some("dev"), &overrides(&[]), false, Some("two"), &config, &mut chooser)
        .unwrap();
    assert_eq!(g.templates.len(), 1);
    assert_eq!(g.templates[0].name, "two");
}

#[test]
fn a_filter_matching_nothing_is_reported() {
    let config = one_project_config();
    let mut chooser = RandomChooser;
    match generate("p", Some("dev"), &overrides(&[]), false, Some("gone"), &config, &mut chooser) {
        Err(GenError::TemplateNotFound { template, project }) => {
            assert_eq!(template, "gone");
            assert_eq!(project, "p");
        }
        other => panic!("expected template not found, got {:?}", other),
    }
}

#[test]
fn a_project_without_templates_is_reported() {
    let project = Project {
        templates: vec![],
        values: vec![("dev".to_string(), values(&[]))],
    };
    let config = Config { projects: vec![("p".to_string(), project)] };
    let mut chooser = RandomChooser;
    match generate("p", Some("dev"), &overrides(&[]), false, None, &config, &mut chooser) {
        Err(GenError::NoTemplates) => {}
        other => panic!("expected no templates, got {:?}", other),
    }
}

#[test]
fn load_values_resolves_vars_and_escapes() {
    let raw = table(&[("url", "$host"), ("price", "\\$5"), ("plain", "x")]);
    let vars = table(&[("host", "a.com")]);
    let (name, data) = load_values("dev".to_string(), &raw, &vars, None).unwrap();
    assert_eq!(name, "dev");
    assert_eq!(
        data.entries,
        vec![
            ("url".to_string(), "a.com".to_string()),
            ("price".to_string(), "$5".to_string()),
            ("plain".to_string(), "x".to_string()),
        ]
    );
}

#[test]
fn load_values_reports_an_undefined_var() {
    let raw = table(&[("url", "$nope")]);
    let vars = table(&[]);
    match load_values("dev".to_string(), &raw, &vars, None) {
        Err(GenError::VarNotDefined { var, values_name }) => {
            assert_eq!(var, "nope");
            assert_eq!(values_name, "dev");
        }
        other => panic!("expected undefined var, got {:?}", other),
    }
}

#[test]
fn load_values_checks_the_required_keys_both_ways() {
    let raw = table(&[("a", "1"), ("c", "3")]);
    let vars = table(&[]);
    let required = vec!["a".to_string(), "b".to_string()];
    match load_values("dev".to_string(), &raw, &vars, Some(&required)) {
        Err(GenError::InvalidValues { values_name, missing, extra }) => {
            assert_eq!(values_name, "dev");
            assert_eq!(missing, vec!["b".to_string()]);
            assert_eq!(extra, vec!["c".to_string()]);
        }
        other => panic!("expected invalid values, got {:?}", other),
    }
}

#[test]
fn load_values_accepts_exactly_the_required_keys() {
    let raw = table(&[("a", "1"), ("b", "2")]);
    let vars = table(&[]);
    let required = vec!["a".to_string(), "b".to_string()];
    let (_, data) = load_values("dev".to_string(), &raw, &vars, Some(&required)).unwrap();
    assert_eq!(data.entries.len(), 2);
}

#[test]
fn listing_shows_every_project_with_its_value_sets() {
    let config = one_project_config();
    let entries = list(None, &config).unwrap();
    assert_eq!(entries, vec![("p".to_string(), vec!["dev".to_string()])]);
}

#[test]
fn listing_a_named_project_keeps_only_it() {
    let p1 = Project { templates: vec![], values: vec![("x".to_string(), values(&[]))] };
    let p2 = Project { templates: vec![], values: vec![] };
    let config = Config {
        projects: vec![("a".to_string(), p1), ("b".to_string(), p2)],
    };
    let entries = list(Some("b"), &config).unwrap();
    assert_eq!(entries, vec![("b".to_string(), vec![])]);
}

#[test]
fn listing_an_absent_project_is_reported() {
    let config = one_project_config();
    match list(Some("ghost"), &config) {
        Err(GenError::ProjectNotFound { project }) => assert_eq!(project, "ghost"),
        other => panic!("expected project not found, got {:?}", other),
    }
}

#[test]
fn listing_an_empty_configuration_is_reported() {
    let config = Config { projects: vec![] };
    match list(None, &config) {
        Err(GenError::NoProjects) => {}
        other => panic!("expected no projects, got {:?}", other),
    }
}

#[test]
fn parse_key_val_splits_at_the_first_equals() {
    assert_eq!(parse_key_val("k=v").unwrap(), ("k".to_string(), "v".to_string()));
    assert_eq!(parse_key_val("k=v=w").unwrap(), ("k".to_string(), "v=w".to_string()));
    assert_eq!(parse_key_val("k=").unwrap(), ("k".to_string(), "".to_string()));
}

#[test]
fn parse_key_val_rejects_a_missing_equals() {
    assert_eq!(parse_key_val("kv").unwrap_err(), "expected KEY=VALUE");
}

#[test]
fn parse_key_val_rejects_an_empty_key() {
    assert_eq!(parse_key_val("=v").unwrap_err(), "Key cannot be empty");
}

#[test]
fn run_dispatches_a_list_command() {
    let config = one_project_config();
    let cli = Cli {
        command: Commands::List { project: None, no_values: false },
        config: None,
    };
    let mut chooser = RandomChooser;
    match run(&cli, &config, &mut chooser).unwrap() {
        RunOutput::Listing(entries) => {
            assert_eq!(entries, vec![("p".to_string(), vec!["dev".to_string()])]);
        }
        other => panic!("expected a listing, got {:?}", other),
    }
}

#[test]
fn run_dispatches_a_generate_command() {
    let config = one_project_config();
    let cli = Cli {
        command: Commands::Generate {
            project: "p".to_string(),
            values: Some("dev".to_string()),
            random: false,
            template: None,
            value_overrides: vec![],
        },
        config: None,
    };
    let mut chooser = RandomChooser;
    match run(&cli, &config, &mut chooser).unwrap() {
        RunOutput::Generation(g) => {
            assert_eq!(g.values_name, "dev");
            assert_eq!(g.templates.len(), 1);
        }
        other => panic!("expected a generation, got {:?}", other),
    }
}
