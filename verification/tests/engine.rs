//! The rendering engine on concrete inputs: placeholder filling, repeat
//! expansion and section synchronization.

use metemplate::config::{Template, TemplateMode};
use metemplate::error::GenError;
use metemplate::fill::fill_template;
use metemplate::generate::render_template;
use metemplate::repeat::expand_repeat_statement;
use metemplate::sync::{clean_template, compose_output};
use metemplate::text::remove_prefix;
use metemplate::values::{ValueTable, Values};

fn table(pairs: &[(&str, &str)]) -> ValueTable {
    let mut t = ValueTable::new();
    for (k, v) in pairs {
        t.insert(k.to_string(), v.to_string());
    }
    t
}

fn values(data: &[(&str, &str)], vars: &[(&str, &str)]) -> Values {
    Values { data: table(data), vars: table(vars) }
}

fn template(name: &str, contents: &str, out: &[&str], mode: TemplateMode) -> Template {
    Template {
        name: name.to_string(),
        contents: contents.to_string(),
        out: out.iter().map(|p| p.to_string()).collect(),
        mode,
    }
}

#[test]
fn fill_substitutes_a_key() {
    let t = table(&[("host", "a.com")]);
    let out = fill_template("url: {{host}}\n", &t, "dev").unwrap();
    assert_eq!(out, "url: a.com\n");
}

#[test]
fn fill_allows_spaces_around_the_key() {
    let t = table(&[("host", "a.com")]);
    let out = fill_template("url: {{  host  }}!", &t, "dev").unwrap();
    assert_eq!(out, "url: a.com!");
}

#[test]
fn fill_reports_every_missing_key_together() {
    let t = table(&[("b", "1")]);
    match fill_template("{{x}} {{b}} {{y}}", &t, "dev") {
        Err(GenError::MissingKeys { values_name, keys }) => {
            assert_eq!(values_name, "dev");
            assert_eq!(keys, vec!["x".to_string(), "y".to_string()]);
        }
        other => panic!("expected missing keys, got {:?}", other),
    }
}

#[test]
fn fill_reports_a_repeated_missing_key_per_occurrence() {
    let t = table(&[]);
    match fill_template("{{a}}{{a}}", &t, "dev") {
        Err(GenError::MissingKeys { keys, .. }) => {
            assert_eq!(keys, vec!["a".to_string(), "a".to_string()]);
        }
        other => panic!("expected missing keys, got {:?}", other),
    }
}

#[test]
fn fill_passes_braced_text_with_spaces_through() {
    let t = table(&[]);
    let out = fill_template("keep {{a b}} as is", &t, "dev").unwrap();
    assert_eq!(out, "keep {{a b}} as is");
}

#[test]
fn fill_ends_the_key_at_the_first_closing_braces() {
    let t = table(&[("a", "v")]);
    let out = fill_template("{{a}}b}}", &t, "dev").unwrap();
    assert_eq!(out, "vb}}");
}

#[test]
fn fill_handles_adjacent_tokens() {
    let t = table(&[("key", "k"), ("value", "v")]);
    let out = fill_template("{{key}}={{value}}", &t, "dev").unwrap();
    assert_eq!(out, "k=v");
}

#[test]
fn dash_strips_one_leading_character() {
    let t = table(&[("name", "hello")]);
    assert_eq!(fill_template("{{-name}}", &t, "dev").unwrap(), "ello");
}

#[test]
fn two_dashes_strip_two_characters() {
    let t = table(&[("name", "hello")]);
    assert_eq!(fill_template("{{--name}}", &t, "dev").unwrap(), "llo");
}

#[test]
fn more_dashes_than_characters_leave_nothing() {
    let t = table(&[("name", "hello")]);
    assert_eq!(fill_template("{{------name}}", &t, "dev").unwrap(), "");
}

#[test]
fn dash_counts_characters_not_bytes() {
    let t = table(&[("word", "héllo")]);
    assert_eq!(fill_template("{{--word}}", &t, "dev").unwrap(), "llo");
}

#[test]
fn remove_prefix_drops_leading_characters() {
    assert_eq!(remove_prefix("hello", 1), "ello");
    assert_eq!(remove_prefix("hello", 5), "");
    assert_eq!(remove_prefix("hello", 10), "");
    assert_eq!(remove_prefix("héllo", 2), "llo");
}

#[test]
fn repeat_expands_once_per_entry_in_pool_order() {
    let v = values(&[("a", "1"), ("b", "2")], &[]);
    let out = expand_repeat_statement(
        "<{ repeat values }>\n{{key}}={{value}}\n<{ endrepeat }>",
        &v,
        "t",
    )
    .unwrap();
    assert_eq!(out, "a=1\nb=2");
}

#[test]
fn repeat_over_empty_pool_leaves_no_blank_line() {
    let v = values(&[], &[]);
    let out = expand_repeat_statement(
        "pre\n<{ repeat values }>\n{{key}}\n<{ endrepeat }>\npost",
        &v,
        "t",
    )
    .unwrap();
    assert_eq!(out, "pre\npost");
}

#[test]
fn repeat_draws_from_the_vars_pool_when_named() {
    let v = values(&[("unused", "x")], &[("h", "7")]);
    let out = expand_repeat_statement(
        "<{ repeat vars }>\n{{key}}:{{value}}\n<{ endrepeat }>",
        &v,
        "t",
    )
    .unwrap();
    assert_eq!(out, "h:7");
}

#[test]
fn markers_match_with_or_without_inner_spacing() {
    let v = values(&[("a", "1")], &[]);
    let out = expand_repeat_statement("<{repeat values}>\n{{key}}\n<{  endrepeat  }>", &v, "t")
        .unwrap();
    assert_eq!(out, "a");
}

#[test]
fn marker_text_inside_a_longer_line_is_not_a_marker() {
    let v = values(&[("a", "1")], &[]);
    let out = expand_repeat_statement("say <{ repeat values }> here", &v, "t").unwrap();
    assert_eq!(out, "say <{ repeat values }> here");
}

#[test]
fn a_placeholder_may_span_lines() {
    let t = table(&[("host", "a.com")]);
    let out = fill_template("{{\nhost\n}}", &t, "dev").unwrap();
    assert_eq!(out, "a.com");
}

#[test]
fn repeat_rejects_an_unknown_pool() {
    let v = values(&[("a", "1")], &[]);
    match expand_repeat_statement("<{ repeat stuff }>\n<{ endrepeat }>", &v, "t") {
        Err(GenError::UnknownPool { pool }) => assert_eq!(pool, "stuff"),
        other => panic!("expected unknown pool, got {:?}", other),
    }
}

#[test]
fn repeat_without_endrepeat_is_an_error() {
    let v = values(&[("a", "1")], &[]);
    match expand_repeat_statement("x\n<{ repeat values }>\nbody", &v, "t") {
        Err(GenError::MissingEndRepeat { template, line }) => {
            assert_eq!(template, "t");
            assert_eq!(line, 2);
        }
        other => panic!("expected missing endrepeat, got {:?}", other),
    }
}

#[test]
fn nested_repeat_is_rejected_with_a_full_pool() {
    let v = values(&[("a", "1")], &[]);
    match expand_repeat_statement(
        "<{ repeat values }>\n<{ repeat values }>\nx\n<{ endrepeat }>\n<{ endrepeat }>",
        &v,
        "t",
    ) {
        Err(GenError::NestedRepeat { outer_line, inner_line }) => {
            assert_eq!(outer_line, 1);
            assert_eq!(inner_line, 2);
        }
        other => panic!("expected nested repeat, got {:?}", other),
    }
}

#[test]
fn nested_repeat_is_rejected_with_an_empty_pool() {
    let v = values(&[], &[]);
    match expand_repeat_statement(
        "<{ repeat values }>\n<{ repeat values }>\nx\n<{ endrepeat }>\n<{ endrepeat }>",
        &v,
        "t",
    ) {
        Err(GenError::NestedRepeat { .. }) => {}
        other => panic!("expected nested repeat, got {:?}", other),
    }
}

#[test]
fn repeat_body_sees_only_key_and_value() {
    let v = values(&[("a", "1")], &[]);
    match expand_repeat_statement(
        "<{ repeat values }>\n{{other}}\n<{ endrepeat }>",
        &v,
        "t",
    ) {
        Err(GenError::MissingKeys { values_name, keys }) => {
            assert_eq!(values_name, "key,value");
            assert_eq!(keys, vec!["other".to_string()]);
        }
        other => panic!("expected missing keys, got {:?}", other),
    }
}

#[test]
fn render_expands_several_sibling_blocks() {
    let t = template(
        "t",
        "<{ repeat values }>\n{{key}}\n<{ endrepeat }>\nmid {{a}}\n<{ repeat vars }>\n{{value}}\n<{ endrepeat }>",
        &["out"],
        TemplateMode::Replace,
    );
    let v = values(&[("a", "1")], &[("w", "9")]);
    let out = render_template(&t, &v, "dev").unwrap();
    assert_eq!(out, "a\nmid 1\n9");
}

#[test]
fn render_refuses_a_pool_value_that_smuggles_a_marker_in() {
    let t = template(
        "t",
        "<{ repeat values }>\n{{value}}\n<{ endrepeat }>",
        &["out"],
        TemplateMode::Replace,
    );
    let v = values(&[("a", "<{ repeat values }>")], &[]);
    match render_template(&t, &v, "dev") {
        Err(GenError::RepeatMarkerIntroduced { template }) => assert_eq!(template, "t"),
        other => panic!("expected refused marker, got {:?}", other),
    }
}

#[test]
fn clean_excises_the_previous_block() {
    let out = clean_template(Some("X\nSTART\nold\nEND\nY\n"), "START\nnew\nEND", "t").unwrap();
    assert_eq!(out, "X\nY\n");
}

#[test]
fn clean_of_a_missing_destination_is_empty() {
    let out = clean_template(None, "", "t").unwrap();
    assert_eq!(out, "");
}

#[test]
fn clean_demands_content_for_an_existing_destination() {
    match clean_template(Some("x\n"), "", "t") {
        Err(GenError::EmptyTemplate { template }) => assert_eq!(template, "t"),
        other => panic!("expected empty template, got {:?}", other),
    }
}

#[test]
fn clean_demands_two_lines_for_an_existing_destination() {
    match clean_template(Some("x\n"), "only", "t") {
        Err(GenError::SingleLineTemplate { template }) => assert_eq!(template, "t"),
        other => panic!("expected single line, got {:?}", other),
    }
}

#[test]
fn append_replaces_the_prior_block_and_keeps_the_rest() {
    let out = compose_output(
        &TemplateMode::Append,
        "START\nnew\nEND",
        Some("X\nSTART\nold\nEND\nY\n"),
        "t",
    )
    .unwrap();
    assert_eq!(out, "X\nY\nSTART\nnew\nEND");
}

#[test]
fn append_twice_writes_the_same_bytes() {
    let rendered = "START\nnew\nEND";
    let once = compose_output(
        &TemplateMode::Append,
        rendered,
        Some("X\nSTART\nold\nEND\nY\n"),
        "t",
    )
    .unwrap();
    let twice = compose_output(&TemplateMode::Append, rendered, Some(once.as_str()), "t").unwrap();
    assert_eq!(twice, once);
}

#[test]
fn prepend_twice_writes_the_same_bytes() {
    let rendered = "START\nnew\nEND\n";
    let once = compose_output(
        &TemplateMode::Prepend,
        rendered,
        Some("A\nSTART\nold\nEND\nB\n"),
        "t",
    )
    .unwrap();
    let twice =
        compose_output(&TemplateMode::Prepend, rendered, Some(once.as_str()), "t").unwrap();
    assert_eq!(twice, once);
}

#[test]
fn prepend_puts_the_rendered_content_first() {
    let out = compose_output(
        &TemplateMode::Prepend,
        "START\nnew\nEND\n",
        Some("A\nSTART\nold\nEND\nB\n"),
        "t",
    )
    .unwrap();
    assert_eq!(out, "START\nnew\nEND\nA\nB\n");
}

#[test]
fn replace_overwrites_whatever_existed() {
    let out = compose_output(&TemplateMode::Replace, "fresh\n", Some("old stuff\n"), "t").unwrap();
    assert_eq!(out, "fresh\n");
}

#[test]
fn append_to_a_missing_destination_writes_the_rendered_content() {
    let out = compose_output(&TemplateMode::Append, "a\nb", None, "t").unwrap();
    assert_eq!(out, "a\nb");
}
