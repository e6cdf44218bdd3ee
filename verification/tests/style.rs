use texforge::diagrams::style::{
    d2_prefix, d2_source, graphviz_inject, mermaid_options, DiagramStyle, VALID_STYLE_NAMES,
};

#[test]
fn parse_all_four_names() {
    assert_eq!(
        DiagramStyle::parse("default").unwrap(),
        DiagramStyle::Default
    );
    assert_eq!(
        DiagramStyle::parse("editorial").unwrap(),
        DiagramStyle::Editorial
    );
    assert_eq!(
        DiagramStyle::parse("monochrome").unwrap(),
        DiagramStyle::Monochrome
    );
    assert_eq!(
        DiagramStyle::parse("technical").unwrap(),
        DiagramStyle::Technical
    );
}

#[test]
fn parse_unknown_name_lists_valid_names() {
    let err = DiagramStyle::parse("editoral").unwrap_err();
    let msg = err.to_string();
    assert!(msg.contains("editoral"), "message: {msg}");
    for name in VALID_STYLE_NAMES.split(", ") {
        assert!(msg.contains(name), "message missing '{name}': {msg}");
    }
}

#[test]
fn parse_rejects_old_mono_name() {
    let err = DiagramStyle::parse("mono").unwrap_err();
    let msg = err.to_string();
    assert!(msg.contains("monochrome"), "message: {msg}");
}

#[test]
fn parse_rejects_blueprint_name() {
    assert!(DiagramStyle::parse("blueprint").is_err());
}

#[test]
fn mermaid_default_style_is_untouched_default_options() {
    // No options: the renderer's own defaults are left alone.
    assert!(mermaid_options(DiagramStyle::Default).is_none());
}

#[test]
fn mermaid_monochrome_style_has_no_accent() {
    let opts = mermaid_options(DiagramStyle::Monochrome).unwrap();
    // No accent color: border and line colors fall back to the neutral.
    assert_eq!(opts.theme.primary_border_color, opts.theme.line_color);
}

#[test]
fn d2_default_style_has_no_prefix() {
    assert_eq!(d2_prefix(DiagramStyle::Default), "");
}

#[test]
fn d2_editorial_style_prefix_contains_theme_overrides() {
    let prefix = d2_prefix(DiagramStyle::Editorial);
    assert!(prefix.contains("theme-overrides"));
    let accent = DiagramStyle::Editorial.palette().unwrap().accent.unwrap();
    assert!(prefix.contains(accent));
}

#[test]
fn graphviz_default_style_leaves_source_untouched() {
    let src = "digraph G { A -> B }";
    assert_eq!(graphviz_inject(src, DiagramStyle::Default), src);
}

#[test]
fn graphviz_styled_source_injects_after_opening_brace() {
    let src = "digraph G { A -> B }";
    let injected = graphviz_inject(src, DiagramStyle::Editorial);
    assert!(injected.contains("node [style=filled"));
    assert!(injected.contains("edge [color="));
    assert!(injected.trim_end().ends_with("}"));
}

#[test]
fn d2_source_is_kept_behind_its_prefix() {
    let src = "a -> b";
    assert_eq!(d2_source(src, DiagramStyle::Default), src);
    let styled = d2_source(src, DiagramStyle::Technical);
    assert_eq!(styled, format!("{}{src}", d2_prefix(DiagramStyle::Technical)));
}

#[test]
fn graphviz_source_without_a_brace_is_left_alone() {
    assert_eq!(graphviz_inject("not a graph", DiagramStyle::Editorial), "not a graph");
}

#[test]
fn monochrome_palette_is_grey() {
    let p = DiagramStyle::Monochrome.palette().unwrap();
    assert!(p.accent.is_none());
    for colour in [p.background, p.foreground, p.neutral, p.neutral_light] {
        let hex = colour.trim_start_matches('#');
        assert_eq!(hex[0..2], hex[2..4], "{colour}");
        assert_eq!(hex[2..4], hex[4..6], "{colour}");
    }
}
