use std::hash::{Hash, Hasher};

use texforge::diagrams::fonts::{choose_family, fallback_warning, Generic};
use texforge::diagrams::style::{DiagramStyle, VALID_STYLE_NAMES};
use texforge::diagrams::{
    build_figure_environment, cached_filename, collect_tex_files, content_hash, copy_path,
    parse_opts, render_diagrams, render_env, DiagramJob, DiagramOptions, Rendering,
};
use texforge::texutil::SourceFile;

/// A directory of rendered diagrams: the names of its files.
struct Cache {
    files: Vec<String>,
}

impl Cache {
    fn new() -> Cache {
        Cache { files: Vec::new() }
    }

    /// Draw what the library asks for.
    fn serve(
        &mut self,
        ask: impl Fn(&Vec<String>) -> Rendering,
        render: &mut dyn FnMut(&DiagramJob) -> &'static str,
    ) -> Result<String, String> {
        loop {
            match ask(&self.files) {
                Rendering::Done(text) => return Ok(text),
                Rendering::Failed(m) => return Err(m),
                Rendering::Need(job) => {
                    let ending = render(&job);
                    self.files.push(format!("{}.{ending}", job.base));
                }
            }
        }
    }
}

fn rendered(
    cache: &mut Cache,
    content: &str,
    style: DiagramStyle,
    render: &mut dyn FnMut(&DiagramJob) -> &'static str,
) -> Result<String, String> {
    cache.serve(|files| render_env(content, "graphviz", style, files), render)
}

#[test]
fn content_hash_stable_across_calls() {
    let src = "digraph G { A -> B }";
    assert_eq!(
        content_hash(src, DiagramStyle::Default),
        content_hash(src, DiagramStyle::Default)
    );
}

#[test]
fn content_hash_differs_by_style() {
    let src = "digraph G { A -> B }";
    assert_ne!(
        content_hash(src, DiagramStyle::Default),
        content_hash(src, DiagramStyle::Editorial)
    );
}

#[test]
fn parse_opts_no_brackets_returns_empty_map() {
    let (map, rest) = parse_opts("hello");
    assert!(map.is_empty());
    assert_eq!(rest, "hello");
}

#[test]
fn parse_opts_width_and_pos() {
    let (map, _) = parse_opts("[width=0.5\\linewidth, pos=t]");
    assert_eq!(map.get("width").map(String::as_str), Some("0.5\\linewidth"));
    assert_eq!(map.get("pos").map(String::as_str), Some("t"));
}

#[test]
fn parse_opts_caption() {
    let (map, _) = parse_opts("[caption=My diagram]");
    assert_eq!(map.get("caption").map(String::as_str), Some("My diagram"));
}

#[test]
fn parse_opts_label_and_height() {
    let (map, _) = parse_opts("[label=fig:my-diagram, height=5cm]");
    assert_eq!(map.get("label").map(String::as_str), Some("fig:my-diagram"));
    assert_eq!(map.get("height").map(String::as_str), Some("5cm"));
}

#[test]
fn parse_opts_style_alongside_others_any_order() {
    let (map, _) = parse_opts("[pos=t, style=editorial, width=0.5\\linewidth]");
    assert_eq!(map.get("style").map(String::as_str), Some("editorial"));
    assert_eq!(map.get("pos").map(String::as_str), Some("t"));
    assert_eq!(map.get("width").map(String::as_str), Some("0.5\\linewidth"));

    let (map, _) = parse_opts("[style=mono, caption=A diagram]");
    assert_eq!(map.get("style").map(String::as_str), Some("mono"));
    assert_eq!(map.get("caption").map(String::as_str), Some("A diagram"));
}

#[test]
fn build_figure_with_label() {
    let mut opts = DiagramOptions::new();
    opts.insert("caption".to_string(), "Test".to_string());
    opts.insert("label".to_string(), "fig:test".to_string());
    let fig = build_figure_environment(&opts, "d1.png");
    assert!(fig.contains("\\label{fig:test}"));
    assert!(fig.contains("\\caption{Test}"));
    assert!(fig.contains("\\begin{figure}"));
}

#[test]
fn build_figure_with_height() {
    let mut opts = DiagramOptions::new();
    opts.insert("height".to_string(), "5cm".to_string());
    let fig = build_figure_environment(&opts, "d1.png");
    assert!(fig.contains("height=5cm"));
}

#[test]
fn build_figure_with_width_and_height() {
    let mut opts = DiagramOptions::new();
    opts.insert("width".to_string(), "0.5\\linewidth".to_string());
    opts.insert("height".to_string(), "4cm".to_string());
    let fig = build_figure_environment(&opts, "d1.png");
    assert!(fig.contains("width=0.5\\linewidth"));
    assert!(fig.contains("height=4cm"));
}

#[test]
fn build_figure_with_scale() {
    let mut opts = DiagramOptions::new();
    opts.insert("scale".to_string(), "0.8".to_string());
    let fig = build_figure_environment(&opts, "d1.png");
    assert!(fig.contains("scale=0.8"));
    assert!(!fig.contains("width="));
}

#[test]
fn build_figure_with_keepaspectratio() {
    let mut opts = DiagramOptions::new();
    opts.insert("width".to_string(), "10cm".to_string());
    opts.insert("height".to_string(), "8cm".to_string());
    opts.insert("keepaspectratio".to_string(), "true".to_string());
    let fig = build_figure_environment(&opts, "d1.png");
    assert!(fig.contains("keepaspectratio"));
}

#[test]
fn build_figure_default_no_pos() {
    let opts = DiagramOptions::new();
    let fig = build_figure_environment(&opts, "d1.png");
    assert!(fig.contains("\\begin{figure}\n"));
    assert!(!fig.contains("[H]"));
}

#[test]
fn build_figure_default_uses_linewidth() {
    let opts = DiagramOptions::new();
    let fig = build_figure_environment(&opts, "d1.png");
    assert!(fig.contains("\\includegraphics[width=\\linewidth]"));
}

#[test]
fn build_figure_with_pos_t() {
    let mut opts = DiagramOptions::new();
    opts.insert("pos".to_string(), "t".to_string());
    let fig = build_figure_environment(&opts, "d1.png");
    assert!(fig.contains("\\begin{figure}[t]"));
}

#[test]
fn render_mermaid_to_pdf_via_pipeline() {
    let content = "\\begin{mermaid}\nflowchart LR\n  A --> B\n\\end{mermaid}";
    let out = Cache::new()
        .serve(|e| render_diagrams(content, DiagramStyle::Default, e), &mut |_| "pdf")
        .unwrap();
    assert!(out.contains(".pdf"));
}

#[test]
fn render_graphviz_to_pdf_via_pipeline() {
    let content = "\\begin{graphviz}\ndigraph G { A -> B }\n\\end{graphviz}";
    let out = Cache::new()
        .serve(|e| render_diagrams(content, DiagramStyle::Default, e), &mut |_| "pdf")
        .unwrap();
    assert!(out.contains(".pdf"));
}

#[test]
fn render_d2_to_pdf_via_pipeline() {
    let content = "\\begin{d2}[caption=Flow]\nx -> y: go\n\\end{d2}";
    let mut cache = Cache::new();
    let out = cache
        .serve(|e| render_diagrams(content, DiagramStyle::Default, e), &mut |_| "pdf")
        .unwrap();
    assert!(out.contains("\\includegraphics"));
    assert!(out.contains(".pdf"));
    assert!(out.contains("\\caption{Flow}"));
    assert_eq!(cache.files.len(), 1);
    assert!(cache.files[0].ends_with(".pdf"));
}

#[test]
fn render_diagrams_with_editorial_style_attribute_succeeds() {
    let content = "\\begin{mermaid}[style=editorial]\nflowchart LR\n  A --> B\n\\end{mermaid}";
    let out = Cache::new()
        .serve(
            |e| render_diagrams(content, DiagramStyle::Default, e),
            &mut |job| {
                assert_eq!(job.style, DiagramStyle::Editorial);
                assert_eq!(job.env, "mermaid");
                "pdf"
            },
        )
        .unwrap();
    assert!(out.contains(".pdf"));
}

#[test]
fn render_diagrams_unknown_style_attribute_fails_build() {
    let content = "\\begin{mermaid}[style=editoral]\nflowchart LR\n  A --> B\n\\end{mermaid}";
    let msg = Cache::new()
        .serve(|e| render_diagrams(content, DiagramStyle::Default, e), &mut |_| "pdf")
        .unwrap_err();
    assert!(msg.contains("editoral"), "message: {msg}");
}

#[test]
fn render_env_build_succeeds_when_pdf_conversion_fails() {
    let content = "\\begin{graphviz}\ndigraph G { A -> B }\n\\end{graphviz}";
    let mut cache = Cache::new();
    let out = rendered(&mut cache, content, DiagramStyle::Default, &mut |_| "png").unwrap();
    assert!(out.contains(".png"));
    assert!(cache.files[0].ends_with(".png"));
}

#[test]
fn render_env_no_blocks_unchanged() {
    let content = "hello world";
    let mut cache = Cache::new();
    let result = rendered(&mut cache, content, DiagramStyle::Default, &mut |_| "pdf").unwrap();
    assert_eq!(result, content);
    assert_eq!(cache.files.len(), 0);
}

#[test]
fn render_env_invalid_pos_returns_error() {
    let content = "\\begin{graphviz}[pos=Z]\ndigraph G{}\n\\end{graphviz}";
    let err = rendered(&mut Cache::new(), content, DiagramStyle::Default, &mut |_| "pdf")
        .unwrap_err();
    assert!(err.contains("pos='Z'"));
}

#[test]
fn render_env_invalid_style_returns_error_listing_valid_names() {
    let content = "\\begin{graphviz}[style=editoral]\ndigraph G{}\n\\end{graphviz}";
    let msg = rendered(&mut Cache::new(), content, DiagramStyle::Default, &mut |_| "pdf")
        .unwrap_err();
    assert!(msg.contains("style='editoral'"), "message: {msg}");
    for name in VALID_STYLE_NAMES.split(", ") {
        assert!(msg.contains(name), "message missing '{name}': {msg}");
    }
}

#[test]
fn render_env_reuses_cached_diagram() {
    let content = "\\begin{graphviz}\ndigraph G{ A -> B }\n\\end{graphviz}";
    let mut cache = Cache::new();
    let mut calls = 0;
    // rendered twice with the same cache: the second pass must find it
    for _ in 0..2 {
        rendered(&mut cache, content, DiagramStyle::Default, &mut |_| {
            calls += 1;
            "pdf"
        })
        .unwrap();
    }
    assert_eq!(calls, 1);
    assert_eq!(cache.files.len(), 1);
}

#[test]
fn render_env_falls_back_to_png_extension() {
    let content = "\\begin{graphviz}\ndigraph G{ A -> B }\n\\end{graphviz}";
    let mut cache = Cache::new();
    let out = rendered(&mut cache, content, DiagramStyle::Default, &mut |_| "png").unwrap();
    assert!(out.contains(".png"));
    assert!(cache.files[0].ends_with(".png"));
}

#[test]
fn render_env_reuses_cached_png_without_recomputing() {
    let content = "\\begin{graphviz}\ndigraph G{ A -> B }\n\\end{graphviz}";
    let mut cache = Cache::new();
    rendered(&mut cache, content, DiagramStyle::Default, &mut |_| "png").unwrap();

    let mut calls = 0;
    rendered(&mut cache, content, DiagramStyle::Default, &mut |_| {
        calls += 1;
        "pdf"
    })
    .unwrap();
    assert_eq!(calls, 0, "cached .png should be reused, not re-rendered");
}

#[test]
fn render_env_omitted_style_matches_explicit_default_style() {
    let mut cache = Cache::new();
    let content_omitted = "\\begin{graphviz}\ndigraph G{ A -> B }\n\\end{graphviz}";
    let content_explicit =
        "\\begin{graphviz}[style=default]\ndigraph G{ A -> B }\n\\end{graphviz}";
    for content in [content_omitted, content_explicit] {
        rendered(&mut cache, content, DiagramStyle::Default, &mut |job| {
            assert_eq!(job.style, DiagramStyle::Default);
            "pdf"
        })
        .unwrap();
    }
    assert_eq!(
        cache.files.len(),
        1,
        "omitted style= and explicit style=default must share one cache entry"
    );
}

#[test]
fn render_env_project_default_style_used_when_attribute_absent() {
    let content = "\\begin{graphviz}\ndigraph G{ A -> B }\n\\end{graphviz}";
    rendered(&mut Cache::new(), content, DiagramStyle::Editorial, &mut |job| {
        assert_eq!(job.style, DiagramStyle::Editorial);
        "pdf"
    })
    .unwrap();
}

#[test]
fn render_env_attribute_style_overrides_project_default() {
    let content = "\\begin{graphviz}[style=monochrome]\ndigraph G{ A -> B }\n\\end{graphviz}";
    rendered(&mut Cache::new(), content, DiagramStyle::Editorial, &mut |job| {
        assert_eq!(job.style, DiagramStyle::Monochrome);
        "pdf"
    })
    .unwrap();
}

#[test]
fn render_env_different_styles_produce_distinct_cache_entries() {
    let mut cache = Cache::new();
    let content_default = "\\begin{graphviz}\ndigraph G{ A -> B }\n\\end{graphviz}";
    let content_editorial =
        "\\begin{graphviz}[style=editorial]\ndigraph G{ A -> B }\n\\end{graphviz}";
    for content in [content_default, content_editorial] {
        rendered(&mut cache, content, DiagramStyle::Default, &mut |_| "pdf").unwrap();
    }
    assert_eq!(
        cache.files.len(),
        2,
        "different styles must produce distinct cached artefacts"
    );
}

#[test]
fn the_hash_is_that_of_the_standard_hasher() {
    let mut h = std::collections::hash_map::DefaultHasher::new();
    "digraph G { A -> B }".hash(&mut h);
    h.write(&[0]);
    assert_eq!(content_hash("digraph G { A -> B }", DiagramStyle::Default), h.finish());
}

#[test]
fn what_stands_around_a_diagram_stays() {
    let content = "before\n\\begin{graphviz}\nx\n\\end{graphviz}\nafter";
    let out = rendered(&mut Cache::new(), content, DiagramStyle::Default, &mut |_| "pdf").unwrap();
    assert!(out.starts_with("before\n\\begin{figure}"));
    assert!(out.ends_with("\\end{figure}\nafter"));
}

#[test]
fn all_kinds_of_diagrams_are_rendered_in_order() {
    let content = "\\begin{d2}\na\n\\end{d2}\n\\begin{graphviz}\nb\n\\end{graphviz}\n\\begin{mermaid}\nc\n\\end{mermaid}";
    let mut envs: Vec<String> = Vec::new();
    let out = Cache::new()
        .serve(
            |e| render_diagrams(content, DiagramStyle::Default, e),
            &mut |job| {
                envs.push(format!("{}:{}", job.env, job.source.trim()));
                "pdf"
            },
        )
        .unwrap();
    assert_eq!(envs, vec!["mermaid:c", "graphviz:b", "d2:a"]);
    assert_eq!(out.matches("\\includegraphics").count(), 3);
}

#[test]
fn sources_are_collected_through_inputs() {
    let file = |path: &str, content: &str| SourceFile {
        path: path.to_string(),
        content: Some(content.to_string()),
    };
    let tree = vec![
        file("/p/main.tex", "\\input{a} \\input{ b }"),
        file("/p/a.tex", "\\input{main}"),
        file("/p/b.tex", ""),
    ];
    assert_eq!(
        collect_tex_files("/p", "main.tex", &tree),
        vec!["/p/main.tex", "/p/a.tex", "/p/b.tex"]
    );
    assert_eq!(copy_path("/p", "/p/ch/a.tex", "/b"), "/b/ch/a.tex");
}

#[test]
fn families_fall_back_in_order() {
    let fonts = vec!["Zapfino".to_string(), "Noto Sans".to_string(), "DejaVu Sans".to_string()];
    assert_eq!(choose_family(Generic::SansSerif, &fonts), Some("DejaVu Sans".to_string()));
    assert_eq!(choose_family(Generic::Serif, &fonts), None);
    assert_eq!(choose_family(Generic::Monospace, &fonts), None);
    let few = vec!["Zapfino".to_string()];
    assert_eq!(choose_family(Generic::SansSerif, &few), Some("Zapfino".to_string()));
    assert_eq!(choose_family(Generic::SansSerif, &Vec::new()), None);
}

#[test]
fn the_fallback_names_the_diagram() {
    assert_eq!(
        fallback_warning("d2", "too deep"),
        "warning: d2 diagram: SVG to PDF conversion failed (too deep), falling back to PNG\n"
    );
}

#[test]
fn the_vector_form_is_taken_first() {
    let files = |names: &[&str]| -> Vec<String> { names.iter().map(|n| n.to_string()).collect() };
    let cached = |names: &[&str]| cached_filename(&files(names), "d2-1");
    assert_eq!(cached(&["d2-1.png", "d2-1.pdf"]).as_deref(), Some("d2-1.pdf"));
    assert_eq!(cached(&["d2-1.png", "d2-2.pdf"]).as_deref(), Some("d2-1.png"));
    assert_eq!(cached(&["d2-1", "d2-1.svg"]), None);
}

#[test]
fn files_that_come_later_ask_for_nothing() {
    let content = "\\begin{graphviz}\na\n\\end{graphviz}\n\\begin{graphviz}\nb\n\\end{graphviz}";
    let mut cache = Cache::new();
    let once = rendered(&mut cache, content, DiagramStyle::Default, &mut |_| "png").unwrap();
    cache.files.insert(0, "other.pdf".to_string());
    cache.files.reverse();
    match render_env(content, "graphviz", DiagramStyle::Default, &cache.files) {
        Rendering::Done(text) => assert_eq!(text, once),
        other => panic!("{other:?}"),
    }
}
