use texforge::commands::check;
use texforge::commands::clean;
use texforge::commands::fmt::{format_bib, format_one, format_tex, summary};
use texforge::commands::init::{
    chosen_template, detect_bib, detect_entry, migration_report, plan, project_toml, proposed_title,
    template_options, update_notice, FoundFile, InitPlan, BUILT_IN,
};
use texforge::commands::pdf;
use texforge::linter::{LintFinding, Severity};
use texforge::pdftext::{PdfFontInfo, PdfInfo, PdfMetadata};
use texforge::version::SemVer;

fn finding(severity: Severity, message: &str, suggestion: Option<&str>) -> LintFinding {
    LintFinding {
        file: "main.tex".to_string(),
        line: 7,
        severity,
        message: message.to_string(),
        suggestion: suggestion.map(str::to_string),
    }
}

#[test]
fn format_one_no_change_returns_zero() {
    assert!(format_one("/p/test.tex", "/p", "hello\n", "hello\n", false).is_none());
}

#[test]
fn format_one_needs_formatting_returns_one() {
    let change = format_one("/p/test.tex", "/p", "hello  \n", "hello\n", false).unwrap();
    assert_eq!(change.line, "  formatted test.tex\n");
}

#[test]
fn format_one_check_mode_does_not_write() {
    let change = format_one("/p/test.tex", "/p", "hello  \n", "hello\n", true).unwrap();
    assert_eq!(change.content, None);
    assert_eq!(change.line, "  ✗ test.tex\n");
}

#[test]
fn format_one_check_mode_writes_when_not_checking() {
    let change = format_one("/p/test.tex", "/p", "hello  \n", "hello\n", false).unwrap();
    assert_eq!(change.content.as_deref(), Some("hello\n"));
}

#[test]
fn execute_no_files_returns_ok() {
    assert_eq!(summary(0, 0, false), Ok("No .tex or .bib files found\n".to_string()));
}

#[test]
fn formatting_ends_with_a_summary() {
    assert_eq!(summary(3, 1, false), Ok("  ◇ 3 file(s) checked\n".to_string()));
    assert_eq!(summary(3, 0, true), Ok("  ◇ All files formatted correctly\n".to_string()));
    assert_eq!(
        summary(3, 2, true),
        Err("2 file(s) need formatting — run 'texforge fmt'".to_string())
    );
}

#[test]
fn each_kind_of_file_has_its_formatter() {
    let tex = format_tex("/p/a.tex", "/p", "\\begin{a}\nx\n\\end{a}", false).unwrap();
    assert_eq!(tex.content.as_deref(), Some("\\begin{a}\n  x\n\\end{a}\n"));
    assert!(format_tex("/p/a.tex", "/p", &tex.content.unwrap(), false).is_none());
    let bib = format_bib("/p/a.bib", "/p", "@misc{a,title={T}}", false).unwrap();
    assert!(bib.content.unwrap().starts_with("@misc{a,\n"));
}

#[test]
fn errors_come_before_warnings() {
    let findings = vec![
        finding(Severity::Warning, "w", None),
        finding(Severity::Error, "e", Some("fix it")),
    ];
    assert_eq!(
        check::report(&findings),
        "\nERRORS (1)\n  ERROR [main.tex:7]\n    e\n    suggestion: fix it\n\nWARNINGS (1)\n  WARNING [main.tex:7]\n    w\n\n"
    );
    assert_eq!(check::verdict(&findings, false), Err("1 issue(s) found".to_string()));
    assert_eq!(check::verdict(&findings, true), Err("2 issue(s) found".to_string()));
}

#[test]
fn warnings_fail_only_where_they_are_denied() {
    let findings = vec![finding(Severity::Warning, "w", None)];
    assert!(check::verdict(&findings, false).is_ok());
    assert_eq!(check::verdict(&findings, true), Err("1 issue(s) found".to_string()));
    assert_eq!(check::report(&Vec::new()), "  ◇ No issues found\n");
    assert!(check::verdict(&Vec::new(), true).is_ok());
}

#[test]
fn cleaning_reports_what_was_removed() {
    let plan = clean::plan("/p", "My Doc");
    assert_eq!(plan.pdf, "/p/my-doc.pdf");
    assert_eq!(plan.build, "/p/build");
    assert_eq!(
        clean::report("My Doc", true, true),
        "  ◇ my-doc.pdf removed\n  ◇ build/ removed\n"
    );
    assert_eq!(clean::report("My Doc", false, true), "  ◇ build/ removed\n");
    assert_eq!(clean::report("My Doc", false, false), "Nothing to clean.\n");
}

#[test]
fn missing_pdf_is_helpful() {
    let err = pdf::require_pdf("/p", "No Pdf", false).unwrap_err();
    assert!(err.contains("texforge build"));
    assert_eq!(err, "No compiled PDF at /p/no-pdf.pdf — run `texforge build` first");
    assert_eq!(pdf::require_pdf("/p", "No Pdf", true), Ok("/p/no-pdf.pdf".to_string()));
}

#[test]
fn missing_pdf_is_a_helpful_error() {
    let err = pdf::require_pdf("/p", "Preview Doc", false).unwrap_err();
    assert!(err.contains("run `texforge build` first"));
}

#[test]
fn text_normalizes_ligatures_by_default() {
    assert_eq!(pdf::text_report("Arti\u{FB01}cial", false), "Artificial\n");
}

#[test]
fn text_raw_keeps_ligature_codepoints() {
    assert_eq!(pdf::text_report("Arti\u{FB01}cial\n", true), "Arti\u{FB01}cial\n");
}

#[test]
fn info_lists_fonts_and_metadata() {
    let info = PdfInfo {
        pages: 2,
        fonts: vec![PdfFontInfo {
            name: "F".to_string(),
            subtype: "Type1".to_string(),
            embedded: true,
            pages: vec![1],
        }],
        metadata: PdfMetadata { title: Some("T".to_string()), ..PdfMetadata::default() },
    };
    assert_eq!(
        pdf::info_report(&info),
        "pages: 2\nfonts: 1\n  name=F subtype=Type1 embedded=true\nmetadata:\n  title=T\n  author=\n  subject=\n  keywords=\n  creator=\n  producer=\n  creation_date=\n  mod_date=\n"
    );
}

#[test]
fn the_check_of_a_pdf_lists_warnings() {
    assert_eq!(
        pdf::check_report(&Vec::new()),
        "  ◇ PDF check: fidelity, fonts, and metadata look good\n"
    );
    let findings = vec![finding(Severity::Warning, "w", Some("s"))];
    assert_eq!(
        pdf::check_report(&findings),
        "WARNINGS (1)\n  WARNING [main.tex]\n    w\n    suggestion: s\n\n"
    );
}

fn found(path: &str, depth: usize, content: &str) -> FoundFile {
    FoundFile { path: path.to_string(), depth, content: Some(content.to_string()) }
}

#[test]
fn a_document_is_recognised_by_its_class() {
    let files = vec![
        found("/p/notes.tex", 1, "just notes"),
        found("/p/a/b/deep.tex", 3, "\\documentclass{article}"),
        found("/p/src/main.tex", 2, "\\documentclass{article}"),
        found("/p/a/b/refs.bib", 3, ""),
    ];
    assert_eq!(detect_entry("/p", &files), Some("src/main.tex".to_string()));
    assert_eq!(detect_bib("/p", &files), Some("a/b/refs.bib".to_string()));
    assert_eq!(detect_entry("/p", &Vec::new()), None);
    let unreadable =
        vec![FoundFile { path: "/p/x.tex".to_string(), depth: 1, content: None }];
    assert_eq!(detect_entry("/p", &unreadable), None);
}

#[test]
fn a_project_is_never_set_up_twice() {
    assert_eq!(
        plan(true, true),
        Err("project.toml already exists — nothing to do".to_string())
    );
    assert_eq!(plan(false, true), Ok(InitPlan::Migrate));
    assert_eq!(plan(false, false), Ok(InitPlan::CreateNew));
}

#[test]
fn migration_writes_a_configuration() {
    assert_eq!(proposed_title("/home/u/thesis"), "thesis");
    assert_eq!(proposed_title("/"), "document");
    assert_eq!(
        project_toml("T", "A", "main.tex", Some("refs.bib")),
        "[document]\ntitle = \"T\"\nauthor = \"A\"\ntemplate = \"general\"\n\n[build]\nentry = \"main.tex\"\nbibliography = \"refs.bib\"\n"
    );
    assert!(project_toml("T", "A", "main.tex", None).ends_with("# bibliography = \"refs.bib\"\n"));
    assert_eq!(
        migration_report("main.tex", None),
        "\n  ◇ project.toml generated  ✓\n  ◇ entry: main.tex\n\n  Run: texforge build\n\n"
    );
    assert!(migration_report("main.tex", Some("r.bib")).contains("  ◇ bibliography: r.bib\n"));
}

#[test]
fn templates_are_offered_once() {
    let remote = vec!["general".to_string(), "thesis".to_string()];
    let cached = vec!["thesis".to_string(), "gen".to_string(), "cv".to_string()];
    assert_eq!(
        template_options(Some(&remote), Some(&cached)),
        vec![BUILT_IN.to_string(), "thesis".to_string(), "cv".to_string()]
    );
    assert_eq!(template_options(None, None), vec![BUILT_IN.to_string()]);
    assert_eq!(chosen_template(BUILT_IN), "general");
    assert_eq!(chosen_template("thesis"), "thesis");
    assert_eq!(chosen_template("  "), "general");
}

#[test]
fn a_newer_version_is_announced() {
    let local = SemVer::parse("1.0.0").unwrap();
    let latest = SemVer::parse("1.1.0").unwrap();
    assert_eq!(
        update_notice(&local, &latest),
        "\n  ℹ A new version of texforge is available: 1.0.0 → 1.1.0\n"
    );
}
