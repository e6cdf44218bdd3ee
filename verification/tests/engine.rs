use texforge::linter::engine::lint_files;
use texforge::linter::{lint as lint_all, LintError, LintFinding, Severity, SpellSetup};
use texforge::linter::spell::DictionaryAnswer;
use texforge::texutil::SourceFile;
use texforge::wordset::WordSet;

/// A project as the library sees it: every file with its content.
struct Project {
    tree: Vec<SourceFile>,
}

impl Project {
    fn new(files: &[(&str, &str)]) -> Project {
        let mut p = Project { tree: Vec::new() };
        for (name, content) in files {
            p.write(name, content);
        }
        p
    }

    fn write(&mut self, name: &str, content: &str) {
        self.tree.push(SourceFile {
            path: format!("/p/{name}"),
            content: Some(content.to_string()),
        });
    }
}

fn lint_project(
    project: &Project,
    entry: &str,
    bib: Option<&str>,
) -> Result<Vec<LintFinding>, LintError> {
    let setup = SpellSetup {
        harness: true,
        default_lang: None,
        answer: DictionaryAnswer::Unavailable { expected: None, reason: String::new() },
        whitelist: WordSet::new(),
    };
    lint_all("/p", entry, bib, &project.tree, &setup).map(|report| report.findings)
}

fn lint(source: &str) -> Vec<LintFinding> {
    lint_files(&vec![("main.tex".to_string(), source.to_string())])
}

fn has_severity_with(findings: &[LintFinding], fragment: &str, sev: Severity) -> bool {
    findings
        .iter()
        .any(|f| f.severity == sev && f.message.contains(fragment))
}

// --- the four constructs, severity + consequence naming ---

#[test]
fn inputenc_is_a_warning_naming_the_consequence() {
    let findings = lint(
        r"\documentclass{article}
\usepackage[utf8]{inputenc}
\begin{document}
\end{document}",
    );
    assert!(has_severity_with(
        &findings,
        "does nothing",
        Severity::Warning
    ));
    assert!(has_severity_with(&findings, "XeTeX", Severity::Warning));
}

#[test]
fn epstopdf_is_a_warning_naming_the_consequence() {
    let findings = lint(
        r"\documentclass{article}
\usepackage{epstopdf}
\begin{document}
\end{document}",
    );
    assert!(has_severity_with(&findings, ".eps", Severity::Warning));
    assert!(has_severity_with(&findings, "XeTeX", Severity::Warning));
}

#[test]
fn disable_ligatures_with_microtype_is_an_error_naming_the_consequence() {
    let findings = lint(
        r"\documentclass{article}
\usepackage{microtype}
\DisableLigatures
\begin{document}
\end{document}",
    );
    assert!(has_severity_with(
        &findings,
        "breaks the build",
        Severity::Error
    ));
    assert!(has_severity_with(&findings, "XeTeX", Severity::Error));
}

#[test]
fn latin_modern_roman_setmainfont_with_fontspec_is_an_error_naming_the_consequence() {
    let findings = lint(
        r"\documentclass{article}
\usepackage{fontspec}
\setmainfont{Latin Modern Roman}
\begin{document}
\end{document}",
    );
    assert!(has_severity_with(
        &findings,
        "breaks the build",
        Severity::Error
    ));
    assert!(has_severity_with(
        &findings,
        "cannot be found",
        Severity::Error
    ));
}

// --- no false positives ---

#[test]
fn microtype_without_disable_ligatures_is_clean() {
    let findings = lint(
        r"\documentclass{article}
\usepackage{microtype}
\begin{document}
\end{document}",
    );
    assert!(!has_severity_with(&findings, "ligature", Severity::Error));
}

#[test]
fn disable_ligatures_without_microtype_is_clean() {
    let findings = lint(
        r"\documentclass{article}
\DisableLigatures
\begin{document}
\end{document}",
    );
    assert!(!has_severity_with(&findings, "ligature", Severity::Error));
}

#[test]
fn setmainfont_of_another_font_is_clean() {
    let findings = lint(
        r"\documentclass{article}
\usepackage{fontspec}
\setmainfont{TeX Gyre Termes}
\begin{document}
\end{document}",
    );
    assert!(!has_severity_with(
        &findings,
        "cannot be found",
        Severity::Error
    ));
}

#[test]
fn setmainfont_without_fontspec_is_clean() {
    let findings = lint(
        r"\documentclass{article}
\setmainfont{Latin Modern Roman}
\begin{document}
\end{document}",
    );
    assert!(!has_severity_with(
        &findings,
        "cannot be found",
        Severity::Error
    ));
}

#[test]
fn a_clean_document_has_no_engine_findings() {
    let findings = lint(
        r"\documentclass{article}
\begin{document}
Hello
\end{document}",
    );
    assert!(findings.is_empty());
}

#[test]
fn constructs_after_begin_document_are_not_reported() {
    let findings = lint(
        r"\documentclass{article}
\begin{document}
\usepackage[utf8]{inputenc}
\setmainfont{Latin Modern Roman}
\end{document}",
    );
    assert!(findings.is_empty());
}

#[test]
fn constructs_in_comments_are_not_reported() {
    let findings = lint(
        r"\documentclass{article}
% \usepackage[utf8]{inputenc}
% \usepackage{epstopdf}
\begin{document}
\end{document}",
    );
    assert!(findings.is_empty());
}

#[test]
fn compound_rule_reports_the_command_location() {
    let findings = lint(
        "\\documentclass{article}\n\\usepackage{microtype}\n\\DisableLigatures\n\\begin{document}",
    );
    let finding = findings
        .iter()
        .find(|f| f.severity == Severity::Error && f.message.contains("DisableLigatures"))
        .unwrap();
    assert_eq!(finding.line, 3);
    assert_eq!(finding.file, "main.tex");
}

// --- wiring through \input traversal ---

#[test]
fn packages_loaded_from_input_files_are_seen() {
    let mut dir = Project::new(&[]);
    dir.write("main.tex", "\\documentclass{article}\n\\input{preamble}\n\\begin{document}\n\\end{document}");
    dir.write("preamble.tex", "\\usepackage[utf8]{inputenc}\n\\usepackage{epstopdf}");
    let findings = lint_project(&dir, "main.tex", None).unwrap();
    assert!(has_severity_with(
        &findings,
        "does nothing",
        Severity::Warning
    ));
    assert!(has_severity_with(&findings, ".eps", Severity::Warning));
}

#[test]
fn compound_rule_fires_across_input_files() {
    let mut dir = Project::new(&[]);
    dir.write("main.tex", "\\documentclass{article}\n\\usepackage{fontspec}\n\\input{preamble}\n\\begin{document}\n\\end{document}");
    dir.write("preamble.tex", "\\setmainfont{Latin Modern Roman}");
    let findings = lint_project(&dir, "main.tex", None).unwrap();
    assert!(has_severity_with(
        &findings,
        "cannot be found",
        Severity::Error
    ));
}
