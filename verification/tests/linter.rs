use texforge::linter::{lint, LintError, LintFinding, Severity, SpellSetup};
use texforge::linter::spell::DictionaryAnswer;
use texforge::texutil::SourceFile;
use texforge::wordset::WordSet;

/// A project as the library sees it: every file with its content.
struct Project {
    tree: Vec<SourceFile>,
}

impl Project {
    fn new(files: &[(&str, &str)]) -> Project {
        let mut p = Project { tree: Vec::new() };
        for (name, content) in files {
            p.write(name, content);
        }
        p
    }

    fn write(&mut self, name: &str, content: &str) {
        self.tree.push(SourceFile {
            path: format!("/p/{name}"),
            content: Some(content.to_string()),
        });
    }
}

fn lint_project(
    project: &Project,
    entry: &str,
    bib: Option<&str>,
) -> Result<Vec<LintFinding>, LintError> {
    let setup = SpellSetup {
        harness: true,
        default_lang: None,
        answer: DictionaryAnswer::Unavailable { expected: None, reason: String::new() },
        whitelist: WordSet::new(),
    };
    lint("/p", entry, bib, &project.tree, &setup).map(|report| report.findings)
}

fn setup(tex: &str) -> (Project, String) {
    (Project::new(&[("main.tex", tex)]), "main.tex".to_string())
}

fn has_error(errors: &[LintFinding], fragment: &str) -> bool {
    errors.iter().any(|e| e.message.contains(fragment))
}

fn has_finding_with_severity(errors: &[LintFinding], fragment: &str, sev: Severity) -> bool {
    errors
        .iter()
        .any(|e| e.message.contains(fragment) && e.severity == sev)
}

#[test]
fn includegraphics_missing_file_is_error() {
    let (dir, entry) = setup("\\includegraphics{missing.png}");
    let errors = lint_project(&dir, &entry, None).unwrap();
    assert!(has_error(&errors, "missing.png"));
}

#[test]
fn includegraphics_existing_file_no_error() {
    let (mut dir, entry) = setup("\\includegraphics{img.png}");
    dir.write("img.png", "");
    let errors = lint_project(&dir, &entry, None).unwrap();
    assert!(!has_error(&errors, "img.png"));
}

#[test]
fn cite_missing_key_is_error() {
    let (mut dir, entry) = setup("\\cite{ghost2020}");
    dir.write("refs.bib", "@article{real2020,}");
    let errors = lint_project(&dir, &entry, Some("refs.bib")).unwrap();
    assert!(has_error(&errors, "ghost2020"));
}

#[test]
fn cite_valid_key_no_error() {
    let (mut dir, entry) = setup("\\cite{real2020}");
    dir.write("refs.bib", "@article{real2020,}");
    let errors = lint_project(&dir, &entry, Some("refs.bib")).unwrap();
    assert!(!has_error(&errors, "real2020"));
}

#[test]
fn begin_without_end_is_error() {
    let (dir, entry) = setup("\\begin{figure}");
    let errors = lint_project(&dir, &entry, None).unwrap();
    assert!(has_error(&errors, "never closed"));
}

#[test]
fn ref_without_label_is_error() {
    let (dir, entry) = setup("\\ref{fig:missing}");
    let errors = lint_project(&dir, &entry, None).unwrap();
    assert!(has_error(&errors, "fig:missing"));
}

#[test]
fn mermaid_invalid_pos_is_error() {
    let (dir, entry) = setup("\\begin{mermaid}[pos=x]\n\\end{mermaid}");
    let errors = lint_project(&dir, &entry, None).unwrap();
    assert!(has_error(&errors, "invalid pos"));
}

#[test]
fn mermaid_without_end_is_error() {
    let (dir, entry) = setup("\\begin{mermaid}");
    let errors = lint_project(&dir, &entry, None).unwrap();
    assert!(has_error(&errors, "without matching \\end{mermaid}"));
}

#[test]
fn lstinputlisting_missing_file_is_error() {
    let (dir, entry) = setup("\\lstinputlisting{code.py}");
    let errors = lint_project(&dir, &entry, None).unwrap();
    assert!(has_error(&errors, "code.py"));
}

#[test]
fn inputminted_missing_file_is_error() {
    let (dir, entry) = setup("\\inputminted{python}{code.py}");
    let errors = lint_project(&dir, &entry, None).unwrap();
    assert!(has_error(&errors, "code.py"));
}

#[test]
fn graphviz_invalid_pos_is_error() {
    let (dir, entry) = setup("\\begin{graphviz}[pos=Z]\n\\end{graphviz}");
    let errors = lint_project(&dir, &entry, None).unwrap();
    assert!(has_error(&errors, "invalid pos"));
}

#[test]
fn graphviz_without_end_is_error() {
    let (dir, entry) = setup("\\begin{graphviz}");
    let errors = lint_project(&dir, &entry, None).unwrap();
    assert!(has_error(&errors, "without matching \\end{graphviz}"));
}

#[test]
fn d2_invalid_pos_is_error() {
    let (dir, entry) = setup("\\begin{d2}[pos=Z]\n\\end{d2}");
    let errors = lint_project(&dir, &entry, None).unwrap();
    assert!(has_error(&errors, "invalid pos"));
}

#[test]
fn d2_without_end_is_error() {
    let (dir, entry) = setup("\\begin{d2}");
    let errors = lint_project(&dir, &entry, None).unwrap();
    assert!(has_error(&errors, "without matching \\end{d2}"));
}

#[test]
fn entry_not_exists_is_error() {
    let dir = Project::new(&[]);
    let errors = lint_project(&dir, "nonexistent.tex", None).unwrap();
    assert!(has_error(&errors, "does not exist"));
}

#[test]
fn input_missing_file_is_error() {
    let (dir, entry) = setup("\\input{missing}");
    let errors = lint_project(&dir, &entry, None).unwrap();
    assert!(has_error(&errors, "missing"));
}

#[test]
fn input_existing_file_no_error() {
    let (mut dir, entry) = setup("\\input{chapter1}");
    dir.write("chapter1.tex", "");
    let errors = lint_project(&dir, &entry, None).unwrap();
    assert!(!has_error(&errors, "chapter1"));
}

#[test]
fn begin_end_matched_no_error() {
    let (dir, entry) = setup("\\begin{figure}\n\\end{figure}");
    let errors = lint_project(&dir, &entry, None).unwrap();
    assert!(!has_error(&errors, "never closed"));
}

#[test]
fn end_without_begin_is_error() {
    let (dir, entry) = setup("\\end{figure}");
    let errors = lint_project(&dir, &entry, None).unwrap();
    assert!(has_error(&errors, "without matching \\begin"));
}

#[test]
fn mismatched_end_is_error() {
    let (dir, entry) = setup("\\begin{figure}\n\\end{table}");
    let errors = lint_project(&dir, &entry, None).unwrap();
    assert!(has_error(&errors, "does not match"));
}

#[test]
fn comment_not_linted() {
    let (dir, entry) = setup("% \\includegraphics{missing.png}");
    let errors = lint_project(&dir, &entry, None).unwrap();
    assert!(!has_error(&errors, "missing.png"));
}

#[test]
fn cite_no_bib_file_no_error() {
    let (dir, entry) = setup("\\cite{anything}");
    let errors = lint_project(&dir, &entry, None).unwrap();
    assert!(!has_error(&errors, "anything"));
}

#[test]
fn mermaid_valid_pos_no_error() {
    let (dir, entry) = setup("\\begin{mermaid}[pos=H]\n\\end{mermaid}");
    let errors = lint_project(&dir, &entry, None).unwrap();
    assert!(!has_error(&errors, "invalid pos"));
}

#[test]
fn graphviz_valid_pos_no_error() {
    let (dir, entry) = setup("\\begin{graphviz}[pos=t]\n\\end{graphviz}");
    let errors = lint_project(&dir, &entry, None).unwrap();
    assert!(!has_error(&errors, "invalid pos"));
}

#[test]
fn d2_valid_pos_no_error() {
    let (dir, entry) = setup("\\begin{d2}[pos=b]\n\\end{d2}");
    let errors = lint_project(&dir, &entry, None).unwrap();
    assert!(!has_error(&errors, "invalid pos"));
}

#[test]
fn lstinputlisting_existing_file_no_error() {
    let (mut dir, entry) = setup("\\lstinputlisting{code.py}");
    dir.write("code.py", "");
    let errors = lint_project(&dir, &entry, None).unwrap();
    assert!(!has_error(&errors, "code.py"));
}

#[test]
fn inputminted_existing_file_no_error() {
    let (mut dir, entry) = setup("\\inputminted{python}{code.py}");
    dir.write("code.py", "");
    let errors = lint_project(&dir, &entry, None).unwrap();
    assert!(!has_error(&errors, "code.py"));
}

#[test]
fn ref_with_matching_label_no_error() {
    let (dir, entry) = setup("\\label{fig:test}\n\\ref{fig:test}");
    let errors = lint_project(&dir, &entry, None).unwrap();
    assert!(!has_error(&errors, "fig:test"));
}

#[test]
fn includegraphics_with_options() {
    let (mut dir, entry) = setup("\\includegraphics[width=0.5\\textwidth]{img.png}");
    dir.write("img.png", "");
    let errors = lint_project(&dir, &entry, None).unwrap();
    assert!(!has_error(&errors, "img.png"));
}

#[test]
fn cite_multiple_keys() {
    let (mut dir, entry) = setup("\\cite{key1,key2}");
    dir.write("refs.bib", "@article{key1,}\n@article{key2,}");
    let errors = lint_project(&dir, &entry, Some("refs.bib")).unwrap();
    assert!(!has_error(&errors, "key1"));
    assert!(!has_error(&errors, "key2"));
}

#[test]
fn mixed_errors_and_valid() {
    let tex = "\\cite{missing}\n\\includegraphics{img.png}";
    let (mut dir, entry) = setup(tex);
    dir.write("img.png", "");
    dir.write("refs.bib", "");
    let errors = lint_project(&dir, &entry, Some("refs.bib")).unwrap();
    assert!(has_error(&errors, "missing"));
    assert!(!has_error(&errors, "img.png"));
}

#[test]
fn nested_begin_end() {
    let (dir, entry) =
        setup("\\begin{document}\n\\begin{figure}\n\\end{figure}\n\\end{document}");
    let errors = lint_project(&dir, &entry, None).unwrap();
    assert!(errors.is_empty());
}

#[test]
fn unclosed_inner_environment() {
    let (dir, entry) = setup("\\begin{document}\n\\begin{figure}\n\\end{document}");
    let errors = lint_project(&dir, &entry, None).unwrap();
    assert!(has_error(&errors, "never closed"));
}

#[test]
fn input_with_tex_extension() {
    let (mut dir, entry) = setup("\\input{chapter1.tex}");
    dir.write("chapter1.tex", "");
    let errors = lint_project(&dir, &entry, None).unwrap();
    assert!(!has_error(&errors, "chapter1"));
}

#[test]
fn empty_project_no_errors() {
    let (dir, entry) =
        setup("\\documentclass{article}\n\\begin{document}\nHello\n\\end{document}");
    let errors = lint_project(&dir, &entry, None).unwrap();
    assert!(errors.is_empty());
}

// --- Severity tests ---

/// All current rules produce Error-severity findings.
#[test]
fn existing_findings_have_error_severity() {
    let (dir, entry) = setup("\\includegraphics{missing.png}");
    let findings = lint_project(&dir, &entry, None).unwrap();
    assert!(!findings.is_empty());
    assert!(has_finding_with_severity(
        &findings,
        "missing.png",
        Severity::Error
    ));
}

/// A clean project with no errors contains no findings.
#[test]
fn clean_project_has_no_findings() {
    let (dir, entry) =
        setup("\\documentclass{article}\n\\begin{document}\nHello\n\\end{document}");
    let findings = lint_project(&dir, &entry, None).unwrap();
    // No errors → check command would exit 0 regardless of --deny-warnings
    assert!(
        findings
            .iter()
            .filter(|f| f.severity == Severity::Error)
            .count()
            == 0
    );
}

/// Error-severity findings are detected independently of any deny-warnings flag
/// (flag logic lives in the command layer; the linter just tags severity).
#[test]
fn error_severity_finding_present_when_error_rule_fires() {
    let (mut dir, entry) = setup("\\cite{ghost}");
    dir.write("refs.bib", "@article{real,}");
    let findings = lint_project(&dir, &entry, Some("refs.bib")).unwrap();
    assert!(findings.iter().any(|f| f.severity == Severity::Error));
}

/// Unused bib keys are reported once, as a Warning naming the .bib file.
#[test]
fn unused_bib_entries_warn_as_single_finding() {
    let (mut dir, entry) = setup("\\cite{key1}\n\\cite{key2}");
    dir.write("refs.bib", "@article{key1,}\n@article{key2,}\n@article{unused3,}");
    let findings = lint_project(&dir, &entry, Some("refs.bib")).unwrap();
    let unused: Vec<_> = findings
        .iter()
        .filter(|f| f.message.starts_with("Unused"))
        .collect();
    assert_eq!(unused.len(), 1, "grouped into one finding, not one per key");
    let finding = unused[0];
    assert_eq!(finding.severity, Severity::Warning);
    assert_eq!(finding.file, "refs.bib");
    assert!(finding.message.contains("unused3"));
    assert!(!finding.message.contains("key1"));
    assert!(!finding.message.contains("key2"));
}

/// `\nocite{*}` cites every key, so nothing is reported as unused.
#[test]
fn nocite_star_suppresses_unused_warning() {
    let (mut dir, entry) = setup("\\nocite{*}");
    dir.write("refs.bib", "@article{key1,}\n@article{key2,}");
    let findings = lint_project(&dir, &entry, Some("refs.bib")).unwrap();
    assert!(
        !findings.iter().any(|f| f.message.starts_with("Unused")),
        "\\nocite{{*}} reaches every key; none are unused"
    );
}

/// Keys listed in `\nocite{...}` count as cited for the unused check.
#[test]
fn nocite_key_counts_as_cited() {
    let (mut dir, entry) = setup("\\nocite{key2}");
    dir.write("refs.bib", "@article{key1,}\n@article{key2,}");
    let findings = lint_project(&dir, &entry, Some("refs.bib")).unwrap();
    let unused: Vec<_> = findings
        .iter()
        .filter(|f| f.message.starts_with("Unused"))
        .collect();
    assert_eq!(unused.len(), 1);
    assert!(unused[0].message.contains("key1"));
    assert!(!unused[0].message.contains("key2"));
}

/// A bibliography whose keys are all cited produces no unused warning.
#[test]
fn all_bib_entries_cited_no_unused_warning() {
    let (mut dir, entry) = setup("\\cite{key1,key2}");
    dir.write("refs.bib", "@article{key1,}\n@article{key2,}");
    let findings = lint_project(&dir, &entry, Some("refs.bib")).unwrap();
    assert!(
        !findings.iter().any(|f| f.message.starts_with("Unused")),
        "all keys are cited"
    );
}

/// No bibliography means no unused-key warning.
#[test]
fn no_bib_file_no_unused_warning() {
    let (dir, entry) = setup("\\cite{key1}");
    let findings = lint_project(&dir, &entry, None).unwrap();
    assert!(
        !findings.iter().any(|f| f.message.starts_with("Unused")),
        "no .bib, nothing to check"
    );
}

#[test]
fn an_earlier_end_does_not_close_a_diagram_in_a_file_with_carriage_returns() {
    let mut lines = vec!["text"; 40];
    lines.push("\\begin{mermaid}\r\na\r\n\\end{mermaid}");
    lines.push("\\begin{mermaid}");
    let content = lines.join("\r\n");
    let mut found: Vec<LintFinding> = Vec::new();
    texforge::linter::checks::check_diagram_blocks("a.tex", &content, "mermaid", &mut found);
    assert_eq!(found.len(), 1);
    assert_eq!(found[0].line, 44);
    assert!(found[0].message.contains("without matching"));
}
