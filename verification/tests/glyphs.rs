use texforge::linter::glyphs::lint_file;
use texforge::linter::{lint as lint_all, LintError, LintFinding, Severity, SpellSetup};
use texforge::linter::spell::DictionaryAnswer;
use texforge::texutil::SourceFile;
use texforge::wordset::WordSet;

/// A project as the library sees it: every file with its content.
struct Project {
    tree: Vec<SourceFile>,
}

impl Project {
    fn new(files: &[(&str, &str)]) -> Project {
        let mut p = Project { tree: Vec::new() };
        for (name, content) in files {
            p.write(name, content);
        }
        p
    }

    fn write(&mut self, name: &str, content: &str) {
        self.tree.push(SourceFile {
            path: format!("/p/{name}"),
            content: Some(content.to_string()),
        });
    }
}

fn lint_project(
    project: &Project,
    entry: &str,
    bib: Option<&str>,
) -> Result<Vec<LintFinding>, LintError> {
    let setup = SpellSetup {
        harness: true,
        default_lang: None,
        answer: DictionaryAnswer::Unavailable { expected: None, reason: String::new() },
        whitelist: WordSet::new(),
    };
    lint_all("/p", entry, bib, &project.tree, &setup).map(|report| report.findings)
}

fn lint(source: &str) -> Vec<LintFinding> {
    lint_file("main.tex", source)
}

fn warning(source: &str, fragment: &str) -> bool {
    lint(source)
        .iter()
        .any(|f| f.severity == Severity::Warning && f.message.contains(fragment))
}

fn error(source: &str, fragment: &str) -> bool {
    lint(source)
        .iter()
        .any(|f| f.severity == Severity::Error && f.message.contains(fragment))
}

fn silent(source: &str, fragment: &str) -> bool {
    lint(source).iter().any(|f| f.message.contains(fragment))
}

// --- `~` as "approximately" ---

#[test]
fn tilde_before_digit_is_approximately() {
    assert!(warning(
        r"negociacion comercial, ~60M COP de ahorro.",
        "non-breaking space"
    ));
    assert!(warning(r"~5 anos de experiencia", "non-breaking space"));
}

#[test]
fn tilde_before_command_or_letter_is_a_tie() {
    assert!(!silent(r"ver Figura~\ref{fig:x}", "non-breaking space"));
    assert!(!silent(r"Dr.~Smith", "non-breaking space"));
}

// --- unescaped `%` ---

#[test]
fn percent_after_digit_eats_the_rest_of_the_line() {
    assert!(warning(r"mejora del 20% en latencia", "silently deletes"));
    assert!(warning(r"descuento 50% aplicado", "silently deletes"));
}

#[test]
fn percent_at_line_start_is_a_real_comment() {
    assert!(!silent("% a real comment", "silently deletes"));
    assert!(!silent("texto\n% a real comment", "silently deletes"));
}

#[test]
fn escaped_percent_does_not_fire() {
    assert!(!silent(r"50\% de descuento", "silently deletes"));
}

#[test]
fn percent_after_digit_inside_prose_command_fires() {
    assert!(warning(
        r"\textit{mejora del 20% en latencia}",
        "silently deletes"
    ));
}

// --- literal `...` ---

#[test]
fn three_dots_in_prose_are_not_an_ellipsis() {
    assert!(warning(r"y entonces ... sucede algo", "three periods"));
}

#[test]
fn latex_ellipsis_commands_do_not_fire() {
    assert!(!silent(r"\ldots y luego \dots", "three periods"));
}

// --- straight quotes ---

#[test]
fn straight_double_quote_fires() {
    assert!(warning(
        r#"dijo "hola mundo" y se fue"#,
        "Straight double quote"
    ));
}

#[test]
fn tex_quotes_do_not_fire() {
    assert!(!silent(
        "dijo ``hola mundo'' y se fue",
        "Straight double quote"
    ));
}

#[test]
fn a_quote_pair_is_one_finding() {
    let findings = lint(r#"dijo "hola mundo" y se fue"#);
    let quote_findings: Vec<&LintFinding> = findings
        .iter()
        .filter(|f| f.message.contains("Straight double quote"))
        .collect();
    assert_eq!(quote_findings.len(), 1);
}

// --- hyphen as range ---

#[test]
fn hyphen_between_digits_is_a_range_dash() {
    assert!(warning(r"periodo 2020-2024", "not a range dash"));
}

#[test]
fn hyphenated_word_does_not_fire() {
    assert!(!silent("well-written code", "not a range dash"));
}

// --- unescaped `&`, `#`, `_`, `$` ---

#[test]
fn unescaped_special_characters_are_errors() {
    assert!(error(r"a & b", "literal ampersand"));
    assert!(error(r"referencia #1", "literal hash"));
    assert!(error(r"foo_bar", "literal underscore"));
    assert!(error(r"costo $5 dolares", "never closed"));
}

#[test]
fn math_and_tables_do_not_fire() {
    assert!(!silent(r"El valor es $x_{i}^2$ aqui", "literal underscore"));
    assert!(!silent(
        r"\begin{tabular}{cc} a & b \\ 1 & 2 \end{tabular}",
        "literal ampersand"
    ));
}

#[test]
fn starred_math_does_not_fire() {
    assert!(!silent(
        r"\begin{align*}a &= b_0\end{align*}",
        "literal ampersand"
    ));
}

#[test]
fn escaped_special_characters_do_not_fire() {
    assert!(!silent(r"a \& b \# 1 x\_y", "literal"));
}

#[test]
fn verbatim_content_does_not_fire() {
    assert!(!silent(r"\verb|a_b & c|", "literal"));
    assert!(!silent(r"\lstinline|50% ...|", "silently deletes"));
}

#[test]
fn url_arguments_do_not_fire() {
    assert!(!silent(
        r"\url{https://example.com/~user_a}",
        "non-breaking space"
    ));
    assert!(!silent(
        r"\url{https://example.com/a_b}",
        "literal underscore"
    ));
}

// --- locations ---

#[test]
fn findings_report_the_right_line() {
    let source = "primera linea\nsegunda con ~60M aqui\ntercera";
    let findings = lint(source);
    let tilde = findings
        .iter()
        .find(|f| f.message.contains("non-breaking space"))
        .unwrap();
    assert_eq!(tilde.line, 2);
    assert_eq!(tilde.file, "main.tex");
}

#[test]
fn percent_finding_is_on_the_comment_line() {
    let source = "linea uno\nahorro 20% perdido\nlinea tres";
    let findings = lint(source);
    let finding = findings
        .iter()
        .find(|f| f.message.contains("silently deletes"))
        .unwrap();
    assert_eq!(finding.line, 2);
}

#[test]
fn section_titles_are_prose() {
    assert!(warning(
        r"\section{Resultados 2020-2024}",
        "not a range dash"
    ));
}

#[test]
fn section_title_latex_is_inert() {
    assert!(!silent(
        r"\section{Introduccion \ldots y \dots}",
        "three periods"
    ));
}

// --- wiring through the whole linter ---

#[test]
fn lint_entry_point_includes_glyph_findings() {
    let mut dir = Project::new(&[]);
    dir.write("main.tex", "\\documentclass{article}\n\\begin{document}\n~60M de ahorro\n\\end{document}");
    let findings = lint_project(&dir, "main.tex", None).unwrap();
    assert!(findings
        .iter()
        .any(|f| f.severity == Severity::Warning && f.message.contains("non-breaking space")));
}
