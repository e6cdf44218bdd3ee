use texforge::commands::outline::{
    build_outline, missing_entry, outline_text, resolve_title, DocumentOutline,
};
use texforge::commands::pdf::section_titles;
use texforge::pdftext::{format_page_breaks, page_breaks};
use texforge::texutil::SourceFile;

fn write(files: &[(&str, &str)]) -> Vec<SourceFile> {
    files
        .iter()
        .map(|(name, source)| SourceFile {
            path: format!("/p/{name}"),
            content: Some(source.to_string()),
        })
        .collect()
}

fn numbers(outline: &DocumentOutline) -> Vec<String> {
    outline
        .sections
        .iter()
        .map(|section| section.number.clone())
        .collect()
}

fn titles(outline: &DocumentOutline) -> Vec<String> {
    outline
        .sections
        .iter()
        .map(|section| section.title.clone())
        .collect()
}

#[test]
fn numbering_follows_the_hierarchy() {
    let dir = write(&[(
        "main.tex",
        "\\documentclass{book}\n\\begin{document}\n\\part{One}\n\\chapter{Intro}\n\\section{First}\n\\subsection{Sub}\n\\subsubsection{Subsub}\n\\section{Second}\n\\end{document}",
    )]);
    let outline = build_outline("Doc", "/p", "main.tex", &dir);
    assert_eq!(
        numbers(&outline),
        vec!["1", "1.1", "1.1.1", "1.1.1.1", "1.1.1.1.1", "1.1.2"]
    );
}

#[test]
fn sections_from_input_files_appear_at_their_input_position() {
    let dir = write(&[
        (
            "main.tex",
            "\\begin{document}\n\\part{Part}\n\\input{ch1}\n\\section{After Ch1}\n\\input{chapters/ch2}\n\\section{After Ch2}\n\\end{document}",
        ),
        ("ch1.tex", "\\chapter{Chapter One}\n\\input{ch1_sec}\n"),
        ("ch1_sec.tex", "\\section{Ch1 Section}\n"),
        (
            "chapters/ch2.tex",
            "\\chapter{Chapter Two}\n\\section{Ch2 Section}\n",
        ),
    ]);
    let outline = build_outline("Doc", "/p", "main.tex", &dir);
    assert_eq!(
        numbers(&outline),
        vec!["1", "1.1", "1.1.1", "1.1.2", "1.2", "1.2.1", "1.2.2"]
    );
    assert_eq!(
        titles(&outline),
        vec![
            "Part",
            "Chapter One",
            "Ch1 Section",
            "After Ch1",
            "Chapter Two",
            "Ch2 Section",
            "After Ch2"
        ]
    );
}

#[test]
fn paragraphs_are_not_included() {
    let dir = write(&[(
        "main.tex",
        "\\begin{document}\n\\section{One}\n\\paragraph{Note}\n\\subparagraph{Detail}\n\\section{Two}\n\\end{document}",
    )]);
    let outline = build_outline("Doc", "/p", "main.tex", &dir);
    assert_eq!(numbers(&outline), vec!["1", "2"]);
    assert!(outline.sections.iter().all(|section| section.level <= 4));
}

#[test]
fn reports_source_file_and_line() {
    let dir = write(&[(
        "main.tex",
        "\\begin{document}\n\n\\section{Intro}\n\\end{document}",
    )]);
    let outline = build_outline("Doc", "/p", "main.tex", &dir);
    let section = &outline.sections[0];
    assert_eq!(section.file, "main.tex");
    assert_eq!(section.line, 3);
}

#[test]
fn file_paths_are_relative_to_root() {
    let dir = write(&[("chapters/intro.tex", "\\section{Intro}\n")]);
    let outline = build_outline("Doc", "/p", "chapters/intro.tex", &dir);
    assert_eq!(outline.sections[0].file, "chapters/intro.tex");
}

#[test]
fn circular_inputs_do_not_duplicate_sections() {
    let dir = write(&[
        (
            "main.tex",
            "\\begin{document}\n\\section{A}\n\\input{loop}\n\\end{document}",
        ),
        ("loop.tex", "\\input{main}\n\\section{B}\n"),
    ]);
    let outline = build_outline("Doc", "/p", "main.tex", &dir);
    assert_eq!(titles(&outline), vec!["A", "B"]);
}

/// The text of the pages of a document with two sections.
fn pages() -> Vec<String> {
    vec![
        "1 Introduction\nArtificial Intelligence and MLflow workflows.".to_string(),
        "2 Methods\nMore Artificial Intelligence content on page two.".to_string(),
    ]
}

#[test]
fn pages_attributes_macro_wrapped_heading_to_its_own_page() {
    let tex = r#"\documentclass{article}
\begin{document}
\section{Introduction}
Artificial Intelligence and MLflow workflows for local-first systems.
Deep Learning appears here with enough filler text to eventually force a page break if we add more.
\newpage
\section{\textit{Methods}}
More Artificial Intelligence content on page two about workflows.
\end{document}
"#;
    let outline = build_outline("Pages Doc", "/p", "main.tex", &write(&[("main.tex", tex)]));
    let sections = section_titles(&outline.sections);
    assert_eq!(
        sections[1].1, "Methods",
        "title should be resolved, not raw markup"
    );

    let breaks = page_breaks(&pages(), &sections);
    assert_eq!(
        format_page_breaks(&breaks),
        "page=1 section=1 title=Introduction\npage=2 section=2 title=Methods"
    );
}

#[test]
fn pages_does_not_let_an_unmatchable_heading_hide_a_later_section() {
    let tex = r#"\documentclass{article}
\begin{document}
\section{Introduction}
Artificial Intelligence and MLflow workflows for local-first systems.
Deep Learning appears here with enough filler text to eventually force a page break if we add more.
\subsection{AI Engineer en Accenture
\textcolor{lightgray}{\leaders\hbox{.}\hfill}
\textit{Julio 2026 -- Actual}}
\newpage
\section{\href{https://example.com}{Methods}}
More Artificial Intelligence content on page two about workflows.
\end{document}
"#;
    let outline = build_outline("Pages Doc", "/p", "main.tex", &write(&[("main.tex", tex)]));
    let sections = section_titles(&outline.sections);
    assert_eq!(
        sections[2].1, "Methods",
        "title should be resolved, not raw markup"
    );

    let breaks = page_breaks(&pages(), &sections);
    assert_eq!(
        format_page_breaks(&breaks),
        "page=1 section=1 title=Introduction\npage=2 section=2 title=Methods"
    );
}

#[test]
fn titles_read_without_their_markup() {
    assert_eq!(resolve_title("Plain  title"), "Plain  title");
    assert_eq!(resolve_title("\\textit{Methods}"), "Methods");
    assert_eq!(resolve_title("\\href{https://example.com}{Methods}"), "Methods");
    assert_eq!(resolve_title("R\\&D in 50\\% of \\emph{all} $x^2$ cases"), "R&D in 50% of all cases");
    assert_eq!(
        resolve_title("A\n\\textcolor{lightgray}{\\leaders\\hbox{.}\\hfill}\n\\textit{B}"),
        "A B"
    );
}

#[test]
fn the_tree_is_indented_by_level() {
    let dir = write(&[("main.tex", "\\section{One}\n\\subsection{Two}\n")]);
    let outline = build_outline("Doc", "/p", "main.tex", &dir);
    assert_eq!(outline_text(&outline), "Doc\n    1  One\n      1.1  Two\n");
    assert_eq!(missing_entry("/p", "x.tex"), "Entry point file does not exist: /p/x.tex");
}

#[test]
fn a_document_that_is_not_there_has_no_sections() {
    let outline = build_outline("Doc", "/p", "main.tex", &Vec::new());
    assert!(outline.sections.is_empty());
}
