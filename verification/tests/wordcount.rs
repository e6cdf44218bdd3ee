use texforge::texparse::{tokenize, TokenizedFile};
use texforge::wordcount::{count_by_file, count_document, count_words, DocumentStats};

fn files_from(fixtures: &[(&str, &str)]) -> Vec<TokenizedFile> {
    fixtures
        .iter()
        .map(|(name, source)| TokenizedFile {
            path: name.to_string(),
            tokens: tokenize(source),
        })
        .collect()
}

fn paths_and_words(stats: &DocumentStats) -> Vec<(String, usize)> {
    stats
        .sections
        .iter()
        .map(|section| (section.path.clone(), section.words))
        .collect()
}

#[test]
fn word_is_a_run_of_non_space_containing_an_alphabetic_character() {
    assert_eq!(count_words("Introduccion"), 1);
    assert_eq!(count_words("50"), 0);
    assert_eq!(count_words("fig:cap"), 1);
    assert_eq!(count_words("Hello world, this is prose."), 5);
    assert_eq!(count_words(""), 0);
    assert_eq!(count_words("   \t\n"), 0);
}

#[test]
fn comments_are_not_counted() {
    let files = files_from(&[(
        "main.tex",
        "\\begin{document}\nbody words\n% hidden words here\nmore words\n\\end{document}",
    )]);
    let stats = count_document("Doc", &files);
    assert_eq!(stats.preamble_words, 4);
    assert_eq!(stats.total_words, 4);
    assert!(stats.sections.is_empty());
}

#[test]
fn math_is_not_counted_in_any_form() {
    let src = "\\begin{document}\nbefore $x + y$ after\n$$\\int f dx$$\n\\[a+b\\]\n\\(c+d\\)\n\\begin{equation}e=mc^2\\end{equation}\nmore\n\\end{document}";
    let stats = count_document("Doc", &files_from(&[("main.tex", src)]));
    assert_eq!(stats.preamble_words, 3);
    assert_eq!(stats.total_words, 3);
}

#[test]
fn verbatim_content_is_not_counted() {
    let src = "\\begin{document}\nwords \\begin{verbatim}not words here $math$\\end{verbatim} after\n\\end{document}";
    let stats = count_document("Doc", &files_from(&[("main.tex", src)]));
    assert_eq!(stats.preamble_words, 2);
}

#[test]
fn non_prose_command_arguments_are_not_counted() {
    let src = r"\begin{document}
\label{sec:intro} \ref{fig:x} \cite{key} \input{ch1} \includegraphics{img.png} \url{https://example.com/x} \href{https://example.com}{} \index{LaTeX}
body
\end{document}";
    let stats = count_document("Doc", &files_from(&[("main.tex", src)]));
    assert_eq!(stats.preamble_words, 1);
    assert_eq!(stats.total_words, 1);
}

#[test]
fn prose_command_text_is_counted() {
    let src = r"\begin{document}\section{S}\textit{italic words}\textbf{bold words}\emph{emph words}\footnote{foot words}\caption{cap words}\end{document}";
    let stats = count_document("Doc", &files_from(&[("main.tex", src)]));
    assert_eq!(stats.sections[0].words, 11);
}

#[test]
fn figure_table_and_tabular_text_is_counted() {
    let src = r"\begin{document}\section{S}
\begin{figure}\caption{A cat}\includegraphics{cat.png}\end{figure}
\begin{table}\caption{Timeline}\end{table}
\begin{tabular}{cc}cell one & cell two\end{tabular}
\end{document}";
    let stats = count_document("Doc", &files_from(&[("main.tex", src)]));
    assert_eq!(stats.sections[0].words, 1 + 2 + 1 + 4);
}

#[test]
fn bibliography_text_is_counted() {
    let src = r"\begin{document}\section{S}body
\begin{thebibliography}{9}
\bibitem{knuth} Knuth, The Art of Computer Programming.
\end{thebibliography}
\end{document}";
    let stats = count_document("Doc", &files_from(&[("main.tex", src)]));
    assert_eq!(stats.sections[0].words, 1 + 1 + 6);
}

#[test]
fn preamble_is_not_counted_but_front_matter_is() {
    let src = "\\documentclass{article}\n% preamble prose not counted\n\\begin{document}\nfront matter words\n\\section{S}\nbody\n\\end{document}";
    let stats = count_document("Doc", &files_from(&[("main.tex", src)]));
    assert_eq!(stats.file_count, 1);
    assert_eq!(stats.preamble_words, 3);
    assert_eq!(paths_and_words(&stats), vec![("1".to_string(), 2)]);
    assert_eq!(stats.total_words, 5);
}

#[test]
fn section_numbers_follow_the_hierarchy() {
    let src = r"\begin{document}
\section{One}
\subsection{One One}
\subsection{One Two}
\section{Two}
\subsection{Two One}
\subsubsection{Two One One}
\end{document}";
    let stats = count_document("Doc", &files_from(&[("main.tex", src)]));
    let paths: Vec<&str> = stats.sections.iter().map(|s| s.path.as_str()).collect();
    assert_eq!(paths, vec!["1", "1.1", "1.2", "2", "2.1", "2.1.1"]);
}

#[test]
fn part_and_chapter_levels_number_correctly() {
    let src = "\\begin{document}\n\\part{One}\\chapter{Ch}\\section{Sec}\\section{Sec2}\\chapter{Ch2}\\section{Sec3}\n\\end{document}";
    let stats = count_document("Doc", &files_from(&[("main.tex", src)]));
    let paths: Vec<&str> = stats.sections.iter().map(|s| s.path.as_str()).collect();
    assert_eq!(paths, vec!["1", "1.1", "1.1.1", "1.1.2", "1.2", "1.2.1"]);
}

#[test]
fn section_title_words_are_attributed_to_their_section() {
    let src = r"\begin{document}
\section{Introduction and Background}
text here
\section{Results}
more text
\end{document}";
    let stats = count_document("Doc", &files_from(&[("main.tex", src)]));
    assert_eq!(
        paths_and_words(&stats),
        vec![("1".to_string(), 5), ("2".to_string(), 3)]
    );
}

#[test]
fn math_inside_a_section_title_is_not_counted() {
    let src = r"\begin{document}\section{Energy $E=mc^2$}body\end{document}";
    let stats = count_document("Doc", &files_from(&[("main.tex", src)]));
    assert_eq!(stats.sections[0].words, 2);
}

#[test]
fn sections_from_input_files_are_attributed_to_the_document() {
    let files = files_from(&[
        (
            "main.tex",
            "\\begin{document}\nfront matter\n\\input{ch1}\n\\end{document}",
        ),
        ("ch1.tex", "\\section{One}\nbody"),
    ]);
    let stats = count_document("Doc", &files);
    assert_eq!(stats.preamble_words, 2);
    assert_eq!(paths_and_words(&stats), vec![("1".to_string(), 2)]);
    assert_eq!(stats.total_words, 4);
}

#[test]
fn by_file_breaks_down_per_tex_file() {
    let files = files_from(&[
        (
            "main.tex",
            "\\begin{document}\nfront matter\n\\input{ch1}\n\\end{document}",
        ),
        ("ch1.tex", "\\section{One}\nbody"),
    ]);
    let stats = count_by_file("Doc", &files);
    assert_eq!(stats.total_words, 4);
    assert_eq!(stats.preamble_words, 2);
    assert_eq!(stats.file_count, 2);
    assert_eq!(
        paths_and_words(&stats),
        vec![("main.tex".to_string(), 2), ("ch1.tex".to_string(), 2)]
    );
}
