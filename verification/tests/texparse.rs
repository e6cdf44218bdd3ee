use texforge::texparse::{tokenize, tokenize_document, Token};
use texforge::texutil::SourceFile;

const MATH_ENVIRONMENTS: &[&str] =
    &["equation", "align", "gather", "multline", "flalign", "eqnarray", "displaymath"];

const VERBATIM_ENVIRONMENTS: &[&str] = &["verbatim", "Verbatim", "lstlisting", "minted"];

const PROSE_COMMANDS: &[&str] = &["textit", "textbf", "emph", "footnote", "caption"];

fn file(path: &str, content: &str) -> SourceFile {
    SourceFile { path: path.to_string(), content: Some(content.to_string()) }
}

#[test]
fn plain_prose_is_text() {
    let tokens = tokenize("Hello world, this is prose.");
    assert_eq!(
        tokens,
        vec![Token::Text("Hello world, this is prose.".to_string())]
    );
}

#[test]
fn command_names_distinct_from_arguments() {
    let tokens = tokenize(r"\label{sec:intro} and \ref{fig:x}");
    assert_eq!(
        tokens,
        vec![
            Token::Command {
                name: "label".to_string(),
                args: vec!["sec:intro".to_string()],
            },
            Token::Text(" and ".to_string()),
            Token::Command {
                name: "ref".to_string(),
                args: vec!["fig:x".to_string()],
            },
        ]
    );
}

#[test]
fn cite_is_command() {
    let tokens = tokenize(r"\cite{knuth1984}");
    assert_eq!(
        tokens,
        vec![Token::Command {
            name: "cite".to_string(),
            args: vec!["knuth1984".to_string()],
        }]
    );
}

#[test]
fn input_is_command() {
    let tokens = tokenize(r"\input{chapter1}");
    assert_eq!(
        tokens,
        vec![Token::Command {
            name: "input".to_string(),
            args: vec!["chapter1".to_string()],
        }]
    );
}

#[test]
fn includegraphics_with_options_is_command() {
    let tokens = tokenize(r"\includegraphics[width=0.5\textwidth]{img.png}");
    assert_eq!(
        tokens,
        vec![Token::Command {
            name: "includegraphics".to_string(),
            args: vec![r"width=0.5\textwidth".to_string(), "img.png".to_string()],
        }]
    );
}

#[test]
fn index_is_command() {
    let tokens = tokenize(r"\index{LaTeX}");
    assert_eq!(
        tokens,
        vec![Token::Command {
            name: "index".to_string(),
            args: vec!["LaTeX".to_string()],
        }]
    );
}

#[test]
fn inline_math_is_marked() {
    let tokens = tokenize("The value is $x+1$ here.");
    assert_eq!(
        tokens,
        vec![
            Token::Text("The value is ".to_string()),
            Token::BeginMath,
            Token::EndMath,
            Token::Text(" here.".to_string()),
        ]
    );
}

#[test]
fn display_math_dollars_is_marked() {
    let tokens = tokenize("Before $$\\int f dx$$ after.");
    assert_eq!(
        tokens,
        vec![
            Token::Text("Before ".to_string()),
            Token::BeginMath,
            Token::EndMath,
            Token::Text(" after.".to_string()),
        ]
    );
}

#[test]
fn bracket_display_math_is_marked() {
    let tokens = tokenize(r"Before \[a+b\] after.");
    assert_eq!(
        tokens,
        vec![
            Token::Text("Before ".to_string()),
            Token::BeginMath,
            Token::EndMath,
            Token::Text(" after.".to_string()),
        ]
    );
}

#[test]
fn paren_inline_math_is_marked() {
    let tokens = tokenize(r"Before \(x\) after.");
    assert_eq!(
        tokens,
        vec![
            Token::Text("Before ".to_string()),
            Token::BeginMath,
            Token::EndMath,
            Token::Text(" after.".to_string()),
        ]
    );
}

#[test]
fn math_environments_are_marked() {
    for env in MATH_ENVIRONMENTS {
        let src = format!("Before \\begin{{{env}}}a+b\\end{{{env}}} after.");
        let tokens = tokenize(&src);
        assert_eq!(
            tokens,
            vec![
                Token::Text("Before ".to_string()),
                Token::BeginMath,
                Token::EndMath,
                Token::Text(" after.".to_string()),
            ],
            "math env: {env}"
        );
    }
}

#[test]
fn math_content_is_not_prose() {
    let tokens = tokenize("$\\text{alpha} + \\beta$");
    assert_eq!(tokens, vec![Token::BeginMath, Token::EndMath]);
}

#[test]
fn verbatim_environments_are_marked() {
    for env in VERBATIM_ENVIRONMENTS {
        let src = format!("\\begin{{{env}}}% $nonsense$ 100% \\end{{{env}}} after.");
        let tokens = tokenize(&src);
        assert_eq!(
            tokens,
            vec![
                Token::BeginVerbatim {
                    env: env.to_string(),
                },
                Token::EndVerbatim {
                    env: env.to_string(),
                },
                Token::Text(" after.".to_string()),
            ],
            "verbatim env: {env}"
        );
    }
}

#[test]
fn comments_are_tokens() {
    let tokens = tokenize("Text % a comment\nmore");
    assert_eq!(
        tokens,
        vec![
            Token::Text("Text ".to_string()),
            Token::Comment("% a comment".to_string()),
            Token::Text("\nmore".to_string()),
        ]
    );
}

#[test]
fn escaped_percent_is_not_a_comment() {
    let tokens = tokenize(r"50\% off");
    assert_eq!(
        tokens,
        vec![
            Token::Text("50".to_string()),
            Token::Command {
                name: "%".to_string(),
                args: Vec::new(),
            },
            Token::Text(" off".to_string()),
        ]
    );
}

#[test]
fn urls_are_not_prose() {
    let tokens = tokenize(r"\url{https://example.com/x}");
    assert_eq!(
        tokens,
        vec![Token::Command {
            name: "url".to_string(),
            args: vec!["https://example.com/x".to_string()],
        }]
    );
}

#[test]
fn href_splits_url_from_link_text() {
    let tokens = tokenize(r"\href{https://example.com}{Example}");
    assert_eq!(
        tokens,
        vec![
            Token::Command {
                name: "href".to_string(),
                args: vec!["https://example.com".to_string()],
            },
            Token::Text("Example".to_string()),
        ]
    );
}

#[test]
fn sectioning_commands_are_marked() {
    let tokens = tokenize(
        r"\part{One}\chapter{Two}\section{Three}\subsection{Four}\subsubsection{Five}\paragraph{Six}\subparagraph{Seven}",
    );
    let levels: Vec<u8> = tokens
        .iter()
        .filter_map(|t| match t {
            Token::Section { level, .. } => Some(*level),
            _ => None,
        })
        .collect();
    assert_eq!(levels, vec![0, 1, 2, 3, 4, 5, 6]);
    assert_eq!(
        tokens[2],
        Token::Section {
            level: 2,
            title: "Three".to_string(),
        }
    );
}

#[test]
fn starred_section_is_marked() {
    let tokens = tokenize(r"\section*{Intro}");
    assert_eq!(
        tokens,
        vec![Token::Section {
            level: 2,
            title: "Intro".to_string(),
        }]
    );
}

#[test]
fn section_with_optional_toc_title_uses_required_title() {
    let tokens = tokenize(r"\section[Short]{Full title}");
    assert_eq!(
        tokens,
        vec![Token::Section {
            level: 2,
            title: "Full title".to_string(),
        }]
    );
}

#[test]
fn prose_commands_emit_text() {
    for cmd in PROSE_COMMANDS {
        let src = format!("\\{cmd}{{Hello world}}");
        let tokens = tokenize(&src);
        assert_eq!(
            tokens,
            vec![
                Token::Command {
                    name: cmd.to_string(),
                    args: Vec::new(),
                },
                Token::Text("Hello world".to_string()),
            ],
            "prose cmd: {cmd}"
        );
    }
}

#[test]
fn caption_optional_argument_is_non_prose() {
    let tokens = tokenize(r"\caption[Short]{Long caption}");
    assert_eq!(
        tokens,
        vec![
            Token::Command {
                name: "caption".to_string(),
                args: vec!["Short".to_string()],
            },
            Token::Text("Long caption".to_string()),
        ]
    );
}

#[test]
fn math_inside_caption_is_handled() {
    let tokens = tokenize(r"\caption{The value is $x$}");
    assert_eq!(
        tokens,
        vec![
            Token::Command {
                name: "caption".to_string(),
                args: Vec::new(),
            },
            Token::Text("The value is ".to_string()),
            Token::BeginMath,
            Token::EndMath,
        ]
    );
}

#[test]
fn nested_prose_command_in_braces_is_handled() {
    let tokens = tokenize(r"\textbf{see \ref{fig:1}}");
    assert_eq!(
        tokens,
        vec![
            Token::Command {
                name: "textbf".to_string(),
                args: Vec::new(),
            },
            Token::Text("see ".to_string()),
            Token::Command {
                name: "ref".to_string(),
                args: vec!["fig:1".to_string()],
            },
        ]
    );
}

#[test]
fn verbatim_inside_figure_is_handled() {
    let tokens = tokenize(
        "\\begin{figure}\n\\begin{verbatim}\nx = $y$ 100%\n\\end{verbatim}\n\\end{figure}",
    );
    assert_eq!(
        tokens,
        vec![
            Token::Environment {
                name: "figure".to_string(),
            },
            Token::Text("\n".to_string()),
            Token::BeginVerbatim {
                env: "verbatim".to_string(),
            },
            Token::EndVerbatim {
                env: "verbatim".to_string(),
            },
            Token::Text("\n".to_string()),
            Token::Environment {
                name: "figure".to_string(),
            },
        ]
    );
}

#[test]
fn generic_environments_preserve_order() {
    let tokens = tokenize("\\begin{figure}\\begin{tabular}c\\end{tabular}\\end{figure}");
    assert_eq!(
        tokens,
        vec![
            Token::Environment {
                name: "figure".to_string(),
            },
            Token::Environment {
                name: "tabular".to_string(),
            },
            Token::Text("c".to_string()),
            Token::Environment {
                name: "tabular".to_string(),
            },
            Token::Environment {
                name: "figure".to_string(),
            },
        ]
    );
}

#[test]
fn unterminated_environment_does_not_panic() {
    let tokens = tokenize("\\begin{verbatim}\nraw $ content %");
    assert_eq!(
        tokens,
        vec![
            Token::BeginVerbatim {
                env: "verbatim".to_string(),
            },
            Token::EndVerbatim {
                env: "verbatim".to_string(),
            },
        ]
    );
}

#[test]
fn unbalanced_braces_do_not_panic() {
    let tokens = tokenize(r"\textbf{unclosed and }}}} stray");
    assert!(tokens.iter().any(|t| matches!(
        t,
        Token::Command { name, .. } if name == "textbf"
    )));
}

#[test]
fn stray_backslash_does_not_panic() {
    let tokens = tokenize("trailing \\");
    assert_eq!(
        tokens,
        vec![
            Token::Text("trailing ".to_string()),
            Token::Command {
                name: "\\".to_string(),
                args: Vec::new(),
            },
        ]
    );
}

#[test]
fn escaped_dollar_is_not_math() {
    let tokens = tokenize(r"cost: \$5");
    assert_eq!(
        tokens,
        vec![
            Token::Text("cost: ".to_string()),
            Token::Command {
                name: "$".to_string(),
                args: Vec::new(),
            },
            Token::Text("5".to_string()),
        ]
    );
}

#[test]
fn preamble_precedes_begin_document() {
    let tokens = tokenize(
        "\\documentclass{article}\n\\usepackage{amsmath}\n\\begin{document}\nHello world\n\\end{document}",
    );
    let doc_pos = tokens
        .iter()
        .position(|t| matches!(t, Token::BeginDocument))
        .unwrap();
    assert!(tokens[..doc_pos]
        .iter()
        .all(|t| matches!(t, Token::Command { .. } | Token::Text(_))));
    assert!(tokens[doc_pos..]
        .iter()
        .any(|t| matches!(t, Token::Text(s) if s.contains("Hello"))));
    assert!(tokens.iter().any(|t| matches!(t, Token::EndDocument)));
}

#[test]
fn trailing_empty_group_is_an_argument() {
    let tokens = tokenize(r"\LaTeX{}");
    assert_eq!(
        tokens,
        vec![Token::Command {
            name: "LaTeX".to_string(),
            args: vec!["".to_string()],
        }]
    );
}

#[test]
fn tokenize_document_traverses_input_files() {
    let tree = vec![
        file("/p/main.tex", "\\input{ch1}\n\\begin{document}\nMain\\end{document}"),
        file("/p/ch1.tex", "% ch1\nText in chapter"),
    ];

    let files = tokenize_document("/p", "main.tex", &tree);
    assert_eq!(files.len(), 2);

    let ch1 = files.iter().find(|f| f.path.ends_with("ch1.tex")).unwrap();
    assert!(ch1
        .tokens
        .iter()
        .any(|t| matches!(t, Token::Comment(c) if c == "% ch1")));

    let main = files.iter().find(|f| f.path.ends_with("main.tex")).unwrap();
    assert!(main
        .tokens
        .iter()
        .any(|t| matches!(t, Token::BeginDocument)));
}

#[test]
fn columns_of_tables_are_not_prose() {
    let tokens = tokenize(r"\begin{tabular}{@{}l|p{3cm}}cell\end{tabular}");
    assert_eq!(tokens[1], Token::Text("cell".to_string()));
    let tokens = tokenize(r"\begin{tabularx}{\textwidth}[t]{XX}cell\end{tabularx}");
    assert_eq!(tokens[1], Token::Text("cell".to_string()));
    let tokens = tokenize(r"\begin{center}{kept}\end{center}");
    assert_eq!(tokens[1], Token::Text("{kept}".to_string()));
}

#[test]
fn prose_is_copied_from_the_source() {
    let source = "α \\textbf{bold} % note\nplain $x$ end";
    for token in tokenize(source) {
        if let Token::Text(t) = token {
            assert!(!t.is_empty());
            assert!(source.contains(&t));
            assert!(!t.contains(['%', '\\', '$']));
        }
    }
}

#[test]
fn a_source_without_markup_is_one_text() {
    assert_eq!(tokenize("just prose"), vec![Token::Text("just prose".to_string())]);
}

#[test]
fn regions_are_closed_at_once() {
    let source = "a $x$ \\begin{align}y\\end{align} \\verb|z| \\begin{minted}{c}w\\end{minted} \\[v";
    let tokens = tokenize(source);
    for (k, token) in tokens.iter().enumerate() {
        match token {
            Token::BeginMath => assert_eq!(tokens[k + 1], Token::EndMath),
            Token::BeginVerbatim { env } => {
                assert_eq!(tokens[k + 1], Token::EndVerbatim { env: env.clone() })
            }
            _ => {}
        }
    }
}
