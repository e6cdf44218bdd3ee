use texforge::formatter::bib::{collapse_ws, format_bib, split_top_level, top_level_eq};
use texforge::formatter::{count_occurrences, extract_env_name, leading_dedent, nesting_delta};

#[test]
fn empty_input_returns_single_newline() {
    assert_eq!(texforge::formatter::format(""), "\n");
}

#[test]
fn trailing_newline_always_present() {
    let out = texforge::formatter::format("hello");
    assert!(out.ends_with('\n'));
}

#[test]
fn indentation_inside_environment() {
    let src = "\\begin{document}\nhello\n\\end{document}";
    let out = texforge::formatter::format(src);
    assert_eq!(out, "\\begin{document}\n  hello\n\\end{document}\n");
}

#[test]
fn nested_environments_indent_begin_and_end() {
    let src = "\\begin{a}\n\\begin{b}\nx\n\\end{b}\n\\end{a}";
    let out = texforge::formatter::format(src);
    assert_eq!(
        out,
        "\\begin{a}\n  \\begin{b}\n    x\n  \\end{b}\n\\end{a}\n"
    );
}

#[test]
fn multiline_brace_argument_indents() {
    let src = "\\hypersetup{\npdftitle={X},\ncolorlinks\n}";
    let out = texforge::formatter::format(src);
    assert_eq!(out, "\\hypersetup{\n  pdftitle={X},\n  colorlinks\n}\n");
}

#[test]
fn escaped_braces_do_not_affect_depth() {
    let src = "\\begin{document}\na \\{ b \\} c\nd\n\\end{document}";
    let out = texforge::formatter::format(src);
    assert_eq!(
        out,
        "\\begin{document}\n  a \\{ b \\} c\n  d\n\\end{document}\n"
    );
}

#[test]
fn comment_braces_ignored() {
    let src = "\\begin{document}\nx % this { is not counted\ny\n\\end{document}";
    let out = texforge::formatter::format(src);
    assert_eq!(
        out,
        "\\begin{document}\n  x % this { is not counted\n  y\n\\end{document}\n"
    );
}

#[test]
fn multiple_blank_lines_collapsed() {
    let src = "a\n\n\n\nb";
    let out = texforge::formatter::format(src);
    assert_eq!(out, "a\n\nb\n");
}

#[test]
fn verbatim_content_preserved() {
    let src = "\\begin{verbatim}\n  raw   content\n\\end{verbatim}";
    let out = texforge::formatter::format(src);
    assert_eq!(out, "\\begin{verbatim}\n  raw   content\n\\end{verbatim}\n");
}

#[test]
fn bib_entry_formatted_and_aligned() {
    let src = "@Article{key, author={A. B.},title = {T},year=2020}";
    let out = format_bib(src);
    assert_eq!(
        out,
        "@article{key,\n  author = {A. B.},\n  title  = {T},\n  year   = 2020,\n}\n"
    );
}

#[test]
fn bib_multiline_value_collapsed() {
    let src = "@book{k,\n  title = {A\n     long    title},\n}";
    let out = format_bib(src);
    assert_eq!(out, "@book{k,\n  title = {A long title},\n}\n");
}

#[test]
fn bib_invalid_left_untouched() {
    let src = "not a bib file at all";
    assert_eq!(format_bib(src), src);
}

#[test]
fn bib_braced_comma_not_split() {
    let src = "@misc{k, title={Hello, World}}";
    let out = format_bib(src);
    assert_eq!(out, "@misc{k,\n  title = {Hello, World},\n}\n");
}

#[test]
fn lstlisting_content_preserved() {
    let src = "\\begin{lstlisting}\n  code here\n\\end{lstlisting}";
    let out = texforge::formatter::format(src);
    assert_eq!(out, "\\begin{lstlisting}\n  code here\n\\end{lstlisting}\n");
}

#[test]
fn minted_content_preserved() {
    let src = "\\begin{minted}\n  raw\n\\end{minted}";
    let out = texforge::formatter::format(src);
    assert_eq!(out, "\\begin{minted}\n  raw\n\\end{minted}\n");
}

#[test]
fn leading_dedent_end() {
    assert_eq!(leading_dedent("\\end{doc}"), 1);
}

#[test]
fn leading_dedent_braces() {
    assert_eq!(leading_dedent("}}"), 2);
}

#[test]
fn leading_dedent_none() {
    assert_eq!(leading_dedent("hello"), 0);
}

#[test]
fn nesting_delta_begin() {
    assert_eq!(nesting_delta("\\begin{doc}"), 1);
}

#[test]
fn nesting_delta_end() {
    assert_eq!(nesting_delta("\\end{doc}"), -1);
}

#[test]
fn nesting_delta_braces() {
    assert_eq!(nesting_delta("{ a }"), 0);
}

#[test]
fn nesting_delta_comment_ignored() {
    assert_eq!(nesting_delta("x % { ignore"), 0);
}

#[test]
fn nesting_delta_escaped_braces() {
    assert_eq!(nesting_delta("\\{ \\}"), 0);
}

#[test]
fn extract_env_name_simple() {
    assert_eq!(
        extract_env_name("\\begin{figure}"),
        Some("figure".to_string())
    );
}

#[test]
fn extract_env_name_no_begin() {
    assert_eq!(extract_env_name("no begin here"), None);
}

#[test]
fn count_occurrences_basic() {
    assert_eq!(count_occurrences("abcabc", "abc"), 2);
}

#[test]
fn count_occurrences_none() {
    assert_eq!(count_occurrences("hello", "xyz"), 0);
}

#[test]
fn split_top_level_simple() {
    let result = split_top_level("a, b, c");
    assert_eq!(result, vec!["a", " b", " c"]);
}

#[test]
fn split_top_level_braced_comma() {
    let result = split_top_level("a={x,y}, b");
    assert_eq!(result, vec!["a={x,y}", " b"]);
}

#[test]
fn split_top_level_quoted_comma() {
    let result = split_top_level("\"a,b\", c");
    assert_eq!(result, vec!["\"a,b\"", " c"]);
}

#[test]
fn top_level_eq_found() {
    assert_eq!(top_level_eq("name = value"), Some(5));
    assert_eq!(top_level_eq("año = value"), Some(5));
}

#[test]
fn top_level_eq_in_braces() {
    assert_eq!(top_level_eq("{name = value}"), None);
}

#[test]
fn collapse_ws_basic() {
    assert_eq!(collapse_ws("  hello   world  "), "hello world");
}

#[test]
fn collapse_ws_newlines() {
    assert_eq!(collapse_ws("a\n\nb"), "a b");
}

#[test]
fn format_empty_lines_only() {
    let out = texforge::formatter::format("\n\n\n");
    assert_eq!(out, "\n");
}

#[test]
fn format_single_line() {
    let out = texforge::formatter::format("hello");
    assert_eq!(out, "hello\n");
}

#[test]
fn format_mixed_content() {
    let src = "\\begin{document}\n\\begin{figure}\nimg\n\\end{figure}\n\\end{document}";
    let out = texforge::formatter::format(src);
    assert!(out.contains("  \\begin{figure}"));
    assert!(out.contains("    img"));
    assert!(out.contains("  \\end{figure}"));
}

#[test]
fn bib_string_entry() {
    let src = "@string{jabref = {Journal of Things}}";
    let out = format_bib(src);
    assert!(out.contains("@string"));
}

#[test]
fn bib_paren_delimiters() {
    let src = "@article(key, author={A. B.})";
    let out = format_bib(src);
    assert!(out.contains("@article"));
}

#[test]
fn bib_unterminated_returns_original() {
    let src = "@article{key, author={A. B.}";
    assert_eq!(format_bib(src), src);
}

#[test]
fn bib_empty_returns_original() {
    assert_eq!(format_bib(""), "");
}

#[test]
fn format_trailing_whitespace_trimmed() {
    let src = "hello   \nworld";
    let out = texforge::formatter::format(src);
    assert!(!out.contains("   \n"));
}

#[test]
fn format_comment_not_counted() {
    let src = "\\begin{doc}\nx % { unmatched\n\\end{doc}";
    let out = texforge::formatter::format(src);
    assert_eq!(out, "\\begin{doc}\n  x % { unmatched\n\\end{doc}\n");
}
