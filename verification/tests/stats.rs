use texforge::commands::stats::{dotted_line, report, ByMode};
use texforge::texparse::{tokenize, TokenizedFile};
use texforge::wordcount::{count_by_file, count_document};

fn small() -> Vec<TokenizedFile> {
    vec![TokenizedFile {
        path: "main.tex".to_string(),
        tokens: tokenize("\\begin{document}\nhello world\n\\section{S}\ntext\n\\end{document}"),
    }]
}

#[test]
fn dotted_line_pads_with_dots() {
    let line = dotted_line("Total", "12");
    assert!(line.starts_with("Total"));
    assert!(line.ends_with("12"));
    assert_eq!(line.chars().count(), 60);
    assert!(line.contains("...."));
}

#[test]
fn dotted_line_tolerates_overlong_left() {
    let line = dotted_line(&"x".repeat(70), "1");
    assert!(line.ends_with("1"));
}

#[test]
fn the_report_breaks_words_down_by_section() {
    let out = report(&count_document("T", &small()), ByMode::Section);
    let lines: Vec<&str> = out.lines().collect();
    assert_eq!(lines[0], "T");
    assert!(lines[1].starts_with("  preamble....") && lines[1].ends_with("....2"));
    assert!(lines[2].starts_with("  1 S....") && lines[2].ends_with("....2"));
    assert!(lines[3].starts_with("  Total....") && lines[3].ends_with("....4"));
    assert!(lines[1..].iter().all(|l| l.chars().count() == 62));
}

#[test]
fn the_report_breaks_words_down_by_file() {
    let out = report(&count_by_file("T", &small()), ByMode::File);
    assert!(out.contains("  main.tex...."));
    let empty = report(&count_by_file("T", &Vec::new()), ByMode::File);
    assert_eq!(empty, "T\n");
}
