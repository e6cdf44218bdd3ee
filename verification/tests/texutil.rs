use texforge::texutil::strip_empty_groups;

#[test]
fn strip_empty_groups_joins_the_ligature_workaround() {
    assert_eq!(strip_empty_groups("workf{}lows"), "workflows");
    assert_eq!(strip_empty_groups("Artif{}icial"), "Artificial");
    assert_eq!(strip_empty_groups("MLf{}low"), "MLflow");
}

#[test]
fn strip_empty_groups_handles_leading_trailing_and_doubled_groups() {
    assert_eq!(strip_empty_groups("{}Word"), "Word");
    assert_eq!(strip_empty_groups("Word{}"), "Word");
    assert_eq!(strip_empty_groups("Mid{}dle{}Point"), "MiddlePoint");
}

#[test]
fn strip_empty_groups_leaves_non_empty_groups_alone() {
    assert_eq!(strip_empty_groups("\\textit{foo}"), "\\textit{foo}");
    assert_eq!(strip_empty_groups("plain"), "plain");
}
