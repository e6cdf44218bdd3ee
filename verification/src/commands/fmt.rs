//! The `fmt` command: which files need formatting, and what is written.

use vstd::prelude::*;

use crate::formatter;
use crate::number;
use crate::paths;
use crate::text;

verus! {

/// What becomes of one file: nothing where it is formatted already, else its new content
/// and the line that reports it.
#[derive(Debug)]
pub struct Change {
    /// What is written; nothing where files are only checked.
    pub content: Option<String>,
    pub line: String,
}

/// The line on a file that needs formatting.
pub open spec fn change_line(path: Seq<char>, root: Seq<char>, check: bool) -> Seq<char> {
    (if check {
        "  ✗ "@
    } else {
        "  formatted "@
    }) + paths::relative_or_self(path, root) + "\n"@
}

/// What becomes of a file, given its content and how it reads when formatted.
pub fn format_one(path: &str, root: &str, content: &str, formatted: &str, check: bool) -> (r:
    Option<Change>)
    ensures
        content@ == formatted@ <==> r is None,
        r matches Some(c) ==> c.line@ == change_line(path@, root@, check) && text::opt_text(
            c.content,
        ) == if check {
            None
        } else {
            Some(formatted@)
        },
{
    if text::same_str(content, formatted) {
        return None;
    }
    let rel = paths::relative_or_path(path, root);
    let line = if check {
        text::cat3("  ✗ ", rel.as_str(), "\n")
    } else {
        text::cat3("  formatted ", rel.as_str(), "\n")
    };
    let content = if check {
        None
    } else {
        Some(text::lit(formatted))
    };
    Some(Change { content, line })
}

/// What becomes of a `.tex` file.
pub fn format_tex(path: &str, root: &str, content: &str, check: bool) -> (r: Option<Change>)
    ensures
        content@ == formatter::formatted(content@) <==> r is None,
        r matches Some(c) ==> c.line@ == change_line(path@, root@, check) && text::opt_text(
            c.content,
        ) == if check {
            None
        } else {
            Some(formatter::formatted(content@))
        },
{
    let formatted = formatter::format(content);
    format_one(path, root, content, formatted.as_str(), check)
}

/// What becomes of a `.bib` file.
pub fn format_bib(path: &str, root: &str, content: &str, check: bool) -> (r: Option<Change>)
    ensures
        content@ == formatter::bib::formatted_bib(content@) <==> r is None,
        r matches Some(c) ==> c.line@ == change_line(path@, root@, check) && text::opt_text(
            c.content,
        ) == if check {
            None
        } else {
            Some(formatter::bib::formatted_bib(content@))
        },
{
    let formatted = formatter::bib::format_bib(content);
    format_one(path, root, content, formatted.as_str(), check)
}

/// What is reported at the end, given how many files there are and how many needed
/// formatting.
pub fn summary(total: usize, unformatted: usize, check: bool) -> (r: Result<String, String>)
    ensures
        total == 0 ==> r is Ok && r->Ok_0@ == "No .tex or .bib files found\n"@,
        total > 0 && check && unformatted > 0 ==> r is Err && r->Err_0@ == number::decimal(
            unformatted as nat,
        ) + " file(s) need formatting — run 'texforge fmt'"@,
        total > 0 && check && unformatted == 0 ==> r is Ok && r->Ok_0@
            == "  ◇ All files formatted correctly\n"@,
        total > 0 && !check ==> r is Ok && r->Ok_0@ == "  ◇ "@ + number::decimal(total as nat)
            + " file(s) checked\n"@,
{
    if total == 0 {
        Ok(text::lit("No .tex or .bib files found\n"))
    } else if check && unformatted > 0 {
        Err(
            text::cat2(
                number::show_size(unformatted).as_str(),
                " file(s) need formatting — run 'texforge fmt'",
            ),
        )
    } else if check {
        Ok(text::lit("  ◇ All files formatted correctly\n"))
    } else {
        Ok(text::cat3("  ◇ ", number::show_size(total).as_str(), " file(s) checked\n"))
    }
}

} // verus!
