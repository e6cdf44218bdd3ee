//! The LaTeX engine: how Tectonic is called and installed, and what its output says.

use vstd::prelude::*;

use crate::archives::{self, EntryView, Listing, ListingView};
use crate::chars;
use crate::linter::Severity;
use crate::number;
use crate::paths;
use crate::text::{self, chars_of, string_of};
use crate::wordset;

verus! {

broadcast use text::lemma_texts_push;

/// The `SOURCE_DATE_EPOCH` of reproducible builds without an explicit one. It is fixed:
/// that is what makes the same source compile to the same PDF.
pub const DEFAULT_EPOCH: u64 = 1700000000;

// ---------------------------------------------------------------------------
// Errors
// ---------------------------------------------------------------------------

/// An error that the engine reports.
#[derive(Debug, Clone, PartialEq, Eq)]
pub struct CompileError {
    pub file: String,
    pub line: usize,
    pub message: String,
}

/// What a [`CompileError`] says.
#[verifier::ext_equal]
pub struct ErrorView {
    pub file: Seq<char>,
    pub line: nat,
    pub message: Seq<char>,
}

impl View for CompileError {
    type V = ErrorView;

    open spec fn view(&self) -> ErrorView {
        ErrorView { file: self.file@, line: self.line as nat, message: self.message@ }
    }
}

/// What errors say.
pub open spec fn error_views(v: Seq<CompileError>) -> Seq<ErrorView> {
    Seq::new(v.len(), |k: int| v[k]@)
}

/// An error without a place.
pub open spec fn plain_error(message: Seq<char>) -> ErrorView {
    ErrorView { file: Seq::empty(), line: 0, message }
}

/// The error in what follows `error:`: `file:line: message`, else a message without a
/// place.
pub open spec fn tectonic_error(rest: Seq<char>) -> ErrorView {
    let t = text::trim(rest);
    match text::find(t, ": "@) {
        Some(k) => match text::rfind_char(t.take(k), ':') {
            Some(c) => match number::parsed(t.subrange(c + 1, k), usize::MAX as int) {
                Some(n) => ErrorView {
                    file: text::trim(t.take(c)),
                    line: n,
                    message: text::trim(t.skip(k + 2)),
                },
                None => plain_error(t),
            },
            None => plain_error(t),
        },
        None => plain_error(t),
    }
}

/// The length of the run of digits at the start of a text.
pub open spec fn digit_run(s: Seq<char>) -> int
    decreases s.len(),
{
    if s.len() > 0 && chars::is_digit(s[0]) {
        1 + digit_run(s.skip(1))
    } else {
        0
    }
}

/// The number at the start of a text.
pub open spec fn leading_number(s: Seq<char>) -> Option<nat> {
    number::parsed(s.take(digit_run(s)), usize::MAX as int)
}

/// The errors after one more line of output. A line that begins with `error:` or `! `
/// brings one; one that begins with `l.` and a number gives the last error its line.
pub open spec fn with_line(errors: Seq<ErrorView>, line: Seq<char>) -> Seq<ErrorView> {
    let t = text::trim(line);
    if text::starts_with(t, "error:"@) {
        errors.push(tectonic_error(t.skip("error:"@.len() as int)))
    } else if text::starts_with(t, "! "@) {
        errors.push(plain_error(t.skip("! "@.len() as int)))
    } else if text::starts_with(t, "l."@) && errors.len() > 0 {
        match leading_number(t.skip("l."@.len() as int)) {
            Some(n) => errors.update(
                errors.len() - 1,
                ErrorView { line: n, ..errors.last() },
            ),
            None => errors,
        }
    } else {
        errors
    }
}

/// The errors in the first `k` lines of output.
pub open spec fn errors_in(ls: Seq<Seq<char>>, k: int) -> Seq<ErrorView>
    decreases k,
{
    if k <= 0 || k > ls.len() {
        Seq::empty()
    } else {
        with_line(errors_in(ls, k - 1), ls[k - 1])
    }
}

fn parse_size(s: &[char]) -> (r: Option<usize>)
    ensures
        match r {
            Some(n) => number::parsed(s@, usize::MAX as int) == Some(n as nat),
            None => number::parsed(s@, usize::MAX as int) is None,
        },
{
    match number::parse_upto(s, usize::MAX as u64) {
        Some(n) => Some(n as usize),
        None => None,
    }
}

fn number_at_start(s: &[char]) -> (r: Option<usize>)
    ensures
        match r {
            Some(n) => leading_number(s@) == Some(n as nat),
            None => leading_number(s@) is None,
        },
{
    let n: usize = s.len();
    let mut i: usize = 0;
    assert(s@.skip(0) =~= s@);
    while i < n && chars::digit(s[i])
        invariant
            i <= n == s@.len(),
            digit_run(s@) == i + digit_run(s@.skip(i as int)),
        decreases n - i,
    {
        assert(s@.skip(i as int).skip(1) =~= s@.skip(i + 1));
        i = i + 1;
    }
    parse_size(text::upto(s, i))
}

fn unplaced(message: &[char]) -> (r: CompileError)
    ensures
        r@ == plain_error(message@),
{
    let r = CompileError { file: String::new(), line: 0, message: string_of(message) };
    assert(r@ =~= plain_error(message@));
    r
}

fn located_error(rest: &[char]) -> (r: CompileError)
    ensures
        r@ == tectonic_error(rest@),
{
    let t = text::trimmed(rest);
    let n: usize = t.len();
    let sep = chars_of(": ");
    proof {
        reveal_strlit(": ");
        text::lemma_find_bounds(t@, ": "@, 0);
    }
    if let Some(k) = text::find_text(t, sep.as_slice()) {
        let loc = text::upto(t, k);
        proof {
            text::lemma_rfind_char_bounds(loc@, ':', loc@.len() as int);
        }
        if let Some(c) = text::rfind_ch(loc, ':') {
            if let Some(line) = parse_size(text::part(t, c + 1, k)) {
                assert(loc@.take(c as int) =~= t@.take(c as int));
                return CompileError {
                    file: string_of(text::trimmed(text::upto(t, c))),
                    line,
                    message: string_of(text::trimmed(text::from(t, k + 2))),
                };
            }
        }
    }
    unplaced(t)
}

/// Adds the error in what follows `error:`.
pub fn parse_tectonic_error(rest: &str, errors: &mut Vec<CompileError>)
    ensures
        error_views(final(errors)@) == error_views(old(errors)@).push(tectonic_error(rest@)),
{
    let c = chars_of(rest);
    let ghost before = error_views(errors@);
    errors.push(located_error(c.as_slice()));
    assert(error_views(errors@) =~= before.push(tectonic_error(rest@)));
}

/// Parse the output of the engine into structured errors.
pub fn parse_errors(raw: &str) -> (r: Vec<CompileError>)
    ensures
        error_views(r@) == errors_in(text::lines(raw@), text::lines(raw@).len() as int),
{
    let c = chars_of(raw);
    let ls = text::lines_of(c.as_slice());
    let ghost all = text::slices(ls@);
    let mut errors: Vec<CompileError> = Vec::new();
    let mut k: usize = 0;
    assert(error_views(errors@) =~= errors_in(all, 0));
    while k < ls.len()
        invariant
            k <= ls@.len(),
            all == text::slices(ls@),
            error_views(errors@) == errors_in(all, k as int),
        decreases ls@.len() - k,
    {
        assert(all[k as int] == ls@[k as int]@);
        let t = text::trimmed(ls[k]);
        let ghost before = error_views(errors@);
        proof {
            reveal_strlit("error:");
            reveal_strlit("! ");
            reveal_strlit("l.");
        }
        if text::begins(t, "error:") {
            errors.push(located_error(text::from(t, 6)));
            assert(error_views(errors@) =~= with_line(before, all[k as int]));
        } else if text::begins(t, "! ") {
            errors.push(unplaced(text::from(t, 2)));
            assert(error_views(errors@) =~= with_line(before, all[k as int]));
        } else if text::begins(t, "l.") && errors.len() > 0 {
            if let Some(line) = number_at_start(text::from(t, 2)) {
                let last: usize = errors.len() - 1;
                let changed = CompileError {
                    file: text::lit(errors[last].file.as_str()),
                    line,
                    message: text::lit(errors[last].message.as_str()),
                };
                errors.set(last, changed);
                assert(error_views(errors@) =~= with_line(before, all[k as int]));
            }
        }
        k = k + 1;
    }
    errors
}

/// An error in the report on a failed compilation.
pub open spec fn error_text(e: ErrorView) -> Seq<char> {
    "ERROR ["@ + e.file + ":"@ + number::decimal(e.line) + "]\n  "@ + e.message + "\n\n"@
}

/// The first `k` errors in the report.
pub open spec fn error_texts(errors: Seq<ErrorView>, k: int) -> Seq<char>
    decreases k,
{
    if k <= 0 || k > errors.len() {
        Seq::empty()
    } else {
        error_texts(errors, k - 1) + error_text(errors[k - 1])
    }
}

/// The report on a failed compilation: its errors, or all output where none is found.
pub open spec fn failure_text(raw: Seq<char>) -> Seq<char> {
    let ls = text::lines(raw);
    let errors = errors_in(ls, ls.len() as int);
    if errors.len() == 0 {
        "Compilation failed:\n"@ + text::trim(raw)
    } else {
        text::trim("Compilation failed:\n\n"@ + error_texts(errors, errors.len() as int))
    }
}

/// The report on a failed compilation.
pub fn failure_report(raw: &str) -> (r: String)
    ensures
        r@ == failure_text(raw@),
{
    let errors = parse_errors(raw);
    let ghost all = error_views(errors@);
    if errors.len() == 0 {
        let c = chars_of(raw);
        let mut out = text::lit("Compilation failed:\n");
        text::append_chars(&mut out, text::trimmed(c.as_slice()));
        return out;
    }
    let mut msg = text::lit("Compilation failed:\n\n");
    let ghost head = msg@;
    let mut k: usize = 0;
    assert(head + error_texts(all, 0) =~= head);
    while k < errors.len()
        invariant
            k <= errors@.len(),
            all == error_views(errors@),
            msg@ == head + error_texts(all, k as int),
        decreases errors@.len() - k,
    {
        let e = &errors[k];
        assert(all[k as int] == e@);
        let mut one = text::cat3("ERROR [", e.file.as_str(), ":");
        text::push(&mut one, number::show_size(e.line).as_str());
        text::push(&mut one, "]\n  ");
        text::push(&mut one, e.message.as_str());
        text::push(&mut one, "\n\n");
        assert(one@ == error_text(all[k as int]));
        text::push(&mut msg, one.as_str());
        assert((head + error_texts(all, k as int)) + one@ =~= head + (error_texts(all, k as int)
            + one@));
        k = k + 1;
    }
    let c = chars_of(msg.as_str());
    string_of(text::trimmed(c.as_slice()))
}

// ---------------------------------------------------------------------------
// Warnings
// ---------------------------------------------------------------------------

/// A single warning parsed from the output of the engine.
#[derive(Debug, Clone, PartialEq, Eq)]
pub struct CompileWarning {
    pub file: String,
    pub line: usize,
    pub severity: Severity,
    pub kind: &'static str,
    pub message: String,
}

/// What a [`CompileWarning`] says.
#[verifier::ext_equal]
pub struct WarningView {
    pub file: Seq<char>,
    pub line: nat,
    pub severity: Severity,
    pub kind: Seq<char>,
    pub message: Seq<char>,
}

impl View for CompileWarning {
    type V = WarningView;

    open spec fn view(&self) -> WarningView {
        WarningView {
            file: self.file@,
            line: self.line as nat,
            severity: self.severity,
            kind: self.kind@,
            message: self.message@,
        }
    }
}

/// What warnings say.
pub open spec fn warning_views(v: Seq<CompileWarning>) -> Seq<WarningView> {
    Seq::new(v.len(), |k: int| v[k]@)
}

/// The kind of warning that a line is, if any.
pub open spec fn kind_of(line: Seq<char>) -> Option<Seq<char>> {
    if text::contains(line, "Underfull \\hbox (badness"@) {
        Some("underfull hbox"@)
    } else if text::contains(line, "Underfull \\vbox (badness"@) {
        Some("underfull vbox"@)
    } else if text::contains(line, "Overfull \\hbox"@) {
        Some("overfull hbox"@)
    } else if text::contains(line, "Overfull \\vbox"@) {
        Some("overfull vbox"@)
    } else if text::contains(line, "LaTeX Warning:"@) {
        Some("latex warning"@)
    } else if text::starts_with(line, "Package "@) && text::contains(line, " Warning:"@) {
        Some("package warning"@)
    } else {
        None
    }
}

/// The number right behind a marker.
pub open spec fn number_behind(line: Seq<char>, marker: Seq<char>) -> Option<nat> {
    match text::find(line, marker) {
        Some(k) => leading_number(line.skip(k + marker.len())),
        None => None,
    }
}

/// The line that a warning names; 0 where it names none.
pub open spec fn named_line(line: Seq<char>) -> nat {
    match number_behind(line, "at lines "@) {
        Some(n) => n,
        None => match number_behind(line, "on input line "@) {
            Some(n) => n,
            None => 0,
        },
    }
}

/// Whether a path ends like a source file of TeX.
pub open spec fn is_source(path: Seq<char>) -> bool {
    let lower = chars::ascii_lower(path);
    text::ends_with(lower, ".tex"@) || text::ends_with(lower, ".sty"@) || text::ends_with(
        lower,
        ".cls"@,
    ) || text::ends_with(lower, ".def"@) || text::ends_with(lower, ".cfg"@) || text::ends_with(
        lower,
        ".bib"@,
    )
}

/// The files that are open and the warnings so far.
#[verifier::ext_equal]
pub struct LogView {
    pub open: Seq<Seq<char>>,
    pub warnings: Seq<WarningView>,
}

/// The last open file.
pub open spec fn innermost(open: Seq<Seq<char>>) -> Seq<char> {
    if open.len() == 0 {
        Seq::empty()
    } else {
        open.last()
    }
}

/// The log after one more line of output: `(path` opens a file, `)` closes the last one,
/// and a warning belongs to the last open file.
pub open spec fn logged(log: LogView, line: Seq<char>) -> LogView {
    let t = text::trim(line);
    if t == seq![')'] {
        LogView {
            open: if log.open.len() > 0 {
                log.open.drop_last()
            } else {
                log.open
            },
            ..log
        }
    } else if t.len() > 0 && t[0] == '(' && is_source(t.skip(1)) {
        LogView { open: log.open.push(t.skip(1)), ..log }
    } else {
        match kind_of(t) {
            Some(kind) => LogView {
                warnings: log.warnings.push(
                    WarningView {
                        file: innermost(log.open),
                        line: named_line(t),
                        severity: Severity::Warning,
                        kind,
                        message: t,
                    },
                ),
                ..log
            },
            None => log,
        }
    }
}

/// The log after the first `k` lines of output.
pub open spec fn log_of(ls: Seq<Seq<char>>, k: int) -> LogView
    decreases k,
{
    if k <= 0 || k > ls.len() {
        LogView { open: Seq::empty(), warnings: Seq::empty() }
    } else {
        logged(log_of(ls, k - 1), ls[k - 1])
    }
}

fn warning_kind(line: &[char]) -> (r: Option<&'static str>)
    ensures
        match r {
            Some(k) => kind_of(line@) == Some(k@),
            None => kind_of(line@) is None,
        },
{
    if text::has(line, "Underfull \\hbox (badness") {
        Some("underfull hbox")
    } else if text::has(line, "Underfull \\vbox (badness") {
        Some("underfull vbox")
    } else if text::has(line, "Overfull \\hbox") {
        Some("overfull hbox")
    } else if text::has(line, "Overfull \\vbox") {
        Some("overfull vbox")
    } else if text::has(line, "LaTeX Warning:") {
        Some("latex warning")
    } else if text::begins(line, "Package ") && text::has(line, " Warning:") {
        Some("package warning")
    } else {
        None
    }
}

fn find_number_behind(line: &[char], marker: &str) -> (r: Option<usize>)
    requires
        marker@.len() > 0,
    ensures
        match r {
            Some(n) => number_behind(line@, marker@) == Some(n as nat),
            None => number_behind(line@, marker@) is None,
        },
{
    let m = chars_of(marker);
    let total: usize = line.len();
    proof {
        text::lemma_find_bounds(line@, marker@, 0);
    }
    match text::find_text(line, m.as_slice()) {
        Some(k) => number_at_start(text::from(line, k + m.len())),
        None => None,
    }
}

fn line_named(line: &[char]) -> (r: usize)
    ensures
        r == named_line(line@),
{
    proof {
        reveal_strlit("at lines ");
        reveal_strlit("on input line ");
    }
    match find_number_behind(line, "at lines ") {
        Some(n) => n,
        None => match find_number_behind(line, "on input line ") {
            Some(n) => n,
            None => 0,
        },
    }
}

/// Pull a line number out of the markers `at lines 41--42` and `on input line 42`; 0 where
/// there is none.
pub fn extract_line(line: &str) -> (r: usize)
    ensures
        r == named_line(line@),
{
    let c = chars_of(line);
    line_named(c.as_slice())
}

fn is_source_path(path: &[char]) -> (r: bool)
    ensures
        r == is_source(path@),
{
    let mut lower: Vec<char> = Vec::new();
    let mut i: usize = 0;
    while i < path.len()
        invariant
            i <= path@.len(),
            lower@ == chars::ascii_lower(path@).take(i as int),
        decreases path@.len() - i,
    {
        lower.push(chars::ascii_small(path[i]));
        assert(lower@ =~= chars::ascii_lower(path@).take(i + 1));
        i = i + 1;
    }
    assert(lower@ =~= chars::ascii_lower(path@));
    let l = lower.as_slice();
    text::ends(l, ".tex") || text::ends(l, ".sty") || text::ends(l, ".cls") || text::ends(l, ".def")
        || text::ends(l, ".cfg") || text::ends(l, ".bib")
}

/// Parse the output of the engine into structured warnings. A warning belongs to the file
/// that was opened last and is not closed yet.
pub fn parse_warnings(raw: &str) -> (r: Vec<CompileWarning>)
    ensures
        warning_views(r@) == log_of(text::lines(raw@), text::lines(raw@).len() as int).warnings,
{
    let c = chars_of(raw);
    let ls = text::lines_of(c.as_slice());
    let ghost all = text::slices(ls@);
    let mut warnings: Vec<CompileWarning> = Vec::new();
    let mut open: Vec<String> = Vec::new();
    let mut k: usize = 0;
    assert(warning_views(warnings@) =~= Seq::<WarningView>::empty());
    assert(text::texts(open@) =~= Seq::<Seq<char>>::empty());
    while k < ls.len()
        invariant
            k <= ls@.len(),
            all == text::slices(ls@),
            log_of(all, k as int) == (LogView {
                open: text::texts(open@),
                warnings: warning_views(warnings@),
            }),
        decreases ls@.len() - k,
    {
        assert(all[k as int] == ls@[k as int]@);
        let t = text::trimmed(ls[k]);
        let n: usize = t.len();
        let ghost before = log_of(all, k as int);
        let ghost after = logged(before, all[k as int]);
        let closes = n == 1 && t[0] == ')';
        assert(closes == (t@ == seq![')'])) by {
            if n == 1 && t@[0] == ')' {
                assert(t@ =~= seq![')']);
            }
        }
        if closes {
            if open.len() > 0 {
                let _ = open.pop();
                assert(text::texts(open@) =~= before.open.drop_last());
            }
        } else if n > 0 && t[0] == '(' && is_source_path(text::from(t, 1)) {
            open.push(string_of(text::from(t, 1)));
        } else if let Some(kind) = warning_kind(t) {
            let file = if open.len() == 0 {
                String::new()
            } else {
                text::lit(open[open.len() - 1].as_str())
            };
            assert(file@ =~= innermost(before.open));
            let ghost earlier = warning_views(warnings@);
            let w = CompileWarning {
                file,
                line: line_named(t),
                severity: Severity::Warning,
                kind,
                message: string_of(t),
            };
            let ghost v = w@;
            warnings.push(w);
            assert(warning_views(warnings@) =~= earlier.push(v));
        }
        assert(after =~= (LogView {
            open: text::texts(open@),
            warnings: warning_views(warnings@),
        }));
        k = k + 1;
    }
    warnings
}

/// A warning in the full report.
pub open spec fn warning_line(w: WarningView) -> Seq<char> {
    let place = if w.line == 0 {
        "["@ + w.file + "]"@
    } else {
        "["@ + w.file + ":"@ + number::decimal(w.line) + "]"@
    };
    "  "@ + w.severity.name() + " "@ + place + " "@ + w.kind + ": "@ + w.message + "\n"@
}

/// The first `k` warnings in the full report.
pub open spec fn warning_lines(ws: Seq<WarningView>, k: int) -> Seq<char>
    decreases k,
{
    if k <= 0 || k > ws.len() {
        Seq::empty()
    } else {
        warning_lines(ws, k - 1) + warning_line(ws[k - 1])
    }
}

/// The file of a warning as the summary names it.
pub open spec fn file_label(w: WarningView) -> Seq<char> {
    if w.file.len() == 0 {
        "(unknown)"@
    } else {
        w.file
    }
}

/// The files of warnings.
pub open spec fn file_labels(ws: Seq<WarningView>) -> Seq<Seq<char>> {
    Seq::new(ws.len(), |k: int| file_label(ws[k]))
}

/// The kinds of the first `k` warnings that belong to a file.
pub open spec fn kinds_of(ws: Seq<WarningView>, file: Seq<char>, k: int) -> Seq<Seq<char>>
    decreases k,
{
    if k <= 0 || k > ws.len() {
        Seq::empty()
    } else if file_label(ws[k - 1]) == file {
        kinds_of(ws, file, k - 1).push(ws[k - 1].kind)
    } else {
        kinds_of(ws, file, k - 1)
    }
}

/// How often a text occurs among the first `k`.
pub open spec fn times(s: Seq<Seq<char>>, x: Seq<char>, k: int) -> nat
    decreases k,
{
    if k <= 0 || k > s.len() {
        0
    } else {
        times(s, x, k - 1) + if s[k - 1] == x {
            1nat
        } else {
            0nat
        }
    }
}

/// The counts of kinds, in the order of the kinds.
pub open spec fn kind_counts(kinds: Seq<Seq<char>>) -> Seq<Seq<char>> {
    let names = wordset::sorted_distinct(kinds);
    Seq::new(
        names.len(),
        |k: int|
            number::decimal(times(kinds, names[k], kinds.len() as int)) + " "@ + names[k],
    )
}

/// The line of a file in the summary.
pub open spec fn summary_line(ws: Seq<WarningView>, file: Seq<char>) -> Seq<char> {
    "  "@ + file + ": "@ + text::join(kind_counts(kinds_of(ws, file, ws.len() as int)), ", "@)
        + "\n"@
}

/// The lines of the first `k` files in the summary.
pub open spec fn summary_lines(ws: Seq<WarningView>, files: Seq<Seq<char>>, k: int) -> Seq<char>
    decreases k,
{
    if k <= 0 || k > files.len() {
        Seq::empty()
    } else {
        summary_lines(ws, files, k - 1) + summary_line(ws, files[k - 1])
    }
}

/// The report on warnings: every one of them, or one line per file with counts by kind.
pub open spec fn warnings_text(ws: Seq<WarningView>, verbose: bool) -> Seq<char> {
    if ws.len() == 0 {
        Seq::empty()
    } else {
        let files = wordset::sorted_distinct(file_labels(ws));
        "WARNINGS ("@ + number::decimal(ws.len()) + ")\n"@ + if verbose {
            warning_lines(ws, ws.len() as int)
        } else {
            summary_lines(ws, files, files.len() as int)
        }
    }
}

fn count_times(v: &Vec<String>, x: &str) -> (r: usize)
    ensures
        r == times(text::texts(v@), x@, v@.len() as int),
{
    let ghost all = text::texts(v@);
    let mut n: usize = 0;
    let mut k: usize = 0;
    while k < v.len()
        invariant
            k <= v@.len(),
            n <= k,
            all == text::texts(v@),
            n == times(all, x@, k as int),
        decreases v@.len() - k,
    {
        assert(all[k as int] == v@[k as int]@);
        if text::same_str(v[k].as_str(), x) {
            n = n + 1;
        }
        k = k + 1;
    }
    n
}

fn counts_of(kinds: &Vec<String>) -> (r: Vec<String>)
    ensures
        text::texts(r@) == kind_counts(text::texts(kinds@)),
{
    let names = wordset::distinct_sorted(kinds);
    let ghost ks = text::texts(kinds@);
    let ghost all = kind_counts(ks);
    let mut out: Vec<String> = Vec::new();
    let mut k: usize = 0;
    assert(text::texts(out@) =~= all.take(0));
    while k < names.len()
        invariant
            k <= names@.len() == all.len(),
            ks == text::texts(kinds@),
            text::texts(names@) == wordset::sorted_distinct(ks),
            all == kind_counts(ks),
            text::texts(out@) == all.take(k as int),
        decreases names@.len() - k,
    {
        let name = names[k].as_str();
        assert(wordset::sorted_distinct(ks)[k as int] == name@);
        let n = count_times(kinds, name);
        let one = text::cat3(number::show_size(n).as_str(), " ", name);
        assert(one@ == all[k as int]);
        out.push(one);
        assert(all.take(k + 1) =~= all.take(k as int).push(all[k as int]));
        k = k + 1;
    }
    assert(all.take(k as int) =~= all);
    out
}

fn label_of(w: &CompileWarning) -> (r: String)
    ensures
        r@ == file_label(w@),
{
    if chars_of(w.file.as_str()).len() == 0 {
        text::lit("(unknown)")
    } else {
        text::lit(w.file.as_str())
    }
}

fn summarize(warnings: &Vec<CompileWarning>, file: &str) -> (r: String)
    ensures
        r@ == summary_line(warning_views(warnings@), file@),
{
    let ghost ws = warning_views(warnings@);
    let mut kinds: Vec<String> = Vec::new();
    let mut k: usize = 0;
    assert(text::texts(kinds@) =~= kinds_of(ws, file@, 0));
    while k < warnings.len()
        invariant
            k <= warnings@.len(),
            ws == warning_views(warnings@),
            text::texts(kinds@) == kinds_of(ws, file@, k as int),
        decreases warnings@.len() - k,
    {
        assert(ws[k as int] == warnings@[k as int]@);
        if text::same_str(label_of(&warnings[k]).as_str(), file) {
            kinds.push(text::lit(warnings[k].kind));
        }
        k = k + 1;
    }
    let counts = counts_of(&kinds);
    text::cat5("  ", file, ": ", text::joined(&counts, ", ").as_str(), "\n")
}

fn list_all(warnings: &Vec<CompileWarning>) -> (r: String)
    ensures
        r@ == warning_lines(warning_views(warnings@), warnings@.len() as int),
{
    let ghost ws = warning_views(warnings@);
    let mut out = String::new();
    let mut k: usize = 0;
    while k < warnings.len()
        invariant
            k <= warnings@.len(),
            ws == warning_views(warnings@),
            out@ == warning_lines(ws, k as int),
        decreases warnings@.len() - k,
    {
        let w = &warnings[k];
        assert(ws[k as int] == w@);
        let mut place = text::cat2("[", w.file.as_str());
        if w.line != 0 {
            text::push(&mut place, ":");
            text::push(&mut place, number::show_size(w.line).as_str());
        }
        text::push(&mut place, "]");
        let mut line = text::cat5(
            "  ",
            w.severity.to_string().as_str(),
            " ",
            place.as_str(),
            " ",
        );
        text::push(&mut line, w.kind);
        text::push(&mut line, ": ");
        text::push(&mut line, w.message.as_str());
        text::push(&mut line, "\n");
        assert(line@ == warning_line(ws[k as int]));
        text::push(&mut out, line.as_str());
        k = k + 1;
    }
    out
}

fn list_files(warnings: &Vec<CompileWarning>) -> (r: String)
    ensures
        ({
            let ws = warning_views(warnings@);
            let files = wordset::sorted_distinct(file_labels(ws));
            r@ == summary_lines(ws, files, files.len() as int)
        }),
{
    let ghost ws = warning_views(warnings@);
    let ghost labels = file_labels(ws);
    let mut names: Vec<String> = Vec::new();
    let mut k: usize = 0;
    assert(text::texts(names@) =~= labels.take(0));
    while k < warnings.len()
        invariant
            k <= warnings@.len(),
            ws == warning_views(warnings@),
            labels == file_labels(ws),
            text::texts(names@) == labels.take(k as int),
        decreases warnings@.len() - k,
    {
        assert(ws[k as int] == warnings@[k as int]@);
        names.push(label_of(&warnings[k]));
        assert(labels.take(k + 1) =~= labels.take(k as int).push(labels[k as int]));
        k = k + 1;
    }
    assert(labels.take(k as int) =~= labels);
    let files = wordset::distinct_sorted(&names);
    let ghost all = text::texts(files@);
    let mut out = String::new();
    let mut i: usize = 0;
    while i < files.len()
        invariant
            i <= files@.len(),
            ws == warning_views(warnings@),
            all == text::texts(files@),
            out@ == summary_lines(ws, all, i as int),
        decreases files@.len() - i,
    {
        assert(all[i as int] == files@[i as int]@);
        let line = summarize(warnings, files[i].as_str());
        text::push(&mut out, line.as_str());
        i = i + 1;
    }
    out
}

/// Render warnings for the console: one line per file with counts by kind, or every
/// occurrence when `verbose` is set.
pub fn format_warnings(warnings: &Vec<CompileWarning>, verbose: bool) -> (r: String)
    ensures
        r@ == warnings_text(warning_views(warnings@), verbose),
{
    if warnings.len() == 0 {
        let r = String::new();
        assert(r@ =~= Seq::<char>::empty());
        return r;
    }
    let mut out = text::cat3("WARNINGS (", number::show_size(warnings.len()).as_str(), ")\n");
    if verbose {
        text::push(&mut out, list_all(warnings).as_str());
    } else {
        text::push(&mut out, list_files(warnings).as_str());
    }
    out
}

/// What is printed on the warnings of a successful build.
pub open spec fn warnings_shown(ws: Seq<WarningView>, verbose: bool) -> Seq<char> {
    if ws.len() == 0 {
        Seq::empty()
    } else {
        "\n"@ + text::trim_end(warnings_text(ws, verbose)) + "\n"@
    }
}

/// What is printed on the warnings of a successful build.
pub fn success_report(raw: &str, verbose: bool) -> (r: String)
    ensures
        r@ == warnings_shown(
            log_of(text::lines(raw@), text::lines(raw@).len() as int).warnings,
            verbose,
        ),
{
    let warnings = parse_warnings(raw);
    if warnings.len() == 0 {
        let r = String::new();
        assert(r@ =~= Seq::<char>::empty());
        return r;
    }
    let formatted = chars_of(format_warnings(&warnings, verbose).as_str());
    let mut out = text::lit("\n");
    text::append_chars(&mut out, text::trimmed_end(formatted.as_slice()));
    text::push(&mut out, "\n");
    out
}

/// How a run of the engine ended: whether it succeeded, and what it wrote.
#[derive(Debug)]
pub struct EngineRun {
    pub success: bool,
    pub stdout: String,
    pub stderr: String,
}

/// What a compilation comes to, given the run of the engine: its warnings, or why it
/// failed.
pub fn compile(run: &EngineRun, verbose: bool) -> (r: Result<String, String>)
    ensures
        ({
            let raw = run.stdout@ + run.stderr@;
            let ls = text::lines(raw);
            match r {
                Ok(m) => run.success && m@ == warnings_shown(
                    log_of(ls, ls.len() as int).warnings,
                    verbose,
                ),
                Err(m) => !run.success && m@ == failure_text(raw),
            }
        }),
{
    let raw = text::cat2(run.stdout.as_str(), run.stderr.as_str());
    if run.success {
        Ok(success_report(raw.as_str(), verbose))
    } else {
        Err(failure_report(raw.as_str()))
    }
}

// ---------------------------------------------------------------------------
// Calling the engine
// ---------------------------------------------------------------------------

/// How the engine is called: the program, its arguments, the directory it runs in, and
/// the value of `SOURCE_DATE_EPOCH` where it is set.
#[derive(Debug)]
pub struct TectonicCall {
    pub program: String,
    pub args: Vec<String>,
    pub current_dir: String,
    pub source_date_epoch: Option<String>,
}

/// Build the call of the engine. Reproducible builds set `SOURCE_DATE_EPOCH`; nothing else
/// in the call depends on it.
pub fn tectonic_command(tectonic: &str, root: &str, entry: &str, epoch: Option<u64>) -> (r:
    TectonicCall)
    ensures
        r.program@ == tectonic@,
        text::texts(r.args@) == seq![
            paths::joined(root@, entry@),
            "--outdir"@,
            root@,
            "--keep-logs"@,
        ],
        r.current_dir@ == root@,
        text::opt_text(r.source_date_epoch) == match epoch {
            Some(e) => Some(number::decimal(e as nat)),
            None => None,
        },
{
    let mut args: Vec<String> = Vec::new();
    args.push(paths::join(root, entry));
    args.push(text::lit("--outdir"));
    args.push(text::lit(root));
    args.push(text::lit("--keep-logs"));
    assert(text::texts(args@) =~= seq![
        paths::joined(root@, entry@),
        "--outdir"@,
        root@,
        "--keep-logs"@,
    ]);
    TectonicCall {
        program: text::lit(tectonic),
        args,
        current_dir: text::lit(root),
        source_date_epoch: match epoch {
            Some(e) => Some(number::show(e)),
            None => None,
        },
    }
}

/// What is found on the search path: the first line of the answer of `which` or `where`,
/// if it is not blank.
pub open spec fn first_answer(stdout: Seq<char>) -> Option<Seq<char>> {
    let ls = text::lines(stdout);
    if ls.len() == 0 || text::trim(ls[0]).len() == 0 {
        None
    } else {
        Some(text::trim(ls[0]))
    }
}

/// The path in the answer of `which` or `where`.
pub fn path_in_answer(stdout: &str) -> (r: Option<String>)
    ensures
        text::opt_text(r) == first_answer(stdout@),
{
    let c = chars_of(stdout);
    let ls = text::lines_of(c.as_slice());
    if ls.len() == 0 {
        return None;
    }
    assert(text::slices(ls@)[0] == ls@[0]@);
    let t = text::trimmed(ls[0]);
    if t.len() == 0 {
        None
    } else {
        Some(string_of(t))
    }
}

/// The file name of the engine.
pub open spec fn bin_name(windows: bool) -> Seq<char> {
    if windows {
        "tectonic.exe"@
    } else {
        "tectonic"@
    }
}

/// The file name of the engine: Windows requires the ending `.exe` to run it.
pub fn tectonic_bin(windows: bool) -> (r: &'static str)
    ensures
        r@ == bin_name(windows),
{
    if windows {
        "tectonic.exe"
    } else {
        "tectonic"
    }
}

/// Where the engine is installed.
pub open spec fn managed_path(home: Seq<char>, windows: bool) -> Seq<char> {
    paths::joined(paths::joined(paths::joined(home, ".texforge"@), "bin"@), bin_name(windows))
}

/// Where the engine is installed, given the home directory.
pub fn tectonic_managed_path(home: Option<&str>, windows: bool) -> (r: Result<String, String>)
    ensures
        match (r, home) {
            (Ok(p), Some(h)) => p@ == managed_path(h@, windows),
            (Err(m), None) => m@ == "Could not determine home directory"@,
            _ => false,
        },
{
    match home {
        Some(h) => Ok(
            paths::join(
                paths::join(paths::join(h, ".texforge").as_str(), "bin").as_str(),
                tectonic_bin(windows),
            ),
        ),
        None => Err(text::lit("Could not determine home directory")),
    }
}

/// The places where the engine is looked for, in order, besides the search path.
pub open spec fn places(home: Option<Seq<char>>, windows: bool) -> Seq<Seq<char>> {
    (match home {
        Some(h) => seq![
            managed_path(h, windows),
            paths::joined(paths::joined(h, ".cargo/bin"@), bin_name(windows)),
        ],
        None => Seq::empty(),
    }) + seq!["/usr/local/bin/tectonic"@, "/opt/homebrew/bin/tectonic"@]
}

/// The places where the engine is looked for, in order, besides the search path.
pub fn known_locations(home: Option<&str>, windows: bool) -> (r: Vec<String>)
    ensures
        text::texts(r@) == places(
            match home {
                Some(h) => Some(h@),
                None => None,
            },
            windows,
        ),
{
    let mut out: Vec<String> = Vec::new();
    if let Some(h) = home {
        if let Ok(p) = tectonic_managed_path(Some(h), windows) {
            out.push(p);
        }
        out.push(paths::join(paths::join(h, ".cargo/bin").as_str(), tectonic_bin(windows)));
    }
    out.push(text::lit("/usr/local/bin/tectonic"));
    out.push(text::lit("/opt/homebrew/bin/tectonic"));
    assert(text::texts(out@) =~= places(
        match home {
            Some(h) => Some(h@),
            None => None,
        },
        windows,
    ));
    out
}

/// The first of the paths, from the `k`-th on, that exists.
pub open spec fn first_existing(all: Seq<Seq<char>>, exists: Seq<bool>, k: int) -> Option<Seq<char>>
    decreases all.len() - k,
{
    if k < 0 || k >= all.len() {
        None
    } else if k < exists.len() && exists[k] {
        Some(all[k])
    } else {
        first_existing(all, exists, k + 1)
    }
}

fn first_that_exists(candidates: &Vec<String>, exists: &Vec<bool>) -> (r: Option<String>)
    ensures
        text::opt_text(r) == first_existing(text::texts(candidates@), exists@, 0),
{
    let ghost all = text::texts(candidates@);
    let mut k: usize = 0;
    while k < candidates.len()
        invariant
            k <= candidates@.len(),
            all == text::texts(candidates@),
            first_existing(all, exists@, 0) == first_existing(all, exists@, k as int),
        decreases candidates@.len() - k,
    {
        assert(all[k as int] == candidates@[k as int]@);
        if k < exists.len() && exists[k] {
            return Some(text::lit(candidates[k].as_str()));
        }
        k = k + 1;
    }
    None
}

/// The engine: what the search path gives, else the first known place that exists.
pub fn locate_tectonic(
    on_path: Option<&str>,
    candidates: &Vec<String>,
    exists: &Vec<bool>,
) -> (r: Option<String>)
    ensures
        text::opt_text(r) == match on_path {
            Some(out) => match first_answer(out@) {
                Some(p) => Some(p),
                None => first_existing(text::texts(candidates@), exists@, 0),
            },
            None => first_existing(text::texts(candidates@), exists@, 0),
        },
{
    if let Some(out) = on_path {
        if let Some(p) = path_in_answer(out) {
            return Some(p);
        }
    }
    first_that_exists(candidates, exists)
}

// ---------------------------------------------------------------------------
// Installing the engine
// ---------------------------------------------------------------------------

/// The version of the engine that is installed.
pub const TECTONIC_VERSION: &'static str = "0.15.0";

/// The target triple that the engine is built for on a platform.
pub open spec fn target_for(os: Seq<char>, arch: Seq<char>) -> Option<Seq<char>> {
    if os == "linux"@ && arch == "x86_64"@ {
        Some("x86_64-unknown-linux-musl"@)
    } else if os == "linux"@ && arch == "aarch64"@ {
        Some("aarch64-unknown-linux-musl"@)
    } else if os == "macos"@ && arch == "x86_64"@ {
        Some("x86_64-apple-darwin"@)
    } else if os == "macos"@ && arch == "aarch64"@ {
        Some("aarch64-apple-darwin"@)
    } else if os == "windows"@ && arch == "x86_64"@ {
        Some("x86_64-pc-windows-msvc"@)
    } else {
        None
    }
}

/// The target triple that the engine is built for on a platform.
pub fn current_target(os: &str, arch: &str) -> (r: Result<&'static str, String>)
    ensures
        match r {
            Ok(t) => target_for(os@, arch@) == Some(t@),
            Err(m) => target_for(os@, arch@) is None && m@
                == "Unsupported platform for automatic tectonic installation"@,
        },
{
    let x86 = text::same_str(arch, "x86_64");
    let arm = text::same_str(arch, "aarch64");
    if text::same_str(os, "linux") && x86 {
        Ok("x86_64-unknown-linux-musl")
    } else if text::same_str(os, "linux") && arm {
        Ok("aarch64-unknown-linux-musl")
    } else if text::same_str(os, "macos") && x86 {
        Ok("x86_64-apple-darwin")
    } else if text::same_str(os, "macos") && arm {
        Ok("aarch64-apple-darwin")
    } else if text::same_str(os, "windows") && x86 {
        Ok("x86_64-pc-windows-msvc")
    } else {
        Err(text::lit("Unsupported platform for automatic tectonic installation"))
    }
}

/// The archive of the engine: its address, and whether it is a zip archive.
#[derive(Debug)]
pub struct TectonicArchive {
    pub url: String,
    pub is_zip: bool,
}

/// The address of the archive of the engine for a target.
pub open spec fn archive_url(target: Seq<char>) -> Seq<char> {
    "https://github.com/tectonic-typesetting/tectonic/releases/download/tectonic%40"@
        + TECTONIC_VERSION@ + "/tectonic-"@ + TECTONIC_VERSION@ + "-"@ + target
        + if text::contains(target, "windows"@) {
        ".zip"@
    } else {
        ".tar.gz"@
    }
}

/// The archive of the engine for a target: a zip archive on Windows.
pub fn tectonic_archive(target: &str) -> (r: TectonicArchive)
    ensures
        r.url@ == archive_url(target@),
        r.is_zip == text::contains(target@, "windows"@),
{
    let t = chars_of(target);
    let is_zip = text::has(t.as_slice(), "windows");
    let mut url = text::cat5(
        "https://github.com/tectonic-typesetting/tectonic/releases/download/tectonic%40",
        TECTONIC_VERSION,
        "/tectonic-",
        TECTONIC_VERSION,
        "-",
    );
    text::push(&mut url, target);
    if is_zip {
        text::push(&mut url, ".zip");
    } else {
        text::push(&mut url, ".tar.gz");
    }
    TectonicArchive { url, is_zip }
}

/// The message on a download that was refused.
pub fn refused_download(status: &str, url: &str) -> (r: String)
    ensures
        r@ == "Failed to download tectonic: HTTP "@ + status@ + "\nURL: "@ + url@,
{
    text::cat4("Failed to download tectonic: HTTP ", status, "\nURL: ", url)
}

/// The first entry, from the `k`-th on, whose path ends in a name.
pub open spec fn entry_ending(entries: Seq<EntryView>, name: Seq<char>, k: int) -> Option<int>
    decreases entries.len() - k,
{
    if k < 0 || k >= entries.len() {
        None
    } else if text::ends_with(entries[k].path, name) {
        Some(k)
    } else {
        entry_ending(entries, name, k + 1)
    }
}

/// The entry of an archive that holds the engine, or why there is none.
pub open spec fn engine_entry(l: ListingView, name: Seq<char>, missing: Seq<char>) -> Result<
    int,
    Seq<char>,
> {
    match entry_ending(l.entries, name, 0) {
        Some(k) => Ok(k),
        None => match l.fault {
            Some(m) => Err(m),
            None => Err(missing),
        },
    }
}

/// The entry of an archive that holds the engine: the first whose path ends in `name`.
/// Where the archive cannot be read that far, the fault is reported; where it has no such
/// entry, `missing` is.
pub fn choose_engine(l: &Listing, name: &str, missing: &str) -> (r: Result<usize, String>)
    ensures
        match r {
            Ok(k) => engine_entry(l@, name@, missing@) == Ok::<int, Seq<char>>(k as int),
            Err(m) => engine_entry(l@, name@, missing@) == Err::<int, Seq<char>>(m@),
        },
{
    let ghost all = archives::entry_views(l.entries@);
    let mut k: usize = 0;
    while k < l.entries.len()
        invariant
            k <= l.entries@.len(),
            all == archives::entry_views(l.entries@),
            entry_ending(all, name@, 0) == entry_ending(all, name@, k as int),
        decreases l.entries@.len() - k,
    {
        assert(all[k as int] == l.entries@[k as int]@);
        let path = chars_of(l.entries[k].path.as_str());
        if text::ends(path.as_slice(), name) {
            return Ok(k);
        }
        k = k + 1;
    }
    match &l.fault {
        Some(m) => Err(text::lit(m.as_str())),
        None => Err(text::lit(missing)),
    }
}

/// The engine in a gzipped tar archive.
pub open spec fn engine_in_targz(bytes: Seq<u8>) -> Result<Seq<u8>, Seq<char>> {
    match engine_entry(
        archives::tar_gz_listing(bytes),
        "tectonic"@,
        "tectonic binary not found in archive"@,
    ) {
        Ok(k) => archives::tar_gz_content(bytes, k),
        Err(m) => Err(m),
    }
}

/// The engine in a zip archive.
pub open spec fn engine_in_zip(bytes: Seq<u8>) -> Result<Seq<u8>, Seq<char>> {
    match engine_entry(
        archives::zip_listing(bytes),
        "tectonic.exe"@,
        "tectonic.exe not found in archive"@,
    ) {
        Ok(k) => archives::zip_content(bytes, k),
        Err(m) => Err(m),
    }
}

/// Takes the engine out of a gzipped tar archive.
pub fn install_from_targz(bytes: &[u8]) -> (r: Result<Vec<u8>, String>)
    ensures
        archives::content_view(r) == engine_in_targz(bytes@),
{
    let listing = archives::list_tar_gz(bytes);
    match choose_engine(&listing, "tectonic", "tectonic binary not found in archive") {
        Ok(k) => archives::read_tar_gz(bytes, k),
        Err(m) => Err(m),
    }
}

/// Takes the engine out of a zip archive.
pub fn install_from_zip(bytes: &[u8]) -> (r: Result<Vec<u8>, String>)
    ensures
        archives::content_view(r) == engine_in_zip(bytes@),
{
    let listing = archives::list_zip(bytes);
    match choose_engine(&listing, "tectonic.exe", "tectonic.exe not found in archive") {
        Ok(k) => archives::read_zip(bytes, k),
        Err(m) => Err(m),
    }
}

/// The platforms that the engine can be installed on are those that releases are built
/// for, with the same target triples.
pub proof fn law_targets_agree(os: Seq<char>, arch: Seq<char>)
    ensures
        target_for(os, arch) matches Some(t) ==> crate::version_checker::target_of(os, arch).0 == t,
{
}

/// A warning is credited to a file only while that file is open: outside every file it has
/// none.
pub proof fn law_warning_belongs_to_open_file(log: LogView, line: Seq<char>)
    ensures
        logged(log, line).warnings.len() > log.warnings.len() ==> logged(
            log,
            line,
        ).warnings.last().file == innermost(log.open) && logged(log, line).open == log.open,
{
}

} // verus!
