//! Glyphs that compile cleanly and print something else than was meant.
//!
//! The archetype is `~60M COP` in text mode, where `~` is a non-breaking space, not
//! "approximately". Almost every glyph has a legitimate use, so a rule fires only on
//! the pattern that cannot be that use. Math, verbatim text, comments and arguments
//! that are not prose never reach these rules.
//!
//! | Rule | Fires on | Does not fire on | Severity |
//! |---|---|---|---|
//! | `~` as "approximately" | `~60M`, `~5 anos` | `Figura~\ref{}`, `Dr.~Smith` | warning |
//! | unescaped `%` | `50%` | `% a real comment` | warning |
//! | literal `...` | three dots in prose | `\ldots`, `\dots` | warning |
//! | straight quotes | `"text"` | ` `` ` and `''` | warning |
//! | hyphen as range | `2020-2024` | `well-written` | warning |
//! | unescaped `&`, `#`, `_`, `$` | outside math and tables | inside math or tables | error |

use vstd::prelude::*;

use super::{FindingView, LintFinding, Severity};
use crate::chars;
use crate::position;
use crate::text::{self, chars_of, string_of};
use crate::texparse::{self, Token, TokenView};

verus! {

broadcast use super::lemma_findings_push;

/// Whether position `i` of a text holds a decimal digit.
pub open spec fn digit_at(t: Seq<char>, i: int) -> bool {
    0 <= i < t.len() && chars::is_digit(t[i])
}

/// Where the row of digits that ends before `i` begins.
pub open spec fn digits_start(t: Seq<char>, i: int) -> int
    decreases i,
{
    if digit_at(t, i - 1) {
        digits_start(t, i - 1)
    } else {
        i
    }
}

/// Where the row of digits that begins at `i` ends.
pub open spec fn digits_end(t: Seq<char>, i: int) -> int
    decreases t.len() - i,
{
    if digit_at(t, i) {
        digits_end(t, i + 1)
    } else {
        i
    }
}

/// Whether three dots begin at `i`.
pub open spec fn three_dots(t: Seq<char>, i: int) -> bool {
    0 <= i && i + 2 < t.len() && t[i] == '.' && t[i + 1] == '.' && t[i + 2] == '.'
}

/// What an unescaped special character is, and how it is escaped.
pub open spec fn special_meaning(c: char) -> (Seq<char>, Seq<char>) {
    if c == '&' {
        ("an alignment tab character, not a literal ampersand"@, "\\&"@)
    } else if c == '#' {
        ("a macro parameter character, not a literal hash"@, "\\#"@)
    } else {
        ("the math subscript operator, not a literal underscore"@, "\\_"@)
    }
}

/// The finding about position `i` of a text, on the given line; `prose` says whether
/// the text is outside math and tables, `quoted` whether a straight quote is open.
pub open spec fn glyph_finding(
    rel: Seq<char>,
    line: int,
    t: Seq<char>,
    i: int,
    prose: bool,
    quoted: bool,
) -> Option<FindingView> {
    let c = t[i];
    if c == '~' {
        if digit_at(t, i + 1) {
            let rest = t.skip(i + 1);
            Some(
                super::advice(
                    rel,
                    line,
                    Severity::Warning,
                    "`~"@ + rest.take(text::word_len(rest))
                        + "` — `~` in text mode is a non-breaking space, not \"approximately\"; the PDF will show a plain space and the figure becomes exact"@,
                    "Use \\textasciitilde{} (e.g. \\textasciitilde{}60M) or spell the word out"@,
                ),
            )
        } else {
            None
        }
    } else if c == '.' {
        if three_dots(t, i) {
            Some(
                super::advice(
                    rel,
                    line,
                    Severity::Warning,
                    "Literal \"...\" renders as three periods, not an ellipsis"@,
                    "Use \\ldots or \\dots"@,
                ),
            )
        } else {
            None
        }
    } else if c == '"' {
        if !quoted {
            Some(
                super::advice(
                    rel,
                    line,
                    Severity::Warning,
                    "Straight double quote renders as a plain \" glyph, not LaTeX quotation marks"@,
                    "Use `` (open) and '' (close) around quoted text"@,
                ),
            )
        } else {
            None
        }
    } else if c == '-' {
        if digit_at(t, i - 1) && digit_at(t, i + 1) {
            Some(
                super::advice(
                    rel,
                    line,
                    Severity::Warning,
                    "\""@ + t.subrange(digits_start(t, i), digits_end(t, i + 1))
                        + "\" renders as a plain hyphen, not a range dash"@,
                    "Use an en-dash for numeric ranges: 2020--2024"@,
                ),
            )
        } else {
            None
        }
    } else if (c == '&' || c == '#' || c == '_') && prose {
        Some(
            super::advice(
                rel,
                line,
                Severity::Error,
                "Unescaped `"@ + seq![c] + "` is "@ + special_meaning(c).0
                    + " and will not typeset as a literal "@ + seq![c],
                "Escape it as "@ + special_meaning(c).1,
            ),
        )
    } else {
        None
    }
}

/// A finding, or nothing, as a sequence.
pub open spec fn as_seq(f: Option<FindingView>) -> Seq<FindingView> {
    match f {
        Some(x) => seq![x],
        None => Seq::empty(),
    }
}

/// How many characters the glyph at `i` takes.
pub open spec fn glyph_len(t: Seq<char>, i: int) -> int {
    if three_dots(t, i) {
        3
    } else {
        1
    }
}

/// The findings about the prose `t` from position `i` on. The text begins at byte
/// `start` of the source.
pub open spec fn prose_findings(
    rel: Seq<char>,
    source: Seq<char>,
    t: Seq<char>,
    start: int,
    prose: bool,
    quoted: bool,
    i: int,
) -> Seq<FindingView>
    decreases t.len() - i,
{
    if i < 0 || i >= t.len() {
        Seq::empty()
    } else {
        let line = position::line_at_byte(source, start + position::byte_at(t, i));
        as_seq(glyph_finding(rel, line, t, i, prose, quoted)) + prose_findings(
            rel,
            source,
            t,
            start,
            prose,
            quoted != (t[i] == '"'),
            i + glyph_len(t, i),
        )
    }
}

/// Whether a straight quote is open behind the text `t`, of which the part from `i` on
/// is still to come.
pub open spec fn quoted_after(t: Seq<char>, quoted: bool, i: int) -> bool
    decreases t.len() - i,
{
    if i < 0 || i >= t.len() {
        quoted
    } else {
        quoted_after(t, quoted != (t[i] == '"'), i + glyph_len(t, i))
    }
}

/// The finding about a `%` at byte `start` of the source: it comes right after a digit.
pub open spec fn percent_finding(rel: Seq<char>, source: Seq<char>, start: int) -> Option<
    FindingView,
> {
    let p = position::chars_before(source, start);
    if digit_at(source, p - 1) {
        Some(
            super::advice(
                rel,
                position::line_at_byte(source, start),
                Severity::Warning,
                "\""@ + source.subrange(digits_start(source, p), p)
                    + "%\" — unescaped `%` after a digit starts a comment and silently deletes the rest of the line"@,
                "Escape the percent sign as \\%"@,
            ),
        )
    } else {
        None
    }
}

/// One less, but not below zero.
pub open spec fn less_one(n: nat) -> nat {
    if n > 0 {
        (n - 1) as nat
    } else {
        0
    }
}

/// The findings about a section title from its `k`-th token on, where the sectioning
/// command begins at byte `start` of the source. A position inside the title counts
/// from there.
pub open spec fn title_findings(
    rel: Seq<char>,
    source: Seq<char>,
    title: Seq<char>,
    start: int,
    math: nat,
    quoted: bool,
    k: int,
) -> Seq<FindingView>
    decreases texparse::scan_source(title).tokens.len() - k,
{
    let tokens = texparse::scan_source(title).tokens;
    if k < 0 || k >= tokens.len() {
        Seq::empty()
    } else {
        let here = start + tokens[k].start;
        match tokens[k].token {
            TokenView::BeginMath => title_findings(
                rel,
                source,
                title,
                start,
                math + 1,
                quoted,
                k + 1,
            ),
            TokenView::EndMath => title_findings(
                rel,
                source,
                title,
                start,
                less_one(math),
                quoted,
                k + 1,
            ),
            TokenView::Text(t) => prose_findings(rel, source, t, here, math == 0, quoted, 0)
                + title_findings(
                rel,
                source,
                title,
                start,
                math,
                quoted_after(t, quoted, 0),
                k + 1,
            ),
            TokenView::Comment(_) => as_seq(percent_finding(rel, source, here)) + title_findings(
                rel,
                source,
                title,
                start,
                math,
                quoted,
                k + 1,
            ),
            _ => title_findings(rel, source, title, start, math, quoted, k + 1),
        }
    }
}

/// The open tables after an environment token.
pub open spec fn tables_after(tables: Seq<Seq<char>>, name: Seq<char>) -> Seq<Seq<char>> {
    if tables.len() > 0 && tables.last() == name {
        tables.drop_last()
    } else if texparse::is_table(name) {
        tables.push(name)
    } else {
        tables
    }
}

/// The findings about a file from its `k`-th token on.
pub open spec fn token_findings(
    rel: Seq<char>,
    source: Seq<char>,
    math: nat,
    tables: Seq<Seq<char>>,
    quoted: bool,
    k: int,
) -> Seq<FindingView>
    decreases texparse::scan_source(source).tokens.len() - k,
{
    let tokens = texparse::scan_source(source).tokens;
    if k < 0 || k >= tokens.len() {
        Seq::empty()
    } else {
        let here = tokens[k].start;
        match tokens[k].token {
            TokenView::BeginMath => token_findings(rel, source, math + 1, tables, quoted, k + 1),
            TokenView::EndMath => token_findings(
                rel,
                source,
                less_one(math),
                tables,
                quoted,
                k + 1,
            ),
            TokenView::Environment { name } => token_findings(
                rel,
                source,
                math,
                tables_after(tables, name),
                quoted,
                k + 1,
            ),
            TokenView::Text(t) => prose_findings(
                rel,
                source,
                t,
                here,
                math == 0 && tables.len() == 0,
                quoted,
                0,
            ) + token_findings(rel, source, math, tables, quoted_after(t, quoted, 0), k + 1),
            TokenView::Section { level, title } => title_findings(
                rel,
                source,
                title,
                here,
                0,
                false,
                0,
            ) + token_findings(rel, source, math, tables, quoted, k + 1),
            TokenView::Comment(_) => as_seq(percent_finding(rel, source, here)) + token_findings(
                rel,
                source,
                math,
                tables,
                quoted,
                k + 1,
            ),
            _ => token_findings(rel, source, math, tables, quoted, k + 1),
        }
    }
}

/// The finding about a `$` that opens a math region which is never closed.
pub open spec fn unclosed_finding(rel: Seq<char>, source: Seq<char>, offset: int) -> FindingView {
    super::advice(
        rel,
        position::line_at_byte(source, offset),
        Severity::Error,
        "Unescaped `$` opens a math region that is never closed — everything after it is typeset as math, not as prose"@,
        "Escape the dollar sign (\\$) for a literal one, or close the math region with a matching $"@,
    )
}

/// The findings of the glyph rules about a file: those about its tokens in order, then
/// one for each math region that is never closed.
pub open spec fn file_findings(rel: Seq<char>, source: Seq<char>) -> Seq<FindingView> {
    let open = texparse::scan_source(source).unclosed;
    token_findings(rel, source, 0, Seq::empty(), false, 0) + Seq::new(
        open.len(),
        |k: int| unclosed_finding(rel, source, open[k]),
    )
}

fn has_digit(t: &[char], i: usize) -> (r: bool)
    ensures
        r == digit_at(t@, i as int),
{
    i < t.len() && chars::digit(t[i])
}

fn left_of(t: &[char], i: usize) -> (r: usize)
    requires
        i <= t@.len(),
    ensures
        r == digits_start(t@, i as int),
        r <= i,
{
    let mut j: usize = i;
    while j > 0 && has_digit(t, j - 1)
        invariant
            j <= i <= t@.len(),
            digits_start(t@, i as int) == digits_start(t@, j as int),
        decreases j,
    {
        j = j - 1;
    }
    j
}

fn right_of(t: &[char], i: usize) -> (r: usize)
    requires
        i <= t@.len(),
    ensures
        r == digits_end(t@, i as int),
        i <= r <= t@.len(),
{
    let mut j: usize = i;
    while j < t.len() && chars::digit(t[j])
        invariant
            i <= j <= t@.len(),
            digits_end(t@, i as int) == digits_end(t@, j as int),
        decreases t@.len() - j,
    {
        j = j + 1;
    }
    j
}

fn tilde_finding(rel: &str, line: usize, t: &[char], i: usize) -> (r: Option<LintFinding>)
    requires
        i < t@.len(),
        t@[i as int] == '~',
    ensures
        option_view(r) == glyph_finding(rel@, line as int, t@, i as int, true, true),
        option_view(r) == glyph_finding(rel@, line as int, t@, i as int, false, true),
        option_view(r) == glyph_finding(rel@, line as int, t@, i as int, true, false),
        option_view(r) == glyph_finding(rel@, line as int, t@, i as int, false, false),
{
    let n: usize = t.len();
    if !has_digit(t, i + 1) {
        return None;
    }
    let rest = text::from(t, i + 1);
    let value = string_of(text::upto(rest, text::word_length(rest)));
    Some(
        super::advise(
            rel,
            line,
            Severity::Warning,
            text::cat3(
                "`~",
                value.as_str(),
                "` — `~` in text mode is a non-breaking space, not \"approximately\"; the PDF will show a plain space and the figure becomes exact",
            ),
            text::lit("Use \\textasciitilde{} (e.g. \\textasciitilde{}60M) or spell the word out"),
        ),
    )
}

fn range_finding(rel: &str, line: usize, t: &[char], i: usize) -> (r: Option<LintFinding>)
    requires
        i < t@.len(),
        t@[i as int] == '-',
    ensures
        forall|prose: bool, quoted: bool|
            option_view(r) == #[trigger] glyph_finding(
                rel@,
                line as int,
                t@,
                i as int,
                prose,
                quoted,
            ),
{
    let n: usize = t.len();
    if i == 0 || !has_digit(t, i - 1) || !has_digit(t, i + 1) {
        return None;
    }
    let left = left_of(t, i);
    let right = right_of(t, i + 1);
    let construct = string_of(text::part(t, left, right));
    Some(
        super::advise(
            rel,
            line,
            Severity::Warning,
            text::cat3("\"", construct.as_str(), "\" renders as a plain hyphen, not a range dash"),
            text::lit("Use an en-dash for numeric ranges: 2020--2024"),
        ),
    )
}

fn special_finding(rel: &str, line: usize, c: char) -> (r: LintFinding)
    requires
        c == '&' || c == '#' || c == '_',
    ensures
        forall|t: Seq<char>, i: int, quoted: bool|
            0 <= i < t.len() && t[i] == c ==> #[trigger] glyph_finding(
                rel@,
                line as int,
                t,
                i,
                true,
                quoted,
            ) == Some(r@),
{
    let mut shown = String::new();
    shown.push(c);
    assert(shown@ =~= seq![c]);
    let (meaning, fix) = if c == '&' {
        ("an alignment tab character, not a literal ampersand", "\\&")
    } else if c == '#' {
        ("a macro parameter character, not a literal hash", "\\#")
    } else {
        ("the math subscript operator, not a literal underscore", "\\_")
    };
    let mut message = text::cat4("Unescaped `", shown.as_str(), "` is ", meaning);
    text::push(&mut message, " and will not typeset as a literal ");
    text::push(&mut message, shown.as_str());
    super::advise(
        rel,
        line,
        Severity::Error,
        message,
        text::cat2("Escape it as ", fix),
    )
}

/// What an optional finding says.
pub open spec fn option_view(f: Option<LintFinding>) -> Option<FindingView> {
    match f {
        Some(x) => Some(x@),
        None => None,
    }
}

fn check_glyph(
    rel: &str,
    line: usize,
    t: &[char],
    i: usize,
    prose: bool,
    quoted: bool,
) -> (r: Option<LintFinding>)
    requires
        i < t@.len(),
    ensures
        option_view(r) == glyph_finding(rel@, line as int, t@, i as int, prose, quoted),
{
    let n: usize = t.len();
    let c = t[i];
    if c == '~' {
        tilde_finding(rel, line, t, i)
    } else if c == '.' {
        if n - i > 2 && t[i + 1] == '.' && t[i + 2] == '.' {
            Some(
                super::advise(
                    rel,
                    line,
                    Severity::Warning,
                    text::lit("Literal \"...\" renders as three periods, not an ellipsis"),
                    text::lit("Use \\ldots or \\dots"),
                ),
            )
        } else {
            None
        }
    } else if c == '"' {
        if !quoted {
            Some(
                super::advise(
                    rel,
                    line,
                    Severity::Warning,
                    text::lit(
                        "Straight double quote renders as a plain \" glyph, not LaTeX quotation marks",
                    ),
                    text::lit("Use `` (open) and '' (close) around quoted text"),
                ),
            )
        } else {
            None
        }
    } else if c == '-' {
        range_finding(rel, line, t, i)
    } else if (c == '&' || c == '#' || c == '_') && prose {
        Some(special_finding(rel, line, c))
    } else {
        None
    }
}

fn push_option(out: &mut Vec<LintFinding>, f: Option<LintFinding>)
    ensures
        super::findings_view(final(out)@) == super::findings_view(old(out)@) + as_seq(
            option_view(f),
        ),
{
    if let Some(x) = f {
        out.push(x);
    }
}

/// Scan one prose text run, which begins at byte `start` of the source. `in_quote`
/// changes at every straight quote, so `"text"` is one finding.
fn check_prose(
    rel: &str,
    source: &[char],
    t: &[char],
    start: u128,
    prose: bool,
    in_quote: &mut bool,
    findings: &mut Vec<LintFinding>,
)
    requires
        start <= 4 * usize::MAX * 2,
    ensures
        super::findings_view(final(findings)@) == super::findings_view(old(findings)@)
            + prose_findings(rel@, source@, t@, start as int, prose, *old(in_quote), 0),
        *final(in_quote) == quoted_after(t@, *old(in_quote), 0),
{
    let n: usize = t.len();
    let ghost before = super::findings_view(findings@);
    let ghost whole = prose_findings(rel@, source@, t@, start as int, prose, *in_quote, 0);
    let ghost last = quoted_after(t@, *in_quote, 0);
    let mut quoted = *in_quote;
    let mut i: usize = 0;
    assert(super::findings_view(findings@) + whole =~= before + whole);
    while i < n
        invariant
            n == t@.len(),
            i <= n,
            start <= 4 * usize::MAX * 2,
            super::findings_view(findings@) + prose_findings(
                rel@,
                source@,
                t@,
                start as int,
                prose,
                quoted,
                i as int,
            ) == before + whole,
            last == quoted_after(t@, quoted, i as int),
        decreases n - i,
    {
        let ghost done = super::findings_view(findings@);
        let offset = position::byte_length(text::upto(t, i));
        let line = position::line_of_byte(source, start + offset);
        let f = check_glyph(rel, line, t, i, prose, quoted);
        let dots = n - i > 2 && t[i] == '.' && t[i + 1] == '.' && t[i + 2] == '.';
        let step: usize = if dots {
            3
        } else {
            1
        };
        let ghost rest = prose_findings(
            rel@,
            source@,
            t@,
            start as int,
            prose,
            quoted != (t@[i as int] == '"'),
            i + step,
        );
        assert(done + (as_seq(option_view(f)) + rest) =~= (done + as_seq(option_view(f))) + rest);
        push_option(findings, f);
        if t[i] == '"' {
            quoted = !quoted;
        }
        i = i + step;
    }
    *in_quote = quoted;
    assert(super::findings_view(findings@) + Seq::<FindingView>::empty()
        =~= super::findings_view(findings@));
}

/// A `%` that begins a comment right after a digit deletes the rest of the line.
fn check_percent(rel: &str, source: &[char], start: u128) -> (r: Option<LintFinding>)
    ensures
        option_view(r) == percent_finding(rel@, source@, start as int),
{
    let p = position::count_before(source, start);
    if p == 0 || !has_digit(source, p - 1) {
        return None;
    }
    let digits = string_of(text::part(source, left_of(source, p), p));
    Some(
        super::advise(
            rel,
            position::line_of_byte(source, start),
            Severity::Warning,
            text::cat3(
                "\"",
                digits.as_str(),
                "%\" — unescaped `%` after a digit starts a comment and silently deletes the rest of the line",
            ),
            text::lit("Escape the percent sign as \\%"),
        ),
    )
}

/// Lint a section title, which is prose with commands and math of its own.
fn check_section_title(
    rel: &str,
    source: &[char],
    title: &str,
    command_start: u128,
    findings: &mut Vec<LintFinding>,
)
    requires
        command_start <= 4 * usize::MAX,
    ensures
        super::findings_view(final(findings)@) == super::findings_view(old(findings)@)
            + title_findings(rel@, source@, title@, command_start as int, 0, false, 0),
{
    let ghost before = super::findings_view(findings@);
    let ghost whole = title_findings(rel@, source@, title@, command_start as int, 0, false, 0);
    let ghost scan = texparse::scan_source(title@);
    let tokenized = texparse::tokenize_with_spans(title);
    let mut math: usize = 0;
    let mut quoted = false;
    let mut k: usize = 0;
    assert(super::findings_view(findings@) + whole =~= before + whole);
    while k < tokenized.tokens.len()
        invariant
            k <= tokenized.tokens@.len(),
            math <= k,
            tokenized@ == scan,
            scan == texparse::scan_source(title@),
            command_start <= 4 * usize::MAX,
            super::findings_view(findings@) + title_findings(
                rel@,
                source@,
                title@,
                command_start as int,
                math as nat,
                quoted,
                k as int,
            ) == before + whole,
        decreases tokenized.tokens@.len() - k,
    {
        let ghost done = super::findings_view(findings@);
        let spanned = &tokenized.tokens[k];
        assert(spanned@ == scan.tokens[k as int]);
        let here = command_start + spanned.start as u128;
        match &spanned.token {
            Token::BeginMath => {
                math = math + 1;
            },
            Token::EndMath => {
                if math > 0 {
                    math = math - 1;
                }
            },
            Token::Text(t) => {
                let chars = chars_of(t.as_str());
                let ghost found = prose_findings(
                    rel@,
                    source@,
                    t@,
                    here as int,
                    math == 0,
                    quoted,
                    0,
                );
                let ghost rest = title_findings(
                    rel@,
                    source@,
                    title@,
                    command_start as int,
                    math as nat,
                    quoted_after(t@, quoted, 0),
                    k + 1,
                );
                check_prose(
                    rel,
                    source,
                    chars.as_slice(),
                    here,
                    math == 0,
                    &mut quoted,
                    findings,
                );
                assert(done + (found + rest) =~= (done + found) + rest);
            },
            Token::Comment(_) => {
                let f = check_percent(rel, source, here);
                let ghost rest = title_findings(
                    rel@,
                    source@,
                    title@,
                    command_start as int,
                    math as nat,
                    quoted,
                    k + 1,
                );
                assert(done + (as_seq(option_view(f)) + rest) =~= (done + as_seq(option_view(f)))
                    + rest);
                push_option(findings, f);
            },
            _ => {},
        }
        k = k + 1;
    }
    assert(super::findings_view(findings@) + Seq::<FindingView>::empty()
        =~= super::findings_view(findings@));
}

fn follow_table(tables: &mut Vec<String>, name: &str)
    ensures
        text::texts(final(tables)@) == tables_after(text::texts(old(tables)@), name@),
{
    broadcast use text::lemma_texts_push;

    let ghost before = text::texts(tables@);
    let n: usize = tables.len();
    if n > 0 && text::same_str(tables[n - 1].as_str(), name) {
        assert(before.last() == tables@[n - 1]@);
        let closed = tables.pop();
        assert(text::texts(tables@) =~= before.drop_last());
    } else {
        assert(n > 0 ==> before.last() == tables@[n - 1]@);
        let c = chars_of(name);
        if texparse::table_environment(c.as_slice()) {
            tables.push(text::lit(name));
        }
    }
}

/// Run the glyph rules over the source of one `.tex` file, named `rel` in the findings.
#[verifier::loop_isolation(false)]
pub fn lint_file(rel: &str, source: &str) -> (r: Vec<LintFinding>)
    ensures
        super::findings_view(r@) == file_findings(rel@, source@),
{
    let ghost scan = texparse::scan_source(source@);
    let ghost whole = token_findings(rel@, source@, 0, Seq::empty(), false, 0);
    let sc = chars_of(source);
    let tokenized = texparse::tokenize_with_spans(source);
    let mut findings: Vec<LintFinding> = Vec::new();
    let mut math: usize = 0;
    let mut tables: Vec<String> = Vec::new();
    let mut quoted = false;
    let mut k: usize = 0;
    assert(text::texts(tables@) =~= Seq::empty());
    assert(super::findings_view(findings@) + whole =~= whole);
    while k < tokenized.tokens.len()
        invariant
            k <= tokenized.tokens@.len(),
            math <= k,
            super::findings_view(findings@) + token_findings(
                rel@,
                source@,
                math as nat,
                text::texts(tables@),
                quoted,
                k as int,
            ) == whole,
        decreases tokenized.tokens@.len() - k,
    {
        let ghost done = super::findings_view(findings@);
        let spanned = &tokenized.tokens[k];
        assert(spanned@ == scan.tokens[k as int]);
        let here = spanned.start as u128;
        match &spanned.token {
            Token::BeginMath => {
                math = math + 1;
            },
            Token::EndMath => {
                if math > 0 {
                    math = math - 1;
                }
            },
            Token::Environment { name } => {
                follow_table(&mut tables, name.as_str());
            },
            Token::Text(t) => {
                let chars = chars_of(t.as_str());
                let prose = math == 0 && tables.len() == 0;
                let ghost found = prose_findings(rel@, source@, t@, here as int, prose, quoted, 0);
                let ghost rest = token_findings(
                    rel@,
                    source@,
                    math as nat,
                    text::texts(tables@),
                    quoted_after(t@, quoted, 0),
                    k + 1,
                );
                check_prose(
                    rel,
                    sc.as_slice(),
                    chars.as_slice(),
                    here,
                    prose,
                    &mut quoted,
                    &mut findings,
                );
                assert(done + (found + rest) =~= (done + found) + rest);
            },
            Token::Section { level: _, title } => {
                let ghost found = title_findings(
                    rel@,
                    source@,
                    title@,
                    here as int,
                    0,
                    false,
                    0,
                );
                let ghost rest = token_findings(
                    rel@,
                    source@,
                    math as nat,
                    text::texts(tables@),
                    quoted,
                    k + 1,
                );
                check_section_title(rel, sc.as_slice(), title.as_str(), here, &mut findings);
                assert(done + (found + rest) =~= (done + found) + rest);
            },
            Token::Comment(_) => {
                let f = check_percent(rel, sc.as_slice(), here);
                let ghost rest = token_findings(
                    rel@,
                    source@,
                    math as nat,
                    text::texts(tables@),
                    quoted,
                    k + 1,
                );
                assert(done + (as_seq(option_view(f)) + rest) =~= (done + as_seq(option_view(f)))
                    + rest);
                push_option(&mut findings, f);
            },
            _ => {},
        }
        k = k + 1;
    }
    assert(super::findings_view(findings@) =~= whole);
    let ghost open = scan.unclosed;
    let ghost reports = Seq::new(
        open.len(),
        |j: int| unclosed_finding(rel@, source@, open[j]),
    );
    let mut j: usize = 0;
    while j < tokenized.unclosed_math.len()
        invariant
            j <= tokenized.unclosed_math@.len(),
            super::findings_view(findings@) == whole + reports.take(j as int),
        decreases tokenized.unclosed_math@.len() - j,
    {
        let offset = tokenized.unclosed_math[j];
        assert(scan.unclosed[j as int] == offset);
        assert(whole + reports.take(j + 1) =~= (whole + reports.take(j as int)).push(
            reports[j as int],
        ));
        findings.push(
            super::advise(
                rel,
                position::line_of_byte(sc.as_slice(), offset as u128),
                Severity::Error,
                text::lit(
                    "Unescaped `$` opens a math region that is never closed — everything after it is typeset as math, not as prose",
                ),
                text::lit(
                    "Escape the dollar sign (\\$) for a literal one, or close the math region with a matching $",
                ),
            ),
        );
        j = j + 1;
    }
    assert(reports.take(j as int) =~= reports);
    findings
}

} // verus!
