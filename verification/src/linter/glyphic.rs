//! Which characters of the prose linting tells of.

use vstd::prelude::*;

use super::glyphs;
use super::{FindingView, Severity};
use crate::position;
use crate::texparse::{self, TokenView};

verus! {

/// Whether a character is a decimal digit.
pub open spec fn is_digit(c: char) -> bool {
    '0' <= c <= '9'
}

/// Whether a digit stands at a position.
pub open spec fn has_digit(t: Seq<char>, i: int) -> bool {
    0 <= i < t.len() && is_digit(t[i])
}

/// How many dots stand in a row right before a position.
pub open spec fn dots_before(t: Seq<char>, i: int) -> nat
    decreases i,
{
    if 0 < i <= t.len() && t[i - 1] == '.' {
        dots_before(t, i - 1) + 1
    } else {
        0
    }
}

/// How many straight quotes stand before a position.
pub open spec fn quotes_before(t: Seq<char>, i: int) -> nat
    decreases i,
{
    if i <= 0 {
        0
    } else if i <= t.len() && t[i - 1] == '"' {
        quotes_before(t, i - 1) + 1
    } else {
        quotes_before(t, i - 1)
    }
}

/// What is wrong with the character at a position of the prose, and what to do: a tie before
/// a number, three dots, an opening straight quote, a hyphen between digits, and, outside
/// math and tables, a special character. `open` says whether a straight quote is open.
pub open spec fn trouble(t: Seq<char>, i: int, prose: bool, open: bool) -> Option<
    (Severity, Seq<char>),
> {
    let c = t[i];
    if c == '~' && has_digit(t, i + 1) {
        Some(
            (
                Severity::Warning,
                "Use \\textasciitilde{} (e.g. \\textasciitilde{}60M) or spell the word out"@,
            ),
        )
    } else if c == '.' && dots_before(t, i) % 3 == 0 && i + 2 < t.len() && t[i + 1] == '.' && t[i
        + 2] == '.' {
        Some((Severity::Warning, "Use \\ldots or \\dots"@))
    } else if c == '"' && (quotes_before(t, i) % 2 == 0) != open {
        Some((Severity::Warning, "Use `` (open) and '' (close) around quoted text"@))
    } else if c == '-' && has_digit(t, i - 1) && has_digit(t, i + 1) {
        Some((Severity::Warning, "Use an en-dash for numeric ranges: 2020--2024"@))
    } else if prose && c == '&' {
        Some((Severity::Error, "Escape it as \\&"@))
    } else if prose && c == '#' {
        Some((Severity::Error, "Escape it as \\#"@))
    } else if prose && c == '_' {
        Some((Severity::Error, "Escape it as \\_"@))
    } else {
        None
    }
}

/// Whether findings hold one on a line with a severity and a suggestion.
pub open spec fn tells(
    found: Seq<FindingView>,
    rel: Seq<char>,
    line: int,
    what: (Severity, Seq<char>),
) -> bool {
    exists|k: int|
        0 <= k < found.len() && (#[trigger] found[k]).file == rel && found[k].line == line
            && found[k].severity == what.0 && found[k].suggestion == Some(what.1)
}

pub proof fn lemma_tells_two(
    a: Seq<FindingView>,
    b: Seq<FindingView>,
    rel: Seq<char>,
    line: int,
    what: (Severity, Seq<char>),
)
    ensures
        tells(a + b, rel, line, what) <==> tells(a, rel, line, what) || tells(b, rel, line, what),
{
    let s = a + b;
    if tells(a, rel, line, what) {
        let k = choose|k: int|
            0 <= k < a.len() && (#[trigger] a[k]).file == rel && a[k].line == line && a[k].severity
                == what.0 && a[k].suggestion == Some(what.1);
        assert(s[k] == a[k]);
    }
    if tells(b, rel, line, what) {
        let k = choose|k: int|
            0 <= k < b.len() && (#[trigger] b[k]).file == rel && b[k].line == line && b[k].severity
                == what.0 && b[k].suggestion == Some(what.1);
        assert(s[a.len() + k] == b[k]);
    }
    if tells(s, rel, line, what) {
        let k = choose|k: int|
            0 <= k < s.len() && (#[trigger] s[k]).file == rel && s[k].line == line && s[k].severity
                == what.0 && s[k].suggestion == Some(what.1);
        if k < a.len() {
            assert(a[k] == s[k]);
        } else {
            assert(b[k - a.len()] == s[k]);
        }
    }
}

proof fn lemma_one_finding(
    f: Option<FindingView>,
    rel: Seq<char>,
    line: int,
    what: (Severity, Seq<char>),
)
    ensures
        tells(glyphs::as_seq(f), rel, line, what) <==> (f matches Some(x) && x.file == rel && x.line
            == line && x.severity == what.0 && x.suggestion == Some(what.1)),
{
    if let Some(x) = f {
        assert(glyphs::as_seq(f)[0] == x);
    }
}

/// What the finding about a position says.
proof fn lemma_glyph(rel: Seq<char>, line: int, t: Seq<char>, i: int, prose: bool, open: bool, q: bool)
    requires
        0 <= i < t.len(),
        q == ((quotes_before(t, i) % 2 == 0) == open),
        t[i] == '.' && i + 2 < t.len() && t[i + 1] == '.' && t[i + 2] == '.' ==> dots_before(t, i)
            % 3 == 0,
    ensures
        match trouble(t, i, prose, open) {
            Some(what) => glyphs::glyph_finding(rel, line, t, i, prose, q) matches Some(x) && x.file
                == rel && x.line == line && x.severity == what.0 && x.suggestion == Some(what.1),
            None => glyphs::glyph_finding(rel, line, t, i, prose, q) is None,
        },
{
    reveal_strlit("Escape it as ");
    reveal_strlit("\\&");
    reveal_strlit("\\#");
    reveal_strlit("\\_");
    reveal_strlit("Escape it as \\&");
    reveal_strlit("Escape it as \\#");
    reveal_strlit("Escape it as \\_");
    assert("Escape it as "@ + "\\&"@ =~= "Escape it as \\&"@);
    assert("Escape it as "@ + "\\#"@ =~= "Escape it as \\#"@);
    assert("Escape it as "@ + "\\_"@ =~= "Escape it as \\_"@);
}

/// Two or fewer dots are left of the row at a position.
spec fn is_left_over(t: Seq<char>, i: int) -> bool {
    i < t.len() && t[i] == '.' && !(i + 2 < t.len() && t[i + 1] == '.' && t[i + 2] == '.')
}

proof fn lemma_stop(t: Seq<char>, i: int)
    requires
        0 <= i < t.len(),
        dots_before(t, i) % 3 == 0 || t[i] != '.' || is_left_over(t, i),
    ensures
        ({
            let j = i + glyphs::glyph_len(t, i);
            j < t.len() ==> dots_before(t, j) % 3 == 0 || t[j] != '.' || is_left_over(t, j)
        }),
        glyphs::three_dots(t, i) ==> dots_before(t, i + 3) == dots_before(t, i) + 3,
{
    if glyphs::three_dots(t, i) {
        assert(dots_before(t, i + 1) == dots_before(t, i) + 1);
        assert(dots_before(t, i + 2) == dots_before(t, i) + 2);
        assert(dots_before(t, i + 3) == dots_before(t, i) + 3);
    } else {
        let j = i + 1;
        if j < t.len() && t[j] == '.' && t[i] != '.' {
            assert(dots_before(t, j) == 0);
        }
    }
}

/// Whether a position from `i` on is in trouble and stands on a line.
spec fn is_told(
    source: Seq<char>,
    t: Seq<char>,
    start: int,
    prose: bool,
    open: bool,
    line: int,
    what: (Severity, Seq<char>),
    k: int,
) -> bool {
    0 <= k < t.len() && trouble(t, k, prose, open) == Some(what) && line == position::line_at_byte(
        source,
        start + position::byte_at(t, k),
    )
}

proof fn lemma_prose(
    rel: Seq<char>,
    source: Seq<char>,
    t: Seq<char>,
    start: int,
    prose: bool,
    open: bool,
    q: bool,
    i: int,
    line: int,
    what: (Severity, Seq<char>),
)
    requires
        0 <= i <= t.len(),
        q == ((quotes_before(t, i) % 2 == 0) == open),
        i < t.len() ==> dots_before(t, i) % 3 == 0 || t[i] != '.' || is_left_over(t, i),
    ensures
        tells(glyphs::prose_findings(rel, source, t, start, prose, q, i), rel, line, what)
            <==> exists|k: int|
            i <= k && #[trigger] is_told(source, t, start, prose, open, line, what, k),
        glyphs::quoted_after(t, q, i) == ((quotes_before(t, t.len() as int) % 2 == 0) == open),
    decreases t.len() - i,
{
    if i < t.len() {
        let here = position::line_at_byte(source, start + position::byte_at(t, i));
        let n = glyphs::glyph_len(t, i);
        let next = q != (t[i] == '"');
        lemma_stop(t, i);
        if n == 3 {
            assert(quotes_before(t, i + 1) == quotes_before(t, i));
            assert(quotes_before(t, i + 2) == quotes_before(t, i));
            assert(quotes_before(t, i + 3) == quotes_before(t, i));
            assert(dots_before(t, i + 1) == dots_before(t, i) + 1);
            assert(dots_before(t, i + 2) == dots_before(t, i) + 2);
        }
        lemma_prose(rel, source, t, start, prose, open, next, i + n, line, what);
        lemma_glyph(rel, here, t, i, prose, open, q);
        let f = glyphs::glyph_finding(rel, here, t, i, prose, q);
        lemma_one_finding(f, rel, line, what);
        lemma_tells_two(
            glyphs::as_seq(f),
            glyphs::prose_findings(rel, source, t, start, prose, next, i + n),
            rel,
            line,
            what,
        );
        if exists|k: int| i <= k && #[trigger] is_told(source, t, start, prose, open, line, what, k) {
            let k = choose|k: int|
                i <= k && #[trigger] is_told(source, t, start, prose, open, line, what, k);
            if k < i + n {
                if k > i {
                    assert(t[k] == '.');
                    assert(dots_before(t, k) == dots_before(t, i) + (k - i));
                }
                assert(k == i);
            }
        }
        if tells(glyphs::as_seq(f), rel, line, what) {
            assert(is_told(source, t, start, prose, open, line, what, i));
        }
    }
}

/// A straight quote is open behind a text where one was open before and the text has an even
/// number of them, or the other way round.
pub proof fn lemma_quoted(t: Seq<char>, open: bool)
    ensures
        glyphs::quoted_after(t, open, 0) == ((quotes_before(t, t.len() as int) % 2 == 0) == open),
{
    lemma_prose(
        Seq::empty(),
        Seq::empty(),
        t,
        0,
        true,
        open,
        open,
        0,
        0,
        (Severity::Error, Seq::empty()),
    );
}

/// Of a piece of prose it is told exactly what is wrong with its characters, each on its
/// line.
pub proof fn law_troubled_characters_are_told(
    rel: Seq<char>,
    source: Seq<char>,
    t: Seq<char>,
    start: int,
    prose: bool,
    open: bool,
    line: int,
    what: (Severity, Seq<char>),
)
    ensures
        tells(glyphs::prose_findings(rel, source, t, start, prose, open, 0), rel, line, what)
            <==> exists|k: int|
            0 <= k < t.len() && #[trigger] trouble(t, k, prose, open) == Some(what) && line
                == position::line_at_byte(source, start + position::byte_at(t, k)),
{
    lemma_prose(rel, source, t, start, prose, open, open, 0, line, what);
    if exists|k: int|
        0 <= k < t.len() && #[trigger] trouble(t, k, prose, open) == Some(what) && line
            == position::line_at_byte(source, start + position::byte_at(t, k)) {
        let k = choose|k: int|
            0 <= k < t.len() && #[trigger] trouble(t, k, prose, open) == Some(what) && line
                == position::line_at_byte(source, start + position::byte_at(t, k));
        assert(is_told(source, t, start, prose, open, line, what, k));
    }
    if tells(glyphs::prose_findings(rel, source, t, start, prose, open, 0), rel, line, what) {
        let k = choose|k: int|
            0 <= k && #[trigger] is_told(source, t, start, prose, open, line, what, k);
        assert(trouble(t, k, prose, open) == Some(what));
    }
}

// ---------------------------------------------------------------------------
// Files
// ---------------------------------------------------------------------------

/// Whether a name is that of a table.
pub open spec fn is_table(name: Seq<char>) -> bool {
    name == "tabular"@ || name == "tabular*"@ || name == "tabularx"@ || name == "longtable"@ || name
        == "supertabular"@ || name == "array"@
}

/// The tables that are open before the `k`-th token.
pub open spec fn tables_at(ts: Seq<TokenView>, k: int) -> Seq<Seq<char>>
    decreases k,
{
    if k <= 0 {
        Seq::empty()
    } else {
        let before = tables_at(ts, k - 1);
        match ts[k - 1] {
            TokenView::Environment { name } => if before.len() > 0 && before.last() == name {
                before.drop_last()
            } else if is_table(name) {
                before.push(name)
            } else {
                before
            },
            _ => before,
        }
    }
}

/// How deep the math is that is open before the `k`-th token.
pub open spec fn math_at(ts: Seq<TokenView>, k: int) -> nat
    decreases k,
{
    if k <= 0 {
        0
    } else {
        let before = math_at(ts, k - 1);
        match ts[k - 1] {
            TokenView::BeginMath => before + 1,
            TokenView::EndMath => if before > 0 {
                (before - 1) as nat
            } else {
                0
            },
            _ => before,
        }
    }
}

/// Whether a straight quote is open before the `k`-th token.
pub open spec fn open_at(ts: Seq<TokenView>, k: int) -> bool
    decreases k,
{
    if k <= 0 {
        false
    } else {
        match ts[k - 1] {
            TokenView::Text(t) => (quotes_before(t, t.len() as int) % 2 == 0) == open_at(ts, k - 1),
            _ => open_at(ts, k - 1),
        }
    }
}

proof fn lemma_token(
    rel: Seq<char>,
    source: Seq<char>,
    k: int,
    n: int,
    line: int,
    what: (Severity, Seq<char>),
)
    requires
        0 <= k <= n < texparse::tokens_of(source).len(),
    ensures
        texparse::tokens_of(source)[n] matches TokenView::Text(t) ==> (tells(
            glyphs::prose_findings(
                rel,
                source,
                t,
                texparse::scan_source(source).tokens[n].start,
                math_at(texparse::tokens_of(source), n) == 0 && tables_at(
                    texparse::tokens_of(source),
                    n,
                ).len() == 0,
                open_at(texparse::tokens_of(source), n),
                0,
            ),
            rel,
            line,
            what,
        ) ==> tells(
            glyphs::token_findings(
                rel,
                source,
                math_at(texparse::tokens_of(source), k),
                tables_at(texparse::tokens_of(source), k),
                open_at(texparse::tokens_of(source), k),
                k,
            ),
            rel,
            line,
            what,
        )),
    decreases n - k,
{
    let ts = texparse::tokens_of(source);
    let spanned = texparse::scan_source(source).tokens;
    assert(ts[k] == spanned[k].token);
    let math = math_at(ts, k);
    let tables = tables_at(ts, k);
    let open = open_at(ts, k);
    let rest = glyphs::token_findings(
        rel,
        source,
        math_at(ts, k + 1),
        tables_at(ts, k + 1),
        open_at(ts, k + 1),
        k + 1,
    );
    let here = spanned[k].start;
    if k < n {
        lemma_token(rel, source, k + 1, n, line, what);
    }
    match ts[k] {
        TokenView::Text(t) => {
            lemma_prose(rel, source, t, here, true, open, open, 0, line, what);
            lemma_tells_two(
                glyphs::prose_findings(
                    rel,
                    source,
                    t,
                    here,
                    math == 0 && tables.len() == 0,
                    open,
                    0,
                ),
                rest,
                rel,
                line,
                what,
            );
        },
        TokenView::Section { level, title } => {
            lemma_tells_two(
                glyphs::title_findings(rel, source, title, here, 0, false, 0),
                rest,
                rel,
                line,
                what,
            );
        },
        TokenView::Comment(_) => {
            lemma_tells_two(
                glyphs::as_seq(glyphs::percent_finding(rel, source, here)),
                rest,
                rel,
                line,
                what,
            );
        },
        _ => {},
    }
}

/// Of a file it is told what is wrong with every character of its prose, in whatever token
/// it stands. A special character is wrong outside math and tables.
pub proof fn law_prose_of_files_is_looked_through(
    rel: Seq<char>,
    source: Seq<char>,
    n: int,
    t: Seq<char>,
    k: int,
    what: (Severity, Seq<char>),
)
    requires
        0 <= n < texparse::tokens_of(source).len(),
        texparse::tokens_of(source)[n] == TokenView::Text(t),
        0 <= k < t.len(),
        trouble(
            t,
            k,
            math_at(texparse::tokens_of(source), n) == 0 && tables_at(
                texparse::tokens_of(source),
                n,
            ).len() == 0,
            open_at(texparse::tokens_of(source), n),
        ) == Some(what),
    ensures
        tells(
            glyphs::file_findings(rel, source),
            rel,
            position::line_at_byte(
                source,
                texparse::scan_source(source).tokens[n].start + position::byte_at(t, k),
            ),
            what,
        ),
{
    let ts = texparse::tokens_of(source);
    let start = texparse::scan_source(source).tokens[n].start;
    let line = position::line_at_byte(source, start + position::byte_at(t, k));
    law_troubled_characters_are_told(
        rel,
        source,
        t,
        start,
        math_at(ts, n) == 0 && tables_at(ts, n).len() == 0,
        open_at(ts, n),
        line,
        what,
    );
    lemma_token(rel, source, 0, n, line, what);
    let unclosed = texparse::scan_source(source).unclosed;
    lemma_tells_two(
        glyphs::token_findings(rel, source, 0, Seq::empty(), false, 0),
        Seq::new(unclosed.len(), |j: int| glyphs::unclosed_finding(rel, source, unclosed[j])),
        rel,
        line,
        what,
    );
}

} // verus!
