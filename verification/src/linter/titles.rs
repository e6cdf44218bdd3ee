//! What is told of a file: the characters of its prose and of its titles, a percent sign behind
//! a digit, and math that is never closed; and nothing else.

use vstd::prelude::*;

use super::glyphic;
use super::glyphs;
use super::Severity;
use crate::position;
use crate::texparse::{self, TokenView};

verus! {

/// Whether something is wrong with a character of a piece of prose that begins at a byte of
/// the source.
pub open spec fn prose_has(
    source: Seq<char>,
    t: Seq<char>,
    start: int,
    prose: bool,
    open: bool,
    line: int,
    what: (Severity, Seq<char>),
) -> bool {
    exists|k: int|
        0 <= k < t.len() && #[trigger] glyphic::trouble(t, k, prose, open) == Some(what) && line
            == position::line_at_byte(source, start + position::byte_at(t, k))
}

/// Whether a comment that begins at a byte of the source stands right behind a digit: the
/// percent sign was meant to be printed.
pub open spec fn cuts_off(
    source: Seq<char>,
    start: int,
    line: int,
    what: (Severity, Seq<char>),
) -> bool {
    &&& glyphic::has_digit(source, position::chars_before(source, start) - 1)
    &&& line == position::line_at_byte(source, start)
    &&& what == (Severity::Warning, "Escape the percent sign as \\%"@)
}

/// Whether something is wrong with the `m`-th token of a title, where its heading begins at a
/// byte of the source.
pub open spec fn title_has(
    source: Seq<char>,
    title: Seq<char>,
    start: int,
    m: int,
    line: int,
    what: (Severity, Seq<char>),
) -> bool {
    let ts = texparse::tokens_of(title);
    let here = start + texparse::scan_source(title).tokens[m].start;
    &&& 0 <= m < ts.len()
    &&& match ts[m] {
        TokenView::Text(t) => prose_has(
            source,
            t,
            here,
            glyphic::math_at(ts, m) == 0,
            glyphic::open_at(ts, m),
            line,
            what,
        ),
        TokenView::Comment(_) => cuts_off(source, here, line, what),
        _ => false,
    }
}

/// Whether something is wrong with the `n`-th token of a file: with a character of its prose,
/// where a special character is wrong outside math and tables only, with its title, or with
/// the percent sign that begins it.
pub open spec fn token_has(
    source: Seq<char>,
    n: int,
    line: int,
    what: (Severity, Seq<char>),
) -> bool {
    let ts = texparse::tokens_of(source);
    let here = texparse::scan_source(source).tokens[n].start;
    &&& 0 <= n < ts.len()
    &&& match ts[n] {
        TokenView::Text(t) => prose_has(
            source,
            t,
            here,
            glyphic::math_at(ts, n) == 0 && glyphic::tables_at(ts, n).len() == 0,
            glyphic::open_at(ts, n),
            line,
            what,
        ),
        TokenView::Section { title, .. } => exists|m: int| #[trigger]
            title_has(source, title, here, m, line, what),
        TokenView::Comment(_) => cuts_off(source, here, line, what),
        _ => false,
    }
}

proof fn lemma_percent(
    rel: Seq<char>,
    source: Seq<char>,
    start: int,
    line: int,
    what: (Severity, Seq<char>),
)
    ensures
        glyphic::tells(
            glyphs::as_seq(glyphs::percent_finding(rel, source, start)),
            rel,
            line,
            what,
        ) <==> cuts_off(source, start, line, what),
{
    let f = glyphs::percent_finding(rel, source, start);
    let p = position::chars_before(source, start);
    assert(glyphs::digit_at(source, p - 1) <==> glyphic::has_digit(source, p - 1));
    if let Some(x) = f {
        let found = glyphs::as_seq(f);
        assert(found =~= seq![x]);
        assert(found[0] == x);
    }
}

proof fn lemma_title(
    rel: Seq<char>,
    source: Seq<char>,
    title: Seq<char>,
    start: int,
    k: int,
    line: int,
    what: (Severity, Seq<char>),
)
    requires
        0 <= k <= texparse::tokens_of(title).len(),
    ensures
        glyphic::tells(
            glyphs::title_findings(
                rel,
                source,
                title,
                start,
                glyphic::math_at(texparse::tokens_of(title), k),
                glyphic::open_at(texparse::tokens_of(title), k),
                k,
            ),
            rel,
            line,
            what,
        ) <==> exists|m: int| k <= m && #[trigger] title_has(source, title, start, m, line, what),
    decreases texparse::tokens_of(title).len() - k,
{
    let ts = texparse::tokens_of(title);
    let spanned = texparse::scan_source(title).tokens;
    let math = glyphic::math_at(ts, k);
    let open = glyphic::open_at(ts, k);
    let all = glyphs::title_findings(rel, source, title, start, math, open, k);
    if k < ts.len() {
        assert(ts[k] == spanned[k].token);
        let here = start + spanned[k].start;
        lemma_title(rel, source, title, start, k + 1, line, what);
        let rest = glyphs::title_findings(
            rel,
            source,
            title,
            start,
            glyphic::math_at(ts, k + 1),
            glyphic::open_at(ts, k + 1),
            k + 1,
        );
        match ts[k] {
            TokenView::Text(t) => {
                glyphic::lemma_quoted(t, open);
                let own = glyphs::prose_findings(rel, source, t, here, math == 0, open, 0);
                assert(all == own + rest);
                glyphic::lemma_tells_two(own, rest, rel, line, what);
                glyphic::law_troubled_characters_are_told(
                    rel,
                    source,
                    t,
                    here,
                    math == 0,
                    open,
                    line,
                    what,
                );
            },
            TokenView::Comment(_) => {
                let own = glyphs::as_seq(glyphs::percent_finding(rel, source, here));
                assert(all == own + rest);
                glyphic::lemma_tells_two(own, rest, rel, line, what);
                lemma_percent(rel, source, here, line, what);
            },
            _ => {
                assert(all == rest);
            },
        }
        lemma_split_title(source, title, start, k, line, what);
    } else {
        assert(all.len() == 0);
    }
}

proof fn lemma_split_title(
    source: Seq<char>,
    title: Seq<char>,
    start: int,
    k: int,
    line: int,
    what: (Severity, Seq<char>),
)
    ensures
        (exists|m: int| k <= m && #[trigger] title_has(source, title, start, m, line, what))
            <==> title_has(source, title, start, k, line, what) || (exists|m: int|
            k + 1 <= m && #[trigger] title_has(source, title, start, m, line, what)),
{
}

proof fn lemma_split_file(source: Seq<char>, k: int, line: int, what: (Severity, Seq<char>))
    ensures
        (exists|m: int| k <= m && #[trigger] token_has(source, m, line, what)) <==> token_has(
            source,
            k,
            line,
            what,
        ) || (exists|m: int| k + 1 <= m && #[trigger] token_has(source, m, line, what)),
{
}

proof fn lemma_file(
    rel: Seq<char>,
    source: Seq<char>,
    k: int,
    line: int,
    what: (Severity, Seq<char>),
)
    requires
        0 <= k <= texparse::tokens_of(source).len(),
    ensures
        glyphic::tells(
            glyphs::token_findings(
                rel,
                source,
                glyphic::math_at(texparse::tokens_of(source), k),
                glyphic::tables_at(texparse::tokens_of(source), k),
                glyphic::open_at(texparse::tokens_of(source), k),
                k,
            ),
            rel,
            line,
            what,
        ) <==> exists|m: int| k <= m && #[trigger] token_has(source, m, line, what),
    decreases texparse::tokens_of(source).len() - k,
{
    let ts = texparse::tokens_of(source);
    let spanned = texparse::scan_source(source).tokens;
    let math = glyphic::math_at(ts, k);
    let tables = glyphic::tables_at(ts, k);
    let open = glyphic::open_at(ts, k);
    let all = glyphs::token_findings(rel, source, math, tables, open, k);
    if k < ts.len() {
        assert(ts[k] == spanned[k].token);
        let here = spanned[k].start;
        lemma_file(rel, source, k + 1, line, what);
        let rest = glyphs::token_findings(
            rel,
            source,
            glyphic::math_at(ts, k + 1),
            glyphic::tables_at(ts, k + 1),
            glyphic::open_at(ts, k + 1),
            k + 1,
        );
        match ts[k] {
            TokenView::Text(t) => {
                glyphic::lemma_quoted(t, open);
                let prose = math == 0 && tables.len() == 0;
                let own = glyphs::prose_findings(rel, source, t, here, prose, open, 0);
                assert(all == own + rest);
                glyphic::lemma_tells_two(own, rest, rel, line, what);
                glyphic::law_troubled_characters_are_told(
                    rel,
                    source,
                    t,
                    here,
                    prose,
                    open,
                    line,
                    what,
                );
            },
            TokenView::Section { level, title } => {
                let own = glyphs::title_findings(rel, source, title, here, 0, false, 0);
                assert(all == own + rest);
                glyphic::lemma_tells_two(own, rest, rel, line, what);
                lemma_title(rel, source, title, here, 0, line, what);
            },
            TokenView::Comment(_) => {
                let own = glyphs::as_seq(glyphs::percent_finding(rel, source, here));
                assert(all == own + rest);
                glyphic::lemma_tells_two(own, rest, rel, line, what);
                lemma_percent(rel, source, here, line, what);
            },
            _ => {
                assert(all == rest);
            },
        }
        lemma_split_file(source, k, line, what);
    } else {
        assert(all.len() == 0);
    }
}

/// Whether math that is never closed begins on a line.
pub open spec fn leaves_open(source: Seq<char>, line: int, what: (Severity, Seq<char>)) -> bool {
    &&& exists|j: int|
        0 <= j < texparse::scan_source(source).unclosed.len() && line == position::line_at_byte(
            source,
            #[trigger] texparse::scan_source(source).unclosed[j],
        )
    &&& what == (
        Severity::Error,
        "Escape the dollar sign (\\$) for a literal one, or close the math region with a matching $"@,
    )
}

proof fn lemma_unclosed(rel: Seq<char>, source: Seq<char>, line: int, what: (Severity, Seq<char>))
    ensures
        ({
            let open = texparse::scan_source(source).unclosed;
            glyphic::tells(
                Seq::new(open.len(), |k: int| glyphs::unclosed_finding(rel, source, open[k])),
                rel,
                line,
                what,
            ) <==> leaves_open(source, line, what)
        }),
{
    let open = texparse::scan_source(source).unclosed;
    let found = Seq::new(open.len(), |k: int| glyphs::unclosed_finding(rel, source, open[k]));
    if glyphic::tells(found, rel, line, what) {
        let k = choose|k: int|
            0 <= k < found.len() && (#[trigger] found[k]).file == rel && found[k].line == line
                && found[k].severity == what.0 && found[k].suggestion == Some(what.1);
        assert(found[k] == glyphs::unclosed_finding(rel, source, open[k]));
    }
    if leaves_open(source, line, what) {
        let j = choose|j: int|
            0 <= j < open.len() && line == position::line_at_byte(source, #[trigger] open[j]);
        assert(found[j] == glyphs::unclosed_finding(rel, source, open[j]));
    }
}

/// Of a file it is told exactly what is wrong with the characters of its prose and of its
/// titles, with percent signs behind digits, and with math that is never closed, each on its
/// line.
pub proof fn law_what_is_told_of_a_file(
    rel: Seq<char>,
    source: Seq<char>,
    line: int,
    what: (Severity, Seq<char>),
)
    ensures
        glyphic::tells(glyphs::file_findings(rel, source), rel, line, what) <==> (exists|n: int|
            #[trigger] token_has(source, n, line, what)) || leaves_open(source, line, what),
{
    let open = texparse::scan_source(source).unclosed;
    lemma_file(rel, source, 0, line, what);
    lemma_unclosed(rel, source, line, what);
    glyphic::lemma_tells_two(
        glyphs::token_findings(rel, source, 0, Seq::empty(), false, 0),
        Seq::new(open.len(), |k: int| glyphs::unclosed_finding(rel, source, open[k])),
        rel,
        line,
        what,
    );
}

} // verus!
