//! What is looked for in a PDF: the words of the document, the headings at the top of its
//! pages, its fonts and its dates.

use vstd::prelude::*;

use crate::chars;
use crate::linter::{FindingView, Severity};
use crate::number;
use crate::order;
use crate::pdftext::{self, FontView, InfoView};
use crate::tally;
use crate::text;
use crate::texparse::{self, TokenView};
use crate::wordcount;

verus! {

// ---------------------------------------------------------------------------
// Headings
// ---------------------------------------------------------------------------

/// Whether a text is the number of a section: digits with single dots between them or
/// behind them.
pub open spec fn is_numbering(n: Seq<char>) -> bool {
    &&& n.len() > 0
    &&& forall|i: int|
        0 <= i < n.len() ==> chars::is_digit(#[trigger] n[i]) || n[i] == '.' && i > 0
            && chars::is_digit(n[i - 1])
}

/// Whether a line is a number, white space and a title.
pub open spec fn is_numbered(line: Seq<char>, n: Seq<char>, w: Seq<char>, title: Seq<char>) -> bool {
    &&& line == n + w + title
    &&& is_numbering(n)
    &&& w.len() > 0
    &&& forall|i: int| 0 <= i < w.len() ==> chars::is_space(#[trigger] w[i])
}

proof fn lemma_digits(s: Seq<char>, i: int)
    requires
        0 <= i <= s.len(),
    ensures
        i <= pdftext::past_digits(s, i) <= s.len(),
        forall|j: int| i <= j < pdftext::past_digits(s, i) ==> chars::is_digit(#[trigger] s[j]),
        pdftext::past_digits(s, i) < s.len() ==> !chars::is_digit(s[pdftext::past_digits(s, i)]),
    decreases s.len() - i,
{
    if i < s.len() && chars::is_digit(s[i]) {
        lemma_digits(s, i + 1);
    }
}

/// From the end of a run of digits within the number, the groups end with the number.
proof fn lemma_groups_end(line: Seq<char>, n: int, i: int)
    requires
        0 < i <= n < line.len(),
        is_numbering(line.take(n)),
        chars::is_digit(line[i - 1]),
        !chars::is_digit(line[i]),
        chars::is_space(line[n]),
    ensures
        pdftext::past_groups(line, i) == n,
    decreases n - i,
{
    let num = line.take(n);
    if i < n {
        assert(num[i] == line[i]);
        assert(line[i] == '.');
        if i + 1 < n {
            assert(num[i + 1] == line[i + 1]);
            assert(chars::is_digit(line[i + 1]));
            lemma_digits(line, i + 1);
            let j = pdftext::past_digits(line, i + 1);
            assert(j <= n) by {
                if j > n {
                    assert(chars::is_digit(line[n]));
                }
            }
            assert(j > i + 1) by {
                if j == i + 1 {
                    assert(!chars::is_digit(line[j]));
                }
            }
            lemma_groups_end(line, n, j);
        } else {
            assert(!chars::is_digit(line[n]));
        }
    }
}

/// What the groups pass over behind a number is a number.
proof fn lemma_groups_number(line: Seq<char>, i: int)
    requires
        0 < i <= line.len(),
        is_numbering(line.take(i)),
        chars::is_digit(line[i - 1]),
    ensures
        i <= pdftext::past_groups(line, i) <= line.len(),
        is_numbering(line.take(pdftext::past_groups(line, i))),
    decreases line.len() - i,
{
    if i < line.len() && line[i] == '.' {
        if i + 1 < line.len() && chars::is_digit(line[i + 1]) {
            lemma_digits(line, i + 1);
            let j = pdftext::past_digits(line, i + 1);
            assert(j > i + 1);
            let num = line.take(j);
            assert forall|m: int| 0 <= m < num.len() implies chars::is_digit(#[trigger] num[m])
                || num[m] == '.' && m > 0 && chars::is_digit(num[m - 1]) by {
                if m < i {
                    assert(line.take(i)[m] == line[m]);
                    if m > 0 {
                        assert(line.take(i)[m - 1] == line[m - 1]);
                    }
                } else if m > i {
                    assert(num[m] == line[m]);
                }
            }
            lemma_groups_number(line, j);
        } else {
            let num = line.take(i + 1);
            assert forall|m: int| 0 <= m < num.len() implies chars::is_digit(#[trigger] num[m])
                || num[m] == '.' && m > 0 && chars::is_digit(num[m - 1]) by {
                if m < i {
                    assert(line.take(i)[m] == line[m]);
                    if m > 0 {
                        assert(line.take(i)[m - 1] == line[m - 1]);
                    }
                }
            }
        }
    }
}

pub proof fn lemma_spaces_off(s: Seq<char>)
    ensures
        text::trim_start(s).len() <= s.len(),
        s.skip(s.len() - text::trim_start(s).len()) == text::trim_start(s),
        forall|i: int|
            0 <= i < s.len() - text::trim_start(s).len() ==> chars::is_space(#[trigger] s[i]),
        text::trim_start(s).len() > 0 ==> !chars::is_space(text::trim_start(s)[0]),
    decreases s.len(),
{
    if s.len() > 0 && chars::is_space(s[0]) {
        lemma_spaces_off(s.skip(1));
        let n = s.len() - text::trim_start(s).len();
        assert(s.skip(1).skip(n - 1) =~= s.skip(n));
        assert forall|i: int| 0 <= i < n implies chars::is_space(#[trigger] s[i]) by {
            if i > 0 {
                assert(s[i] == s.skip(1)[i - 1]);
            }
        }
    } else {
        assert(s.skip(0) =~= s);
    }
}

/// A line is the heading of a section exactly where it is the title, or the title behind a
/// number and white space: nothing else may stand on it.
pub proof fn law_headings_stand_alone(line: Seq<char>, title: Seq<char>)
    requires
        title.len() > 0,
        !chars::is_space(title[0]),
    ensures
        pdftext::is_heading(line, title) <==> line == title || exists|n: Seq<char>, w: Seq<char>|
            #[trigger] is_numbered(line, n, w, title),
{
    if exists|n: Seq<char>, w: Seq<char>| #[trigger] is_numbered(line, n, w, title) {
        let (n, w) = choose|n: Seq<char>, w: Seq<char>| #[trigger] is_numbered(line, n, w, title);
        let k = n.len() as int;
        assert(line.take(k) =~= n);
        assert(n[0] == line[0]);
        assert(chars::is_digit(line[0]));
        assert(line[k] == w[0]);
        lemma_digits(line, 0);
        let i = pdftext::past_digits(line, 0);
        assert(i > 0);
        assert(i <= k) by {
            if i > k {
                assert(chars::is_digit(line[k]));
            }
        }
        lemma_groups_end(line, k, i);
        assert(line.skip(k) =~= w + title);
        crate::formatter::roundtrip::lemma_trim_start_is(w, title);
    }
    if pdftext::behind_number(line) == Some(title) {
        lemma_digits(line, 0);
        let d = pdftext::past_digits(line, 0);
        assert(d > 0);
        assert forall|m: int| 0 <= m < d implies chars::is_digit(#[trigger] line.take(d)[m]) by {
            assert(line.take(d)[m] == line[m]);
        }
        lemma_groups_number(line, d);
        let i = pdftext::past_groups(line, d);
        let rest = line.skip(i);
        lemma_spaces_off(rest);
        let m = rest.len() - title.len();
        let w = rest.take(m);
        assert(m > 0) by {
            assert(rest[0] == line[i]);
            if m == 0 {
                assert(rest.skip(0) =~= rest);
            }
        }
        assert(line =~= line.take(i) + w + title) by {
            assert(rest =~= w + rest.skip(m));
        }
        assert(is_numbered(line, line.take(i), w, title));
    }
}

/// Whether a heading is the first line of a page that is not blank.
pub open spec fn tops(page: Seq<char>, title: Seq<char>, j: int) -> bool {
    let ls = text::lines(page);
    &&& 0 <= j < ls.len()
    &&& pdftext::is_heading(text::trim(ls[j]), pdftext::needle(title))
    &&& forall|i: int| 0 <= i < j ==> (#[trigger] text::trim(ls[i])).len() == 0
}

proof fn lemma_heading_first(ls: Seq<Seq<char>>, k: int, title: Seq<char>, j: int)
    requires
        0 <= k <= j < ls.len(),
        pdftext::is_heading(text::trim(ls[j]), title),
        forall|i: int| k <= i < j ==> (#[trigger] text::trim(ls[i])).len() == 0,
    ensures
        pdftext::heading_first(ls, k, title),
    decreases j - k,
{
    if k < j {
        assert(text::trim(ls[k]).len() == 0);
        lemma_heading_first(ls, k + 1, title, j);
    }
}

proof fn lemma_first_heading(ls: Seq<Seq<char>>, k: int, title: Seq<char>) -> (j: int)
    requires
        0 <= k,
        pdftext::heading_first(ls, k, title),
    ensures
        k <= j < ls.len(),
        pdftext::is_heading(text::trim(ls[j]), title),
        forall|i: int| k <= i < j ==> (#[trigger] text::trim(ls[i])).len() == 0,
    decreases ls.len() - k,
{
    if pdftext::is_heading(text::trim(ls[k]), title) {
        k
    } else {
        lemma_first_heading(ls, k + 1, title)
    }
}

proof fn lemma_page_with(pages: Seq<Seq<char>>, k: int, title: Seq<char>)
    requires
        0 <= k,
    ensures
        match pdftext::page_with(pages, k, title) {
            Some(p) => k <= p < pages.len() && pdftext::title_in_page(pages[p], title) && forall|
                q: int,
            |
                k <= q < p ==> !pdftext::title_in_page(#[trigger] pages[q], title),
            None => forall|q: int|
                k <= q < pages.len() ==> !pdftext::title_in_page(#[trigger] pages[q], title),
        },
    decreases pages.len() - k,
{
    if k < pages.len() && !pdftext::title_in_page(pages[k], title) {
        lemma_page_with(pages, k + 1, title);
    }
}

/// The page on which the search for the section behind the first `i` found ones begins.
pub open spec fn searched_from(found: Seq<(int, int)>, i: int, from: int) -> int {
    if i <= 0 || i > found.len() {
        from
    } else {
        found[i - 1].0
    }
}

spec fn is_passed_over(
    pages: Seq<Seq<char>>,
    sections: Seq<(Seq<char>, Seq<char>)>,
    found: Seq<(int, int)>,
    i: int,
    q: int,
) -> bool {
    !pdftext::title_in_page(pages[q], sections[found[i].1].1)
}

spec fn at_once(
    pages: Seq<Seq<char>>,
    sections: Seq<(Seq<char>, Seq<char>)>,
    found: Seq<(int, int)>,
    from: int,
) -> bool {
    forall|i: int, q: int|
        0 <= i < found.len() && searched_from(found, i, from) <= q < found[i].0
            ==> #[trigger] is_passed_over(pages, sections, found, i, q)
}

proof fn lemma_located_first(
    pages: Seq<Seq<char>>,
    sections: Seq<(Seq<char>, Seq<char>)>,
    k: int,
    from: int,
)
    requires
        0 <= k,
        0 <= from,
    ensures
        at_once(pages, sections, pdftext::located(pages, sections, k, from), from),
    decreases sections.len() - k,
{
    if k < sections.len() {
        lemma_page_with(pages, from, sections[k].1);
        let found = pdftext::located(pages, sections, k, from);
        match pdftext::page_with(pages, from, sections[k].1) {
            Some(p) => {
                lemma_located_first(pages, sections, k + 1, p);
                let rest = pdftext::located(pages, sections, k + 1, p);
                assert(found == seq![(p, k)] + rest);
                assert forall|i: int, q: int|
                    0 <= i < found.len() && searched_from(found, i, from) <= q
                        < found[i].0 implies #[trigger] is_passed_over(
                    pages,
                    sections,
                    found,
                    i,
                    q,
                ) by {
                    if i > 0 {
                        assert(found[i] == rest[i - 1]);
                        if i > 1 {
                            assert(found[i - 1] == rest[i - 2]);
                        }
                        assert(searched_from(rest, i - 1, p) == searched_from(found, i, from));
                        assert(is_passed_over(pages, sections, rest, i - 1, q));
                    } else {
                        assert(found[0] == (p, k));
                        assert(!pdftext::title_in_page(pages[q], sections[k].1));
                    }
                }
            },
            None => {
                lemma_located_first(pages, sections, k + 1, from);
            },
        }
    }
}

/// A section is found on the first page, from that of the section found before it on, that
/// has its title.
pub proof fn law_sections_are_found_at_once(
    pages: Seq<Seq<char>>,
    sections: Seq<(Seq<char>, Seq<char>)>,
    i: int,
    q: int,
)
    requires
        0 <= i < pdftext::located(pages, sections, 0, 0).len(),
        searched_from(pdftext::located(pages, sections, 0, 0), i, 0) <= q < pdftext::located(
            pages,
            sections,
            0,
            0,
        )[i].0,
    ensures
        !pdftext::title_in_page(
            pages[q],
            sections[pdftext::located(pages, sections, 0, 0)[i].1].1,
        ),
{
    lemma_located_first(pages, sections, 0, 0);
    let found = pdftext::located(pages, sections, 0, 0);
    assert(is_passed_over(pages, sections, found, i, q));
}

proof fn lemma_first_on_is(found: Seq<(int, int)>, j: int, i: int)
    requires
        0 <= j <= i < found.len(),
        forall|m: int| j <= m < i ==> (#[trigger] found[m]).0 != found[i].0,
    ensures
        pdftext::first_on(found, j, found[i].0) == Some(found[i].1),
    decreases i - j,
{
    if j < i {
        assert(found[j].0 != found[i].0);
        lemma_first_on_is(found, j + 1, i);
    }
}

proof fn lemma_first_on_none(found: Seq<(int, int)>, j: int, page: int)
    requires
        0 <= j,
        forall|m: int| j <= m < found.len() ==> (#[trigger] found[m]).0 != page,
    ensures
        pdftext::first_on(found, j, page) is None,
    decreases found.len() - j,
{
    if j < found.len() {
        lemma_first_on_none(found, j + 1, page);
    }
}

/// A page belongs to the first section that begins on it where that heading is the first
/// line that is not blank, or no section began before; else to the section of the page
/// before. A page on which none begins belongs to the section of the page before.
pub proof fn law_pages_belong_to_what_is_at_their_top(
    pages: Seq<Seq<char>>,
    sections: Seq<(Seq<char>, Seq<char>)>,
    k: int,
)
    requires
        0 <= k < pages.len(),
    ensures
        ({
            let found = pdftext::located(pages, sections, 0, 0);
            let before = pdftext::opener(pages, sections, k - 1);
            let now = pdftext::opener(pages, sections, k);
            &&& forall|i: int|
                #![trigger found[i]]
                0 <= i < found.len() && found[i].0 == k && (forall|m: int|
                    0 <= m < i ==> (#[trigger] found[m]).0 != k) ==> now == if before is None
                    || pdftext::needle(sections[found[i].1].1).len() > 0 && exists|j: int|
                    #[trigger] tops(pages[k], sections[found[i].1].1, j) {
                    Some(found[i].1)
                } else {
                    before
                }
            &&& (forall|m: int| 0 <= m < found.len() ==> (#[trigger] found[m]).0 != k) ==> now
                == before
        }),
{
    let found = pdftext::located(pages, sections, 0, 0);
    assert forall|i: int|
        #![trigger found[i]]
        0 <= i < found.len() && found[i].0 == k && (forall|m: int|
            0 <= m < i ==> (#[trigger] found[m]).0 != k) implies pdftext::opener(
        pages,
        sections,
        k,
    ) == if pdftext::opener(pages, sections, k - 1) is None || pdftext::needle(
        sections[found[i].1].1,
    ).len() > 0 && exists|j: int| #[trigger] tops(pages[k], sections[found[i].1].1, j) {
        Some(found[i].1)
    } else {
        pdftext::opener(pages, sections, k - 1)
    } by {
        lemma_first_on_is(found, 0, i);
        let title = sections[found[i].1].1;
        let ls = text::lines(pages[k]);
        if exists|j: int| #[trigger] tops(pages[k], title, j) {
            let j = choose|j: int| #[trigger] tops(pages[k], title, j);
            lemma_heading_first(ls, 0, pdftext::needle(title), j);
        }
        if pdftext::heading_first(ls, 0, pdftext::needle(title)) {
            let j = lemma_first_heading(ls, 0, pdftext::needle(title));
            assert(tops(pages[k], title, j));
        }
    }
    if forall|m: int| 0 <= m < found.len() ==> (#[trigger] found[m]).0 != k {
        lemma_first_on_none(found, 0, k);
    }
}

// ---------------------------------------------------------------------------
// Words
// ---------------------------------------------------------------------------

/// Whether a character is punctuation around a word: no letter, no digit, no hyphen and no
/// apostrophe.
pub open spec fn is_outside(c: char) -> bool {
    !(chars::alphanumeric(c) || c == '-' || c == '\'')
}

/// Whether a row of characters is `m` with punctuation around it.
pub open spec fn is_within(x: Seq<char>, p: Seq<char>, m: Seq<char>, q: Seq<char>) -> bool {
    &&& x == p + m + q
    &&& forall|i: int| 0 <= i < p.len() ==> is_outside(#[trigger] p[i])
    &&& forall|i: int| 0 <= i < q.len() ==> is_outside(#[trigger] q[i])
    &&& m.len() > 0
    &&& !is_outside(m[0])
    &&& !is_outside(m.last())
}

/// Whether a row of characters brings a word: it has a letter, and is what remains without
/// the punctuation around it and without empty groups.
pub open spec fn brings(x: Seq<char>, w: Seq<char>) -> bool {
    &&& exists|i: int| 0 <= i < w.len() && chars::alphabetic(#[trigger] w[i])
    &&& exists|p: Seq<char>, m: Seq<char>, q: Seq<char>|
        #[trigger] is_within(x, p, m, q) && w == text::replace(m, "{}"@, Seq::empty())
}

proof fn lemma_edge_start(p: Seq<char>, t: Seq<char>)
    requires
        forall|i: int| 0 <= i < p.len() ==> is_outside(#[trigger] p[i]),
        t.len() > 0 ==> !is_outside(t[0]),
    ensures
        pdftext::trim_edge_start(p + t) == t,
    decreases p.len(),
{
    if p.len() == 0 {
        assert(p + t =~= t);
    } else {
        assert((p + t)[0] == p[0]);
        assert((p + t).skip(1) =~= p.skip(1) + t);
        lemma_edge_start(p.skip(1), t);
    }
}

proof fn lemma_edge_end(t: Seq<char>, q: Seq<char>)
    requires
        forall|i: int| 0 <= i < q.len() ==> is_outside(#[trigger] q[i]),
        t.len() > 0 ==> !is_outside(t.last()),
    ensures
        pdftext::trim_edge_end(t + q) == t,
    decreases q.len(),
{
    if q.len() == 0 {
        assert(t + q =~= t);
    } else {
        assert((t + q).last() == q.last());
        assert((t + q).drop_last() =~= t + q.drop_last());
        lemma_edge_end(t, q.drop_last());
    }
}

proof fn lemma_edges_off_start(s: Seq<char>)
    ensures
        ({
            let t = pdftext::trim_edge_start(s);
            let n = s.len() - t.len();
            &&& 0 <= n
            &&& s == s.take(n) + t
            &&& forall|i: int| 0 <= i < n ==> is_outside(#[trigger] s[i])
            &&& t.len() > 0 ==> !is_outside(t[0])
        }),
    decreases s.len(),
{
    let t = pdftext::trim_edge_start(s);
    if s.len() > 0 && pdftext::is_edge(s[0]) {
        lemma_edges_off_start(s.skip(1));
        let n = s.len() - t.len();
        assert forall|i: int| 0 <= i < n implies is_outside(#[trigger] s[i]) by {
            if i > 0 {
                assert(s[i] == s.skip(1)[i - 1]);
            }
        }
        assert(s =~= seq![s[0]] + s.skip(1));
        assert(s.take(n) =~= seq![s[0]] + s.skip(1).take(n - 1));
        assert(s =~= s.take(n) + t);
    } else {
        assert(s =~= s.take(0) + t);
    }
}

proof fn lemma_edges_off_end(s: Seq<char>)
    ensures
        ({
            let t = pdftext::trim_edge_end(s);
            let n = t.len() as int;
            &&& n <= s.len()
            &&& s == t + s.skip(n)
            &&& forall|i: int| n <= i < s.len() ==> is_outside(#[trigger] s[i])
            &&& n > 0 ==> !is_outside(t.last())
        }),
    decreases s.len(),
{
    let t = pdftext::trim_edge_end(s);
    let n = t.len() as int;
    if s.len() > 0 && pdftext::is_edge(s.last()) {
        lemma_edges_off_end(s.drop_last());
        assert forall|i: int| n <= i < s.len() implies is_outside(#[trigger] s[i]) by {
            if i < s.len() - 1 {
                assert(s[i] == s.drop_last()[i]);
            }
        }
        assert(s =~= s.drop_last().push(s.last()));
        assert(s.skip(n) =~= s.drop_last().skip(n).push(s.last()));
        assert(s =~= t + s.skip(n));
    } else {
        assert(s =~= t + s.skip(n));
    }
}

proof fn lemma_brings(x: Seq<char>, w: Seq<char>)
    ensures
        brings(x, w) <==> w == pdftext::bare_word(x) && wordcount::is_word(w),
{
    if brings(x, w) {
        let (p, m, q) = choose|p: Seq<char>, m: Seq<char>, q: Seq<char>|
            #[trigger] is_within(x, p, m, q) && w == text::replace(m, "{}"@, Seq::empty());
        assert(x =~= p + (m + q));
        assert((m + q)[0] == m[0]);
        lemma_edge_start(p, m + q);
        lemma_edge_end(m, q);
    }
    if w == pdftext::bare_word(x) && wordcount::is_word(w) {
        let s = pdftext::trim_edge_start(x);
        let m = pdftext::trim_edge_end(s);
        lemma_edges_off_start(x);
        lemma_edges_off_end(s);
        let p = x.take(x.len() - s.len());
        let q = s.skip(m.len() as int);
        assert(m.len() > 0) by {
            if m.len() == 0 {
                assert(m =~= Seq::<char>::empty());
                reveal_strlit("{}");
                text::lemma_find_bounds(m, "{}"@, 0);
            }
        }
        assert(m[0] == s[0]);
        assert(x =~= p + m + q);
        assert(is_within(x, p, m, q));
    }
}

proof fn lemma_bare_words(runs: Seq<Seq<char>>, k: int, w: Seq<char>)
    requires
        0 <= k,
    ensures
        pdftext::bare_words(runs, k).contains(w) <==> exists|i: int|
            k <= i < runs.len() && brings(#[trigger] runs[i], w),
    decreases runs.len() - k,
{
    if k < runs.len() {
        lemma_bare_words(runs, k + 1, w);
        lemma_brings(runs[k], w);
        let rest = pdftext::bare_words(runs, k + 1);
        let all = pdftext::bare_words(runs, k);
        let own = pdftext::bare_word(runs[k]);
        if wordcount::is_word(own) {
            assert(all == seq![own] + rest);
            if rest.contains(w) {
                let j = choose|j: int| 0 <= j < rest.len() && rest[j] == w;
                assert(all[j + 1] == w);
            }
            if w == own {
                assert(all[0] == w);
            }
            if all.contains(w) {
                let j = choose|j: int| 0 <= j < all.len() && all[j] == w;
                if j > 0 {
                    assert(rest[j - 1] == w);
                } else {
                    assert(brings(runs[k], w));
                }
            }
        }
        if all.contains(w) && rest.contains(w) {
            let i = choose|i: int| k + 1 <= i < runs.len() && brings(#[trigger] runs[i], w);
            assert(brings(runs[i], w));
        }
    }
}

/// Whether prose brings a word.
pub open spec fn prose_brings(t: Seq<char>, w: Seq<char>) -> bool {
    exists|i: int| 0 <= i < text::words(t).len() && brings(#[trigger] text::words(t)[i], w)
}

/// Whether a token of an open document brings a word: prose does, and a heading does by its
/// title.
pub open spec fn token_brings(t: TokenView, w: Seq<char>) -> bool {
    match t {
        TokenView::Text(x) => prose_brings(x, w),
        TokenView::Section { title, .. } => exists|i: int|
            0 <= i < texparse::tokens_of(title).len() && (
            #[trigger] texparse::tokens_of(title)[i] matches TokenView::Text(x) && prose_brings(
                x,
                w,
            )),
        _ => false,
    }
}

/// Whether the document is open before the `k`-th token: it began, and did not end since.
pub open spec fn is_open(ts: Seq<TokenView>, k: int) -> bool {
    exists|d: int| #[trigger] opened(ts, d, k)
}

/// Whether the document began at the `d`-th token and did not end before the `k`-th.
pub open spec fn opened(ts: Seq<TokenView>, d: int, k: int) -> bool {
    &&& 0 <= d < k
    &&& d < ts.len()
    &&& ts[d] is BeginDocument
    &&& forall|e: int| d < e < k ==> !(#[trigger] ts[e] is EndDocument)
}

proof fn lemma_open(ts: Seq<TokenView>, k: int)
    requires
        0 <= k <= ts.len(),
    ensures
        pdftext::open_at(ts, k, false) == is_open(ts, k),
    decreases k,
{
    if k > 0 {
        lemma_open(ts, k - 1);
        let t = ts[k - 1];
        if t is BeginDocument {
            assert(opened(ts, k - 1, k));
        } else if t is EndDocument {
            if is_open(ts, k) {
                let d = choose|d: int| #[trigger] opened(ts, d, k);
                assert(d != k - 1);
                assert(!(ts[k - 1] is EndDocument));
            }
        } else {
            if is_open(ts, k - 1) {
                let d = choose|d: int| #[trigger] opened(ts, d, k - 1);
                assert(opened(ts, d, k));
            }
            if is_open(ts, k) {
                let d = choose|d: int| #[trigger] opened(ts, d, k);
                assert(opened(ts, d, k - 1));
            }
        }
    } else if is_open(ts, k) {
        let d = choose|d: int| #[trigger] opened(ts, d, k);
        assert(false);
    }
}

proof fn lemma_in_either(a: Seq<Seq<char>>, b: Seq<Seq<char>>, w: Seq<char>)
    ensures
        (a + b).contains(w) <==> a.contains(w) || b.contains(w),
{
    if a.contains(w) {
        let j = choose|j: int| 0 <= j < a.len() && a[j] == w;
        assert((a + b)[j] == w);
    }
    if b.contains(w) {
        let j = choose|j: int| 0 <= j < b.len() && b[j] == w;
        assert((a + b)[a.len() + j] == w);
    }
    if (a + b).contains(w) {
        let j = choose|j: int| 0 <= j < (a + b).len() && (a + b)[j] == w;
        if j < a.len() {
            assert(a[j] == w);
        } else {
            assert(b[j - a.len()] == w);
        }
    }
}

spec fn text_brings(t: TokenView, w: Seq<char>) -> bool {
    t matches TokenView::Text(x) && prose_brings(x, w)
}

proof fn lemma_prose(ts: Seq<TokenView>, k: int, w: Seq<char>)
    requires
        0 <= k,
    ensures
        pdftext::prose(ts, k).contains(w) <==> exists|i: int|
            k <= i < ts.len() && text_brings(#[trigger] ts[i], w),
    decreases ts.len() - k,
{
    if k < ts.len() {
        lemma_prose(ts, k + 1, w);
        if let TokenView::Text(x) = ts[k] {
            lemma_bare_words(text::words(x), 0, w);
            lemma_in_either(pdftext::run_words(x), pdftext::prose(ts, k + 1), w);
            if pdftext::run_words(x).contains(w) {
                assert(text_brings(ts[k], w));
            }
        }
        if pdftext::prose(ts, k + 1).contains(w) {
            let i = choose|i: int| k + 1 <= i < ts.len() && text_brings(#[trigger] ts[i], w);
            assert(text_brings(ts[i], w));
        }
    }
}

proof fn lemma_token(t: TokenView, w: Seq<char>)
    ensures
        pdftext::token_words(t, true).contains(w) <==> token_brings(t, w),
        !pdftext::token_words(t, false).contains(w),
{
    match t {
        TokenView::Text(x) => {
            lemma_bare_words(text::words(x), 0, w);
        },
        TokenView::Section { title, .. } => {
            let own = texparse::tokens_of(title);
            lemma_prose(own, 0, w);
            if pdftext::prose(own, 0).contains(w) {
                let i = choose|i: int| 0 <= i < own.len() && text_brings(#[trigger] own[i], w);
                assert(own[i] matches TokenView::Text(x) && prose_brings(x, w));
            }
            if token_brings(t, w) {
                let i = choose|i: int|
                    0 <= i < own.len() && (#[trigger] own[i] matches TokenView::Text(x)
                        && prose_brings(x, w));
                assert(text_brings(own[i], w));
            }
        },
        _ => {},
    }
}

proof fn lemma_stream_words(ts: Seq<TokenView>, k: int, w: Seq<char>)
    requires
        0 <= k <= ts.len(),
    ensures
        pdftext::file_words(ts, k, false).contains(w) <==> exists|i: int|
            0 <= i < k && is_open(ts, i) && token_brings(#[trigger] ts[i], w),
    decreases k,
{
    if k > 0 {
        lemma_stream_words(ts, k - 1, w);
        lemma_open(ts, k - 1);
        lemma_token(ts[k - 1], w);
        lemma_in_either(
            pdftext::file_words(ts, k - 1, false),
            pdftext::token_words(ts[k - 1], pdftext::open_at(ts, k - 1, false)),
            w,
        );
        if pdftext::file_words(ts, k - 1, false).contains(w) {
            let i = choose|i: int|
                0 <= i < k - 1 && is_open(ts, i) && token_brings(#[trigger] ts[i], w);
            assert(token_brings(ts[i], w));
        }
        if is_open(ts, k - 1) && token_brings(ts[k - 1], w) {
            let t = ts[k - 1];
            assert(token_brings(t, w));
        }
    }
}

proof fn lemma_words_join(a: Seq<TokenView>, b: Seq<TokenView>, k: int)
    requires
        0 <= k <= b.len(),
    ensures
        pdftext::open_at(a + b, a.len() + k, false) == pdftext::open_at(
            b,
            k,
            pdftext::open_at(a, a.len() as int, false),
        ),
        pdftext::file_words(a + b, a.len() + k, false) == pdftext::file_words(
            a,
            a.len() as int,
            false,
        ) + pdftext::file_words(b, k, pdftext::open_at(a, a.len() as int, false)),
    decreases k,
{
    let o = pdftext::open_at(a, a.len() as int, false);
    if k == 0 {
        lemma_words_within(a, b, a.len() as int);
        assert(pdftext::file_words(a + b, a.len() as int, false) =~= pdftext::file_words(
            a,
            a.len() as int,
            false,
        ) + pdftext::file_words(b, 0, o));
    } else {
        lemma_words_join(a, b, k - 1);
        assert((a + b)[a.len() + k - 1] == b[k - 1]);
        assert(pdftext::file_words(a + b, a.len() + k, false) =~= pdftext::file_words(
            a,
            a.len() as int,
            false,
        ) + pdftext::file_words(b, k, o));
    }
}

proof fn lemma_words_within(a: Seq<TokenView>, b: Seq<TokenView>, k: int)
    requires
        0 <= k <= a.len(),
    ensures
        pdftext::open_at(a + b, k, false) == pdftext::open_at(a, k, false),
        pdftext::file_words(a + b, k, false) == pdftext::file_words(a, k, false),
    decreases k,
{
    if k > 0 {
        lemma_words_within(a, b, k - 1);
        assert((a + b)[k - 1] == a[k - 1]);
    }
}

proof fn lemma_document_stream(files: Seq<(Seq<char>, Seq<TokenView>)>, k: int)
    requires
        0 <= k <= files.len(),
    ensures
        ({
            let ts = tally::stream(files.take(k));
            &&& pdftext::document_words(files, k) == pdftext::file_words(
                ts,
                ts.len() as int,
                false,
            )
            &&& pdftext::open_files(files, k) == pdftext::open_at(ts, ts.len() as int, false)
        }),
    decreases k,
{
    if k > 0 {
        lemma_document_stream(files, k - 1);
        assert(files.take(k).drop_last() =~= files.take(k - 1));
        let before = tally::stream(files.take(k - 1));
        let own = files[k - 1].1;
        lemma_words_join(before, own, own.len() as int);
    }
}

/// The words of a document are those of its prose and its headings while the document is
/// open, and no others; its files are one stream.
pub proof fn law_words_of_the_document(files: Seq<(Seq<char>, Seq<TokenView>)>, w: Seq<char>)
    ensures
        pdftext::document_words(files, files.len() as int).contains(w) <==> exists|i: int|
            0 <= i < tally::stream(files).len() && is_open(tally::stream(files), i)
                && token_brings(#[trigger] tally::stream(files)[i], w),
{
    assert(files.take(files.len() as int) =~= files);
    lemma_document_stream(files, files.len() as int);
    lemma_stream_words(tally::stream(files), tally::stream(files).len() as int, w);
}

/// A word of the document is told as missing exactly where the text of the PDF does not
/// contain it, with how often it occurs.
pub proof fn law_missing_words_are_told(
    files: Seq<(Seq<char>, Seq<TokenView>)>,
    pdf: Seq<char>,
    w: Seq<char>,
    n: int,
)
    ensures
        ({
            let words = pdftext::document_words(files, files.len() as int);
            pdftext::missing(pdftext::tallied(words), pdf, 0).contains((w, n)) <==> {
                &&& words.contains(w)
                &&& n == wordcount::capped(pdftext::occurrences(words, w))
                &&& !text::contains(pdf, w)
            }
        }),
{
    let words = pdftext::document_words(files, files.len() as int);
    let counts = pdftext::tallied(words);
    pdftext::law_missing(counts, pdf, 0, (w, n));
    pdftext::law_tally(words, w);
    if exists|i: int| 0 <= i < counts.len() && #[trigger] counts[i] == (w, n) {
        let i = choose|i: int| 0 <= i < counts.len() && #[trigger] counts[i] == (w, n);
        assert(pdftext::keys(counts)[i] == w);
        order::lemma_ascending_at(pdftext::keys(counts), i);
    }
    if pdftext::is_counted(counts, w) {
        order::lemma_ascending_place(pdftext::keys(counts), w);
        let i = pdftext::slot(counts, w) - 1;
        assert(counts[i] == (w, pdftext::count_of(counts, w)));
    }
}

// ---------------------------------------------------------------------------
// Ligatures, fonts and dates
// ---------------------------------------------------------------------------

/// A text between grave accents.
pub open spec fn quoted(t: Seq<char>) -> Seq<char> {
    seq!['`'] + t + seq!['`']
}

/// Two parts of a word with an empty group between them.
pub open spec fn broken(a: Seq<char>, b: Seq<char>) -> Seq<char> {
    a + seq!['{', '}'] + b
}

proof fn lemma_first_pair(lower: Seq<char>, k: int, j: int)
    requires
        0 <= k <= j < lower.len(),
        pdftext::is_pair_at(lower, j),
        forall|i: int| k <= i < j ==> !#[trigger] pdftext::is_pair_at(lower, i),
    ensures
        pdftext::first_pair(lower, k) == Some(j),
    decreases j - k,
{
    if k < j {
        lemma_first_pair(lower, k + 1, j);
    }
}

/// Whether two letters are set as a ligature: an `f` before another, an `i` or an `l`, small
/// or capital.
pub open spec fn is_ligature(a: char, b: char) -> bool {
    (a == 'f' || a == 'F') && (b == 'f' || b == 'F' || b == 'i' || b == 'I' || b == 'l' || b == 'L')
}

proof fn lemma_pair(word: Seq<char>, k: int)
    requires
        0 <= k,
    ensures
        pdftext::is_pair_at(chars::ascii_lower(word), k) <==> k + 1 < word.len() && is_ligature(
            word[k],
            word[k + 1],
        ),
{
}

/// The advice on a missing word is to write it with an empty group between the two letters
/// of its first ligature.
pub proof fn law_first_ligature_is_broken(a: Seq<char>, b: Seq<char>)
    requires
        a.len() > 0,
        b.len() > 0,
        is_ligature(a.last(), b[0]),
        forall|i: int| 0 <= i < a.len() - 1 ==> !is_ligature(#[trigger] a[i], a[i + 1]),
    ensures
        exists|x: Seq<char>, y: Seq<char>|
            pdftext::break_advice(a + b) == #[trigger] (x + quoted(broken(a, b)) + y),
{
    let word = a + b;
    let k = a.len() - 1;
    let lower = chars::ascii_lower(word);
    assert forall|i: int| 0 <= i < k implies !#[trigger] pdftext::is_pair_at(lower, i) by {
        lemma_pair(word, i);
        assert(word[i] == a[i] && word[i + 1] == a[i + 1]);
        assert(!is_ligature(a[i], a[i + 1]));
    }
    lemma_pair(word, k);
    lemma_first_pair(lower, 0, k);
    assert(word.take(k + 1) =~= a);
    assert(word.skip(k + 1) =~= b);
    let head = "Break the ligature in the source with an empty group: `"@;
    let tail =
        "` (microtype/\\DisableLigatures and fontspec Ligatures=NoCommon do not work under Tectonic)"@;
    reveal_strlit("Break the ligature in the source with an empty group: `");
    reveal_strlit(
        "` (microtype/\\DisableLigatures and fontspec Ligatures=NoCommon do not work under Tectonic)",
    );
    reveal_strlit("{}");
    let x = head.drop_last();
    let y = tail.skip(1);
    assert(head =~= x + seq!['`']);
    assert(tail =~= seq!['`'] + y);
    assert("{}"@ =~= seq!['{', '}']);
    assert(pdftext::break_advice(word) =~= x + quoted(broken(a, b)) + y);
}

/// The advice on words without ligature is one and the same: none is told to be broken at a
/// place of its own.
pub proof fn law_no_ligature_no_break(v: Seq<char>, w: Seq<char>)
    requires
        forall|i: int| 0 <= i < v.len() - 1 ==> !is_ligature(#[trigger] v[i], v[i + 1]),
        forall|i: int| 0 <= i < w.len() - 1 ==> !is_ligature(#[trigger] w[i], w[i + 1]),
    ensures
        pdftext::break_advice(v) == pdftext::break_advice(w),
{
    lemma_no_pair(v, 0);
    lemma_no_pair(w, 0);
}

proof fn lemma_no_pair(word: Seq<char>, k: int)
    requires
        0 <= k,
        forall|i: int| 0 <= i < word.len() - 1 ==> !is_ligature(#[trigger] word[i], word[i + 1]),
    ensures
        pdftext::first_pair(chars::ascii_lower(word), k) is None,
    decreases word.len() - k,
{
    if k < word.len() {
        lemma_pair(word, k);
        if k + 1 < word.len() {
            assert(!is_ligature(word[k], word[k + 1]));
        }
        lemma_no_pair(word, k + 1);
    }
}

/// Whether a text is made of a number of decimal digits.
pub open spec fn are_digits(t: Seq<char>, n: int) -> bool {
    t.len() == n && forall|i: int| 0 <= i < t.len() ==> chars::is_digit(#[trigger] t[i])
}

/// A date is `D:`, the fourteen digits from the year to the second, and nothing, `Z`, or the
/// distance from universal time in hours and minutes.
pub proof fn law_dates(s: Seq<char>)
    ensures
        pdftext::is_date(s) <==> exists|d: Seq<char>, z: Seq<char>| #[trigger] is_dated(s, d, z),
{
    if pdftext::is_date(s) {
        let d = s.subrange(2, 16);
        let z = s.skip(16);
        assert(s =~= seq!['D', ':'] + d + z);
        assert forall|i: int| 0 <= i < d.len() implies chars::is_digit(#[trigger] d[i]) by {
            assert(d[i] == s[i + 2]);
        }
        if z.len() == 7 {
            let h = z.subrange(1, 3);
            let m = z.subrange(4, 6);
            assert(h[0] == z[1] && h[1] == z[2] && m[0] == z[4] && m[1] == z[5]);
            assert(z =~= seq![z[0]] + h + seq!['\''] + m + seq!['\'']);
            assert(is_distance(z, h, m));
        }
        assert(z.len() == 0 ==> z =~= Seq::<char>::empty());
        assert(is_dated(s, d, z));
    }
    if exists|d: Seq<char>, z: Seq<char>| #[trigger] is_dated(s, d, z) {
        let (d, z) = choose|d: Seq<char>, z: Seq<char>| #[trigger] is_dated(s, d, z);
        assert(s.skip(16) =~= z);
        assert forall|i: int| 2 <= i < 16 implies chars::is_digit(#[trigger] s[i]) by {
            assert(s[i] == d[i - 2]);
        }
        if exists|h: Seq<char>, m: Seq<char>| #[trigger] is_distance(z, h, m) {
            let (h, m) = choose|h: Seq<char>, m: Seq<char>| #[trigger] is_distance(z, h, m);
            assert(z.len() == 7);
            assert(z[1] == h[0] && z[2] == h[1] && z[3] == '\'' && z[4] == m[0] && z[5] == m[1]
                && z[6] == '\'');
        }
    }
}

/// Whether a text is a distance from universal time: a sign, two digits, an apostrophe, two
/// digits and an apostrophe.
pub open spec fn is_distance(z: Seq<char>, h: Seq<char>, m: Seq<char>) -> bool {
    &&& are_digits(h, 2)
    &&& are_digits(m, 2)
    &&& z == seq!['+'] + h + seq!['\''] + m + seq!['\''] || z == seq!['-'] + h + seq!['\''] + m
        + seq!['\'']
}

/// Whether a text is a date with the digits `d` and the zone `z`.
pub open spec fn is_dated(s: Seq<char>, d: Seq<char>, z: Seq<char>) -> bool {
    &&& s == seq!['D', ':'] + d + z
    &&& are_digits(d, 14)
    &&& z == Seq::<char>::empty() || z == seq!['Z'] || z == seq!['z'] || exists|
        h: Seq<char>,
        m: Seq<char>,
    | #[trigger] is_distance(z, h, m)
}

proof fn lemma_fonts_told(fonts: Seq<FontView>, k: int, i: int)
    requires
        0 <= k <= i < fonts.len(),
        !fonts[i].embedded,
        fonts[i].pages.len() > 0,
    ensures
        exists|j: int|
            0 <= j < pdftext::font_findings(fonts, k).len() && is_about_font(
                #[trigger] pdftext::font_findings(fonts, k)[j],
                fonts[i],
            ),
    decreases i - k,
{
    let all = pdftext::font_findings(fonts, k);
    let rest = pdftext::font_findings(fonts, k + 1);
    if k < i {
        lemma_fonts_told(fonts, k + 1, i);
        let j = choose|j: int| 0 <= j < rest.len() && is_about_font(#[trigger] rest[j], fonts[i]);
        if !fonts[k].embedded && fonts[k].pages.len() > 0 {
            assert(all[j + 1] == rest[j]);
        } else {
            assert(all[j] == rest[j]);
        }
    } else {
        lemma_font_finding(fonts[i]);
        assert(all[0] == pdftext::font_finding(fonts[i]));
    }
}

/// The numbers of pages, with commas between them.
pub open spec fn pages_written(pages: Seq<usize>) -> Seq<char> {
    text::join(Seq::new(pages.len(), |i: int| number::decimal(pages[i] as nat)), seq![',', ' '])
}

/// Whether a warning names a font and the pages that it is on.
pub open spec fn is_about_font(x: FindingView, f: FontView) -> bool {
    &&& x.severity == Severity::Warning
    &&& exists|a: Seq<char>, b: Seq<char>, c: Seq<char>|
        x.message == #[trigger] (a + quoted(f.name) + b + pages_written(f.pages)
            + c)
}

proof fn lemma_font_finding(f: FontView)
    requires
        f.pages.len() > 0,
    ensures
        is_about_font(pdftext::font_finding(f), f),
{
    reveal_strlit("font `");
    reveal_strlit("` is referenced but not embedded (pages: ");
    reveal_strlit(", ");
    assert(", "@ =~= seq![',', ' ']);
    let head = "font `"@;
    let mid = "` is referenced but not embedded (pages: "@;
    let a = head.drop_last();
    let b = mid.skip(1);
    assert(head =~= a + seq!['`']);
    assert(mid =~= seq!['`'] + b);
    let pages = Seq::new(f.pages.len(), |i: int| number::decimal(f.pages[i] as nat));
    assert(pages =~= pdftext::page_texts(f.pages));
    assert(pdftext::font_finding(f).message =~= a + quoted(f.name) + b
        + pages_written(f.pages) + ")"@);
}

/// Every font that a page refers to and that is not embedded is told, with its name and its
/// pages.
pub proof fn law_absent_fonts_are_told(info: InfoView, i: int)
    requires
        0 <= i < info.fonts.len(),
        !info.fonts[i].embedded,
        info.fonts[i].pages.len() > 0,
    ensures
        exists|j: int|
            0 <= j < pdftext::quality(info).len() && is_about_font(
                #[trigger] pdftext::quality(info)[j],
                info.fonts[i],
            ),
{
    lemma_fonts_told(info.fonts, 0, i);
    let own = pdftext::font_findings(info.fonts, 0);
    let j = choose|j: int| 0 <= j < own.len() && is_about_font(#[trigger] own[j], info.fonts[i]);
    assert(pdftext::quality(info)[j] == own[j]);
}

} // verus!
