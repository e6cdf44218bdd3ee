//! What the counts of a document mean: which words belong to which section.

use vstd::prelude::*;

use crate::chars;
use crate::number;
use crate::text;
use crate::texparse::{self, TokenView};
use crate::wordcount::{self, Counter};

verus! {

// ---------------------------------------------------------------------------
// Words
// ---------------------------------------------------------------------------

/// How many letters of a text, from `i` on, are the first letter of the row of characters
/// between white space in which they stand; `seen` says whether the row at `i` has had one.
pub open spec fn first_letters(x: Seq<char>, i: int, seen: bool) -> nat
    decreases x.len() - i,
{
    if i < 0 || i >= x.len() {
        0
    } else if chars::is_space(x[i]) {
        first_letters(x, i + 1, false)
    } else if chars::alphabetic(x[i]) && !seen {
        1 + first_letters(x, i + 1, true)
    } else {
        first_letters(x, i + 1, seen)
    }
}

/// The words of a token: those of its text, where it is prose.
pub open spec fn token_words(t: TokenView) -> nat {
    match t {
        TokenView::Text(x) => first_letters(x, 0, false),
        _ => 0,
    }
}

/// The words of the tokens from the `a`-th up to the `b`-th.
pub open spec fn words_between(ts: Seq<TokenView>, a: int, b: int) -> nat
    decreases b - a,
{
    if b <= a {
        0
    } else {
        words_between(ts, a, b - 1) + token_words(ts[b - 1])
    }
}

/// The words of a title: those of its prose.
pub open spec fn words_of_title(title: Seq<char>) -> nat {
    let ts = texparse::tokens_of(title);
    words_between(ts, 0, ts.len() as int)
}

proof fn lemma_letters_behind(a: Seq<char>, y: Seq<char>, i: int, seen: bool)
    requires
        0 <= i <= y.len(),
    ensures
        first_letters(a + y, a.len() + i, seen) == first_letters(y, i, seen),
    decreases y.len() - i,
{
    if i < y.len() {
        assert((a + y)[a.len() + i] == y[i]);
        lemma_letters_behind(a, y, i + 1, false);
        lemma_letters_behind(a, y, i + 1, true);
        lemma_letters_behind(a, y, i + 1, seen);
    }
}

proof fn lemma_letters_over_space(s: Seq<char>)
    ensures
        first_letters(s, 0, false) == first_letters(text::trim_start(s), 0, false),
    decreases s.len(),
{
    if s.len() > 0 && chars::is_space(s[0]) {
        lemma_letters_over_space(s.skip(1));
        assert(s =~= s.take(1) + s.skip(1));
        lemma_letters_behind(s.take(1), s.skip(1), 0, false);
    }
}

/// The letters of a row that is followed by white space or by nothing.
proof fn lemma_letters_of_row(t: Seq<char>, n: int, i: int, seen: bool)
    requires
        0 <= i <= n <= t.len(),
        forall|j: int| 0 <= j < n ==> !chars::is_space(#[trigger] t[j]),
        n < t.len() ==> chars::is_space(t[n]),
        seen <==> exists|j: int| 0 <= j < i && chars::alphabetic(#[trigger] t[j]),
    ensures
        first_letters(t, i, seen) == first_letters(t.skip(n), 0, false) + if !seen && exists|j: int|
            0 <= j < n && chars::alphabetic(#[trigger] t[j]) {
            1nat
        } else {
            0
        },
    decreases n - i,
{
    if i < n {
        let now = seen || chars::alphabetic(t[i]);
        assert(now <==> exists|j: int| 0 <= j < i + 1 && chars::alphabetic(#[trigger] t[j])) by {
            if exists|j: int| 0 <= j < i + 1 && chars::alphabetic(#[trigger] t[j]) {
                let j = choose|j: int| 0 <= j < i + 1 && chars::alphabetic(#[trigger] t[j]);
                if j < i {
                    assert(seen);
                }
            }
        }
        assert(!chars::is_space(t[i]));
        lemma_letters_of_row(t, n, i + 1, now);
    } else {
        assert(t =~= t.take(n) + t.skip(n));
        lemma_letters_behind(t.take(n), t.skip(n), 0, seen);
        if n < t.len() {
            assert(t.skip(n)[0] == t[n]);
        }
    }
}

proof fn lemma_words_from_behind(w: Seq<char>, more: Seq<Seq<char>>, k: int)
    requires
        0 <= k,
    ensures
        wordcount::words_from(seq![w] + more, k + 1) == wordcount::words_from(more, k),
    decreases more.len() - k,
{
    if k < more.len() {
        assert((seq![w] + more)[k + 1] == more[k]);
        lemma_words_from_behind(w, more, k + 1);
    }
}

/// The number of words in a text is the number of its rows of characters between white
/// space that have a letter, however much white space there is.
pub proof fn law_words_are_rows_with_letters(s: Seq<char>)
    ensures
        wordcount::word_count(s) == first_letters(s, 0, false),
    decreases s.len(),
{
    let t = text::trim_start(s);
    text::lemma_trim_start_len(s);
    lemma_letters_over_space(s);
    if t.len() > 0 {
        text::lemma_word_len(t);
        let n = text::word_len(t);
        let w = t.take(n);
        let rest = t.skip(n);
        law_words_are_rows_with_letters(rest);
        lemma_words_from_behind(w, text::words(rest), 0);
        assert(text::words(s) == seq![w] + text::words(rest));
        lemma_letters_of_row(t, n, 0, false);
        assert((seq![w] + text::words(rest))[0] == w);
        if wordcount::is_word(w) {
            let i = choose|i: int| 0 <= i < w.len() && chars::alphabetic(#[trigger] w[i]);
            assert(t[i] == w[i]);
        } else {
            assert forall|j: int| 0 <= j < n implies !chars::alphabetic(#[trigger] t[j]) by {
                assert(w[j] == t[j]);
            }
        }
    }
}

proof fn lemma_prose_words(ts: Seq<TokenView>, k: int)
    requires
        0 <= k <= ts.len(),
    ensures
        wordcount::prose_words(ts, k) + words_between(ts, 0, k) == words_between(
            ts,
            0,
            ts.len() as int,
        ),
    decreases ts.len() - k,
{
    if k < ts.len() {
        lemma_prose_words(ts, k + 1);
        if let TokenView::Text(x) = ts[k] {
            law_words_are_rows_with_letters(x);
        }
    }
}

proof fn lemma_title_words(title: Seq<char>)
    ensures
        wordcount::title_words(title) == words_of_title(title),
{
    lemma_prose_words(texparse::tokens_of(title), 0);
}

// ---------------------------------------------------------------------------
// Sections
// ---------------------------------------------------------------------------

/// The tokens of all files, one after the other.
pub open spec fn stream(files: Seq<(Seq<char>, Seq<TokenView>)>) -> Seq<TokenView>
    decreases files.len(),
{
    if files.len() == 0 {
        Seq::empty()
    } else {
        stream(files.drop_last()) + files.last().1
    }
}

/// Whether the document begins at the `d`-th token.
pub open spec fn begins_at(ts: Seq<TokenView>, d: int) -> bool {
    &&& 0 <= d < ts.len()
    &&& ts[d] is BeginDocument
    &&& forall|j: int| 0 <= j < d ==> !(#[trigger] ts[j] is BeginDocument)
}

/// Whether the `i`-th token is a heading of any of the seven levels.
pub open spec fn is_heading(ts: Seq<TokenView>, i: int) -> bool {
    ts[i] matches TokenView::Section { level, .. } && level < 7
}

/// Whether positions are those of all headings behind the `d`-th token, in order.
pub open spec fn are_headings(ts: Seq<TokenView>, d: int, h: Seq<int>) -> bool {
    &&& forall|k: int| 0 <= k < h.len() ==> d < #[trigger] h[k] < ts.len() && is_heading(ts, h[k])
    &&& forall|j: int, k: int| 0 <= j < k < h.len() ==> #[trigger] h[j] < #[trigger] h[k]
    &&& forall|i: int| d < i < ts.len() && #[trigger] is_heading(ts, i) ==> h.contains(i)
}

/// Where the words behind the `k`-th heading end: at the next heading, or at the end.
pub open spec fn stretch_end(h: Seq<int>, k: int, end: int) -> int {
    if k + 1 < h.len() {
        h[k + 1]
    } else {
        end
    }
}

/// Whether a section is that of the heading at `i`, with the words of its title and of the
/// prose up to `e`.
pub open spec fn is_section_of(
    ts: Seq<TokenView>,
    i: int,
    e: int,
    level: u8,
    title: Seq<char>,
    words: nat,
) -> bool {
    &&& ts[i] == (TokenView::Section { level, title })
    &&& words == words_of_title(title) + words_between(ts, i + 1, e)
}

/// Whether a counter has counted the first `n` tokens of a document that begins at `d`
/// and has the given headings.
spec fn has_counted(ts: Seq<TokenView>, d: int, h: Seq<int>, n: int, c: Counter) -> bool {
    &&& c.in_document
    &&& c.sections.len() == h.len()
    &&& c.preamble == words_between(ts, d + 1, stretch_end(h, -1, n))
    &&& forall|k: int|
        0 <= k < h.len() ==> is_section_of(
            ts,
            h[k],
            stretch_end(h, k, n),
            (#[trigger] c.sections[k]).level,
            c.sections[k].title,
            c.sections[k].words,
        )
}

proof fn lemma_before(ts: Seq<TokenView>, n: int)
    requires
        0 <= n <= ts.len(),
        forall|j: int| 0 <= j < n ==> !(#[trigger] ts[j] is BeginDocument),
    ensures
        wordcount::counted_tokens(wordcount::count_start(), ts, n) == wordcount::count_start(),
    decreases n,
{
    if n > 0 {
        lemma_before(ts, n - 1);
        assert(!(ts[n - 1] is BeginDocument));
    }
}

/// The positions of the headings among the tokens behind `d` and before `n`.
spec fn headings(ts: Seq<TokenView>, d: int, n: int) -> Seq<int>
    decreases n - d,
{
    if n <= d + 1 {
        Seq::empty()
    } else if is_heading(ts, n - 1) {
        headings(ts, d, n - 1).push(n - 1)
    } else {
        headings(ts, d, n - 1)
    }
}

proof fn lemma_headings(ts: Seq<TokenView>, d: int, n: int)
    requires
        0 <= d < n <= ts.len(),
    ensures
        are_headings(ts.take(n), d, headings(ts, d, n)),
    decreases n,
{
    let h = headings(ts, d, n);
    if n > d + 1 {
        lemma_headings(ts, d, n - 1);
        let g = headings(ts, d, n - 1);
        assert forall|k: int| 0 <= k < h.len() implies d < #[trigger] h[k] < n && is_heading(
            ts.take(n),
            h[k],
        ) by {
            if k < g.len() {
                assert(h[k] == g[k]);
                assert(is_heading(ts.take(n - 1), g[k]));
            }
        }
        assert forall|j: int, k: int| 0 <= j < k < h.len() implies #[trigger] h[j]
            < #[trigger] h[k] by {
            assert(h[j] == g[j]);
            if k < g.len() {
                assert(h[k] == g[k]);
            }
        }
        assert forall|i: int| d < i < n && #[trigger] is_heading(ts.take(n), i) implies h.contains(
            i,
        ) by {
            if i < n - 1 {
                assert(is_heading(ts.take(n - 1), i));
                assert(g.contains(i));
                let k = choose|k: int| 0 <= k < g.len() && g[k] == i;
                assert(h[k] == i);
            } else {
                assert(h[h.len() - 1] == i);
            }
        }
    }
}

proof fn lemma_words_split(ts: Seq<TokenView>, a: int, b: int)
    requires
        a < b,
    ensures
        words_between(ts, a, b) == words_between(ts, a, b - 1) + token_words(ts[b - 1]),
{
}

proof fn lemma_counted(ts: Seq<TokenView>, d: int, n: int)
    requires
        begins_at(ts, d),
        d < n <= ts.len(),
    ensures
        has_counted(
            ts,
            d,
            headings(ts, d, n),
            n,
            wordcount::counted_tokens(wordcount::count_start(), ts, n),
        ),
    decreases n,
{
    let start = wordcount::count_start();
    let c = wordcount::counted_tokens(start, ts, n);
    let h = headings(ts, d, n);
    if n == d + 1 {
        lemma_before(ts, d);
        assert(ts[n - 1] is BeginDocument);
    } else {
        lemma_counted(ts, d, n - 1);
        lemma_headings(ts, d, n - 1);
        let b = wordcount::counted_tokens(start, ts, n - 1);
        let g = headings(ts, d, n - 1);
        let t = ts[n - 1];
        assert(c == wordcount::counted(b, t));
        if g.len() > 0 {
            assert(g[g.len() - 1] < n - 1);
            lemma_words_split(ts, g[g.len() - 1] + 1, n);
        } else {
            lemma_words_split(ts, d + 1, n);
        }
        if let TokenView::Text(x) = t {
            law_words_are_rows_with_letters(x);
        }
        if let TokenView::Section { title, .. } = t {
            lemma_title_words(title);
        }
        assert forall|k: int| 0 <= k < h.len() implies is_section_of(
            ts,
            h[k],
            stretch_end(h, k, n),
            (#[trigger] c.sections[k]).level,
            c.sections[k].title,
            c.sections[k].words,
        ) by {
            if k < g.len() {
                assert(is_section_of(
                    ts,
                    g[k],
                    stretch_end(g, k, n - 1),
                    b.sections[k].level,
                    b.sections[k].title,
                    b.sections[k].words,
                ));
                assert(h[k] == g[k]);
                if k + 1 < g.len() {
                    assert(h[k + 1] == g[k + 1]);
                    assert(c.sections[k] == b.sections[k]);
                }
            }
        }
    }
}

// ---------------------------------------------------------------------------
// Files
// ---------------------------------------------------------------------------

spec fn same_but_here(a: Counter, b: Counter) -> bool {
    a.in_document == b.in_document && a.counters == b.counters && a.preamble == b.preamble
        && a.sections == b.sections
}

proof fn lemma_here_is_apart(a: Counter, b: Counter, ts: Seq<TokenView>, k: int)
    requires
        same_but_here(a, b),
    ensures
        same_but_here(
            wordcount::counted_tokens(a, ts, k),
            wordcount::counted_tokens(b, ts, k),
        ),
        wordcount::counted_tokens(a, ts, k).here + b.here == wordcount::counted_tokens(
            b,
            ts,
            k,
        ).here + a.here,
    decreases k,
{
    if 0 < k <= ts.len() {
        lemma_here_is_apart(a, b, ts, k - 1);
    }
}

proof fn lemma_counted_join(c: Counter, a: Seq<TokenView>, b: Seq<TokenView>, k: int)
    requires
        0 <= k <= a.len() + b.len(),
    ensures
        k <= a.len() ==> wordcount::counted_tokens(c, a + b, k) == wordcount::counted_tokens(
            c,
            a,
            k,
        ),
        k >= a.len() ==> wordcount::counted_tokens(c, a + b, k) == wordcount::counted_tokens(
            wordcount::counted_tokens(c, a, a.len() as int),
            b,
            k - a.len(),
        ),
    decreases k,
{
    if k > 0 {
        lemma_counted_join(c, a, b, k - 1);
        if k <= a.len() {
            assert((a + b)[k - 1] == a[k - 1]);
        } else {
            assert((a + b)[k - 1] == b[k - 1 - a.len()]);
        }
    }
}

proof fn lemma_files_are_a_stream(files: Seq<(Seq<char>, Seq<TokenView>)>, k: int)
    requires
        0 <= k <= files.len(),
    ensures
        same_but_here(
            wordcount::counted_files(files, k),
            wordcount::counted_tokens(
                wordcount::count_start(),
                stream(files.take(k)),
                stream(files.take(k)).len() as int,
            ),
        ),
    decreases k,
{
    let start = wordcount::count_start();
    if k > 0 {
        lemma_files_are_a_stream(files, k - 1);
        assert(files.take(k).drop_last() =~= files.take(k - 1));
        let before = stream(files.take(k - 1));
        let ts = files[k - 1].1;
        let n = ts.len() as int;
        lemma_counted_join(start, before, ts, before.len() + n);
        let c = wordcount::counted_files(files, k - 1);
        lemma_here_is_apart(
            Counter { here: 0, ..c },
            wordcount::counted_tokens(start, before, before.len() as int),
            ts,
            n,
        );
    }
}

/// Every word of the prose behind `\begin{document}` is counted where it stands: with the
/// last heading before it, of whatever level, or before the first section. Each heading
/// behind `\begin{document}` is a section of its own, in order, with the words of its
/// title. A document that never begins has no words.
pub proof fn law_words_belong_to_the_heading_before_them(
    files: Seq<(Seq<char>, Seq<TokenView>)>,
    d: int,
)
    ensures
        ({
            let ts = stream(files);
            let c = wordcount::counted_files(files, files.len() as int);
            let stats = wordcount::section_stats(c.sections);
            &&& (forall|j: int| 0 <= j < ts.len() ==> !(#[trigger] ts[j] is BeginDocument))
                ==> c.preamble == 0 && stats.len() == 0
            &&& begins_at(ts, d) ==> exists|h: Seq<int>| #[trigger]
                are_headings(ts, d, h) && stats.len() == h.len() && c.preamble == words_between(
                    ts,
                    d + 1,
                    stretch_end(h, -1, ts.len() as int),
                ) && forall|k: int|
                    0 <= k < h.len() ==> (#[trigger] stats[k]).level is Some && stats[k].title is Some
                        && ts[h[k]] == (TokenView::Section {
                        level: stats[k].level->0,
                        title: stats[k].title->0,
                    }) && at_most(
                        stats[k].words,
                        words_of_title(stats[k].title->0) + words_between(
                            ts,
                            h[k] + 1,
                            stretch_end(h, k, ts.len() as int),
                        ),
                    )
        }),
{
    let ts = stream(files);
    let n = ts.len() as int;
    let c = wordcount::counted_files(files, files.len() as int);
    let stats = wordcount::section_stats(c.sections);
    assert(files.take(files.len() as int) =~= files);
    lemma_files_are_a_stream(files, files.len() as int);
    if forall|j: int| 0 <= j < ts.len() ==> !(#[trigger] ts[j] is BeginDocument) {
        lemma_before(ts, n);
    }
    if begins_at(ts, d) {
        let h = headings(ts, d, n);
        lemma_counted(ts, d, n);
        lemma_headings(ts, d, n);
        assert(ts.take(n) =~= ts);
        assert(are_headings(ts, d, h));
        assert forall|k: int| 0 <= k < h.len() implies (#[trigger] stats[k]).level is Some
            && stats[k].title is Some && ts[h[k]] == (TokenView::Section {
            level: stats[k].level->0,
            title: stats[k].title->0,
        }) && at_most(
            stats[k].words,
            words_of_title(stats[k].title->0) + words_between(ts, h[k] + 1, stretch_end(h, k, n)),
        ) by {
            let s = c.sections[k];
            assert(is_section_of(ts, h[k], stretch_end(h, k, n), s.level, s.title, s.words));
        }
    }
}

/// Whether a count is a number, or the largest size where the number is above it.
pub open spec fn at_most(count: nat, n: nat) -> bool {
    count == n || (n > usize::MAX && count == usize::MAX)
}

// ---------------------------------------------------------------------------
// Totals
// ---------------------------------------------------------------------------

/// The words that a token brings: those of its prose, or of its title.
pub open spec fn brought_by(t: TokenView) -> nat {
    match t {
        TokenView::Text(x) => first_letters(x, 0, false),
        TokenView::Section { level, title } => if level < 7 {
            words_of_title(title)
        } else {
            0
        },
        _ => 0,
    }
}

/// The words that the tokens from the `a`-th up to the `b`-th bring.
pub open spec fn brought_between(ts: Seq<TokenView>, a: int, b: int) -> nat
    decreases b - a,
{
    if b <= a {
        0
    } else {
        brought_between(ts, a, b - 1) + brought_by(ts[b - 1])
    }
}

/// The larger of two positions.
pub open spec fn later(a: int, b: int) -> int {
    if a < b {
        b
    } else {
        a
    }
}

proof fn lemma_here(ts: Seq<TokenView>, d: int, n: int)
    requires
        begins_at(ts, d),
        0 <= n <= ts.len(),
    ensures
        wordcount::counted_tokens(wordcount::count_start(), ts, n).here == brought_between(
            ts,
            d + 1,
            n,
        ),
        wordcount::counted_tokens(wordcount::count_start(), ts, n).in_document == (n > d),
    decreases n,
{
    if n <= d {
        lemma_before(ts, n);
    } else {
        lemma_here(ts, d, n - 1);
        let t = ts[n - 1];
        if let TokenView::Text(x) = t {
            law_words_are_rows_with_letters(x);
        }
        if let TokenView::Section { title, .. } = t {
            lemma_title_words(title);
        }
        if n == d + 1 {
            assert(ts[d] is BeginDocument);
        }
    }
}

proof fn lemma_stream_take(files: Seq<(Seq<char>, Seq<TokenView>)>, k: int)
    requires
        0 <= k <= files.len(),
    ensures
        stream(files.take(k)).len() <= stream(files).len(),
        stream(files).take(stream(files.take(k)).len() as int) == stream(files.take(k)),
    decreases files.len() - k,
{
    if k == files.len() {
        assert(files.take(k) =~= files);
        assert(stream(files).take(stream(files).len() as int) =~= stream(files));
    } else {
        lemma_stream_take(files, k + 1);
        assert(files.take(k + 1).drop_last() =~= files.take(k));
        let a = stream(files.take(k));
        let b = stream(files.take(k + 1));
        assert(b.take(a.len() as int) =~= a);
        assert(stream(files).take(a.len() as int) =~= b.take(a.len() as int));
    }
}

proof fn lemma_counted_prefix(c: Counter, ts: Seq<TokenView>, n: int, k: int)
    requires
        0 <= k <= n <= ts.len(),
    ensures
        wordcount::counted_tokens(c, ts.take(n), k) == wordcount::counted_tokens(c, ts, k),
    decreases k,
{
    if k > 0 {
        lemma_counted_prefix(c, ts, n, k - 1);
    }
}

proof fn lemma_brought_split(ts: Seq<TokenView>, a: int, m: int, b: int)
    requires
        a <= m <= b,
    ensures
        brought_between(ts, a, b) == brought_between(ts, a, m) + brought_between(ts, m, b),
    decreases b - m,
{
    if m < b {
        lemma_brought_split(ts, a, m, b - 1);
    }
}

proof fn lemma_file_words_stay(files: Seq<(Seq<char>, Seq<TokenView>)>, n: int, k: int)
    requires
        0 <= k < n <= files.len(),
    ensures
        wordcount::file_words(files, n).len() == n,
        wordcount::file_words(files, n)[k] == wordcount::counted_files(files, k + 1).here,
    decreases n,
{
    if k < n - 1 {
        lemma_file_words_stay(files, n - 1, k);
    } else if n > 1 {
        lemma_file_words_stay(files, n - 1, 0);
    } else {
        assert(wordcount::file_words(files, 0).len() == 0);
    }
}

/// The words of a file are those that its tokens bring, as far as they stand behind
/// `\begin{document}`: prose and titles alike, and nothing else.
pub proof fn law_words_belong_to_their_file(
    files: Seq<(Seq<char>, Seq<TokenView>)>,
    d: int,
    k: int,
)
    requires
        begins_at(stream(files), d),
        0 <= k < files.len(),
    ensures
        wordcount::file_words(files, files.len() as int)[k] == brought_between(
            stream(files),
            later(d + 1, stream(files.take(k)).len() as int),
            stream(files.take(k + 1)).len() as int,
        ),
{
    let start = wordcount::count_start();
    let ts = stream(files);
    let before = stream(files.take(k));
    let own = files[k].1;
    let a = before.len() as int;
    let b = stream(files.take(k + 1)).len() as int;
    assert(files.take(k + 1).drop_last() =~= files.take(k));
    assert(stream(files.take(k + 1)) == before + own);
    lemma_stream_take(files, k);
    lemma_stream_take(files, k + 1);
    lemma_file_words_stay(files, files.len() as int, k);
    lemma_files_are_a_stream(files, k);
    let c = wordcount::counted_files(files, k);
    let flat = wordcount::counted_tokens(start, before, a);
    lemma_here_is_apart(Counter { here: 0, ..c }, flat, own, own.len() as int);
    lemma_counted_join(start, before, own, b);
    lemma_counted_prefix(start, ts, a, a);
    lemma_counted_prefix(start, ts, b, b);
    lemma_here(ts, d, a);
    lemma_here(ts, d, b);
    if d + 1 <= a {
        lemma_brought_split(ts, d + 1, a, b);
    }
}

proof fn lemma_total(files: Seq<(Seq<char>, Seq<TokenView>)>, d: int, k: int)
    requires
        begins_at(stream(files), d),
        0 <= k <= files.len(),
    ensures
        wordcount::sum(wordcount::file_words(files, k)) == brought_between(
            stream(files),
            d + 1,
            stream(files.take(k)).len() as int,
        ),
    decreases k,
{
    let ts = stream(files);
    if k == 0 {
        assert(files.take(0) =~= Seq::empty());
        assert(wordcount::file_words(files, 0) =~= Seq::empty());
    } else {
        lemma_total(files, d, k - 1);
        law_words_belong_to_their_file(files, d, k - 1);
        lemma_file_words_stay(files, files.len() as int, k - 1);
        lemma_file_words_stay(files, k, k - 1);
        let w = wordcount::file_words(files, k);
        assert(w.drop_last() =~= wordcount::file_words(files, k - 1));
        let a = stream(files.take(k - 1)).len() as int;
        let b = stream(files.take(k)).len() as int;
        assert(files.take(k).drop_last() =~= files.take(k - 1));
        if d + 1 <= a {
            lemma_brought_split(ts, d + 1, a, b);
        }
    }
}

/// The total of a document is the number of all words of its prose and of its titles behind
/// `\begin{document}`, whether they are counted by section or by file.
pub proof fn law_total_counts_every_word(files: Seq<(Seq<char>, Seq<TokenView>)>, d: int)
    requires
        begins_at(stream(files), d),
    ensures
        ({
            let n = files.len() as int;
            let c = wordcount::counted_files(files, n);
            let all = brought_between(stream(files), d + 1, stream(files).len() as int);
            &&& at_most(wordcount::capped(c.preamble + wordcount::section_sum(c.sections)), all)
            &&& at_most(wordcount::capped(wordcount::sum(wordcount::file_words(files, n))), all)
            &&& at_most(wordcount::capped(c.preamble), c.preamble)
        }),
{
    let n = files.len() as int;
    wordcount::law_totals_agree(files, n);
    lemma_total(files, d, n);
    assert(files.take(n) =~= files);
}

// ---------------------------------------------------------------------------
// Numbers
// ---------------------------------------------------------------------------

/// The levels of the headings at some positions.
pub open spec fn levels(ts: Seq<TokenView>, h: Seq<int>) -> Seq<int> {
    Seq::new(
        h.len(),
        |k: int|
            match ts[h[k]] {
                TokenView::Section { level, .. } => level as int,
                _ => 0,
            },
    )
}

/// How many of the first `n` headings are of a level, since the last one of a level above.
pub open spec fn so_far(lv: Seq<int>, level: int, n: int) -> nat
    decreases n,
{
    if n <= 0 || lv[n - 1] < level {
        0
    } else if lv[n - 1] == level {
        so_far(lv, level, n - 1) + 1
    } else {
        so_far(lv, level, n - 1)
    }
}

/// How many headings there are of each level, from a first one down to that of the `k`-th
/// heading, up to that heading.
pub open spec fn number_parts(lv: Seq<int>, k: int, first: int) -> Seq<Seq<char>> {
    Seq::new(
        (lv[k] + 1 - first) as nat,
        |i: int| number::decimal(so_far(lv, first + i, k + 1)),
    )
}

/// Whether a text is the number of the `k`-th heading: how many there are so far of each
/// level, from the first that has any down to its own, with dots between them.
pub open spec fn is_number(lv: Seq<int>, k: int, t: Seq<char>) -> bool {
    exists|first: int|
        0 <= first <= lv[k] && (forall|l: int| 0 <= l < first ==> #[trigger] so_far(lv, l, k + 1)
            == 0) && (first < lv[k] ==> so_far(lv, first, k + 1) > 0) && t == text::join(
            #[trigger] number_parts(lv, k, first),
            "."@,
        )
}

pub proof fn lemma_so_far(lv: Seq<int>, level: int, n: int)
    requires
        0 <= n,
    ensures
        so_far(lv, level, n) <= n,
    decreases n,
{
    if n > 0 {
        lemma_so_far(lv, level, n - 1);
    }
}

pub proof fn lemma_so_far_prefix(a: Seq<int>, b: Seq<int>, level: int, n: int)
    requires
        0 <= n <= a.len(),
        n <= b.len(),
        forall|k: int| 0 <= k < n ==> a[k] == b[k],
    ensures
        so_far(a, level, n) == so_far(b, level, n),
    decreases n,
{
    if n > 0 {
        lemma_so_far_prefix(a, b, level, n - 1);
    }
}

spec fn are_numbered(ts: Seq<TokenView>, h: Seq<int>, c: Counter) -> bool {
    &&& c.counters.len() == 7
    &&& forall|l: int|
        0 <= l < 7 ==> #[trigger] c.counters[l] == so_far(levels(ts, h), l, h.len() as int)
    &&& c.sections.len() == h.len()
    &&& forall|k: int|
        0 <= k < h.len() ==> is_number(levels(ts, h), k, (#[trigger] c.sections[k]).number)
}

pub proof fn lemma_number(lv: Seq<int>, k: int, counters: Seq<nat>)
    requires
        0 <= k < lv.len(),
        0 <= lv[k] < 7,
        counters.len() == 7,
        forall|l: int| 0 <= l < 7 ==> #[trigger] counters[l] == so_far(lv, l, k + 1),
    ensures
        is_number(lv, k, wordcount::dotted(counters, lv[k])),
{
    let level = lv[k];
    let first = wordcount::first_used(counters, 0, level);
    wordcount::lemma_first_used(counters, 0, level);
    let parts = wordcount::decimals(counters.subrange(first, level + 1));
    let own = number_parts(lv, k, first);
    assert(parts =~= own) by {
        assert forall|i: int| 0 <= i < own.len() implies parts[i] == own[i] by {
            assert(counters[first + i] == so_far(lv, first + i, k + 1));
        }
    }
    assert forall|l: int| 0 <= l < first implies #[trigger] so_far(lv, l, k + 1) == 0 by {
        assert(counters[l] == 0);
    }
    if first < level {
        assert(counters[first] != 0);
    }
}

proof fn lemma_is_number_prefix(a: Seq<int>, b: Seq<int>, k: int, t: Seq<char>)
    requires
        0 <= k < a.len() <= b.len(),
        forall|j: int| 0 <= j < a.len() ==> a[j] == b[j],
        is_number(a, k, t),
    ensures
        is_number(b, k, t),
{
    let first = choose|first: int|
        0 <= first <= a[k] && (forall|l: int| 0 <= l < first ==> #[trigger] so_far(a, l, k + 1) == 0)
            && (first < a[k] ==> so_far(a, first, k + 1) > 0) && t == text::join(
            #[trigger] number_parts(a, k, first),
            "."@,
        );
    assert forall|l: int| 0 <= l < first implies #[trigger] so_far(b, l, k + 1) == 0 by {
        lemma_so_far_prefix(a, b, l, k + 1);
        assert(so_far(a, l, k + 1) == 0);
    }
    lemma_so_far_prefix(a, b, first, k + 1);
    let x = number_parts(a, k, first);
    let y = number_parts(b, k, first);
    assert(x =~= y) by {
        assert forall|i: int| 0 <= i < x.len() implies x[i] == y[i] by {
            lemma_so_far_prefix(a, b, first + i, k + 1);
        }
    }
}

proof fn lemma_numbered(ts: Seq<TokenView>, d: int, n: int)
    requires
        begins_at(ts, d),
        d < n <= ts.len(),
        ts.len() <= usize::MAX,
    ensures
        are_numbered(
            ts,
            headings(ts, d, n),
            wordcount::counted_tokens(wordcount::count_start(), ts, n),
        ),
    decreases n,
{
    let start = wordcount::count_start();
    let c = wordcount::counted_tokens(start, ts, n);
    let h = headings(ts, d, n);
    lemma_counted(ts, d, n);
    if n == d + 1 {
        lemma_before(ts, d);
        assert(ts[n - 1] is BeginDocument);
    } else {
        lemma_numbered(ts, d, n - 1);
        lemma_counted(ts, d, n - 1);
        let b = wordcount::counted_tokens(start, ts, n - 1);
        let g = headings(ts, d, n - 1);
        let lg = levels(ts, g);
        let lh = levels(ts, h);
        lemma_headings_few(ts, d, n - 1);
        if is_heading(ts, n - 1) {
            let level = lh[g.len() as int];
            assert forall|j: int| 0 <= j < g.len() implies lg[j] == lh[j] by {
                assert(h[j] == g[j]);
            }
            assert forall|l: int| 0 <= l < 7 implies #[trigger] c.counters[l] == so_far(
                lh,
                l,
                h.len() as int,
            ) by {
                lemma_so_far_prefix(lg, lh, l, g.len() as int);
                lemma_so_far(lg, l, g.len() as int);
                assert(b.counters[l] == so_far(lg, l, g.len() as int));
            }
            lemma_number(lh, g.len() as int, c.counters);
            assert forall|k: int| 0 <= k < h.len() implies is_number(
                lh,
                k,
                (#[trigger] c.sections[k]).number,
            ) by {
                if k < g.len() {
                    assert(c.sections[k] == b.sections[k]);
                    assert(is_number(lg, k, b.sections[k].number));
                    lemma_is_number_prefix(lg, lh, k, b.sections[k].number);
                }
            }
        } else {
            assert(h == g);
            assert forall|k: int| 0 <= k < h.len() implies is_number(
                lh,
                k,
                (#[trigger] c.sections[k]).number,
            ) by {
                assert(c.sections[k].number == b.sections[k].number);
                assert(is_number(lg, k, b.sections[k].number));
            }
        }
    }
}

proof fn lemma_headings_few(ts: Seq<TokenView>, d: int, n: int)
    requires
        0 <= d < n <= ts.len(),
    ensures
        headings(ts, d, n).len() < n,
    decreases n,
{
    if n > d + 1 {
        lemma_headings_few(ts, d, n - 1);
    }
}

/// Sections are numbered as they stand: each level counts the headings of its own since the
/// last one of a level above, and the number of a section is made of those of its level and
/// of the levels above it, from the first that has any.
pub proof fn law_sections_are_numbered_in_order(
    files: Seq<(Seq<char>, Seq<TokenView>)>,
    d: int,
    h: Seq<int>,
    k: int,
)
    requires
        begins_at(stream(files), d),
        are_headings(stream(files), d, h),
        stream(files).len() <= usize::MAX,
        0 <= k < h.len(),
    ensures
        ({
            let c = wordcount::counted_files(files, files.len() as int);
            let stats = wordcount::section_stats(c.sections);
            stats.len() == h.len() && is_number(levels(stream(files), h), k, stats[k].path)
        }),
{
    let ts = stream(files);
    let n = ts.len() as int;
    assert(files.take(files.len() as int) =~= files);
    lemma_files_are_a_stream(files, files.len() as int);
    lemma_counted(ts, d, n);
    lemma_numbered(ts, d, n);
    lemma_headings(ts, d, n);
    assert(ts.take(n) =~= ts);
    lemma_one_list(ts, d, h, headings(ts, d, n));
    let c = wordcount::counted_files(files, files.len() as int);
    assert(is_number(levels(ts, h), k, c.sections[k].number));
}

/// There is one list of the headings of a document.
proof fn lemma_one_list(ts: Seq<TokenView>, d: int, g: Seq<int>, h: Seq<int>)
    requires
        are_headings(ts, d, g),
        are_headings(ts, d, h),
    ensures
        g == h,
{
    lemma_same_start(ts, d, g, h, g.len() as int);
    lemma_same_start(ts, d, h, g, h.len() as int);
    assert(g =~= h);
}

proof fn lemma_same_start(ts: Seq<TokenView>, d: int, g: Seq<int>, h: Seq<int>, n: int)
    requires
        are_headings(ts, d, g),
        are_headings(ts, d, h),
        0 <= n <= g.len(),
    ensures
        n <= h.len(),
        forall|k: int| 0 <= k < n ==> #[trigger] g[k] == h[k],
    decreases n,
{
    if n > 0 {
        lemma_same_start(ts, d, g, h, n - 1);
        let x = g[n - 1];
        assert(is_heading(ts, x));
        assert(h.contains(x));
        let j = choose|j: int| 0 <= j < h.len() && h[j] == x;
        if j < n - 1 {
            assert(g[j] == h[j]);
            assert(g[j] < g[n - 1]);
        }
        let y = h[n - 1];
        assert(is_heading(ts, y));
        assert(g.contains(y));
        let i = choose|i: int| 0 <= i < g.len() && g[i] == y;
        if i < n - 1 {
            assert(g[i] == h[i]);
            assert(h[i] < h[n - 1]);
        }
        if n - 1 < j {
            assert(h[n - 1] < h[j]);
            if n - 1 < i {
                assert(g[n - 1] < g[i]);
            }
        }
    }
}

} // verus!
