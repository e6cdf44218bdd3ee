//! What cleaning a text keeps: no letter of it is lost.

use vstd::prelude::*;

use crate::chars;
use crate::pdftext;
use crate::text;
use crate::utils;

verus! {

/// The characters of a text that are of a kind, in order.
pub open spec fn only(s: Seq<char>, kind: spec_fn(char) -> bool) -> Seq<char>
    decreases s.len(),
{
    if s.len() == 0 {
        Seq::empty()
    } else if kind(s.last()) {
        only(s.drop_last(), kind).push(s.last())
    } else {
        only(s.drop_last(), kind)
    }
}

proof fn lemma_only_join(a: Seq<char>, b: Seq<char>, kind: spec_fn(char) -> bool)
    ensures
        only(a + b, kind) == only(a, kind) + only(b, kind),
    decreases b.len(),
{
    if b.len() == 0 {
        assert(a + b =~= a);
        assert(only(a, kind) + only(b, kind) =~= only(a, kind));
    } else {
        lemma_only_join(a, b.drop_last(), kind);
        assert((a + b).drop_last() =~= a + b.drop_last());
        assert((a + b).last() == b.last());
        assert(only(a + b, kind) =~= only(a, kind) + only(b, kind));
    }
}

proof fn lemma_only_none(s: Seq<char>, kind: spec_fn(char) -> bool)
    requires
        forall|i: int| 0 <= i < s.len() ==> !kind(#[trigger] s[i]),
    ensures
        only(s, kind) == Seq::<char>::empty(),
    decreases s.len(),
{
    if s.len() > 0 {
        assert(!kind(s[s.len() - 1]));
        assert forall|i: int| 0 <= i < s.drop_last().len() implies !kind(
            #[trigger] s.drop_last()[i],
        ) by {
            assert(s.drop_last()[i] == s[i]);
        }
        lemma_only_none(s.drop_last(), kind);
    }
}

proof fn lemma_only_one(c: char, kind: spec_fn(char) -> bool)
    ensures
        only(seq![c], kind) == if kind(c) {
            seq![c]
        } else {
            Seq::<char>::empty()
        },
{
    assert(seq![c].drop_last() =~= Seq::<char>::empty());
    assert(only(Seq::<char>::empty(), kind) =~= Seq::<char>::empty());
    assert(only(seq![c], kind) =~= if kind(c) {
        seq![c]
    } else {
        Seq::<char>::empty()
    });
}

// ---------------------------------------------------------------------------
// The text of a PDF
// ---------------------------------------------------------------------------

/// Everything but hyphens and line breaks.
pub open spec fn is_solid(c: char) -> bool {
    c != '-' && c != '\n' && c != '\r' && c != '\u{AD}'
}

proof fn lemma_breaks(s: Seq<char>, j: int)
    requires
        0 <= j <= s.len(),
    ensures
        j <= pdftext::past_breaks(s, j) <= s.len(),
        forall|k: int|
            j <= k < pdftext::past_breaks(s, j) ==> #[trigger] s[k] == '\n' || s[k] == '\r',
    decreases s.len() - j,
{
    if j < s.len() && (s[j] == '\n' || s[j] == '\r') {
        lemma_breaks(s, j + 1);
    }
}

proof fn lemma_rejoined_keeps(s: Seq<char>, i: int)
    requires
        0 <= i <= s.len(),
    ensures
        only(pdftext::rejoined(s, i), |c: char| is_solid(c)) == only(
            s.skip(i),
            |c: char| is_solid(c),
        ),
    decreases s.len() - i,
{
    let kind = |c: char| is_solid(c);
    if i == s.len() {
        assert(s.skip(i) =~= Seq::<char>::empty());
    } else if pdftext::splits_word(s, i) {
        let j = pdftext::past_breaks(s, i + 1);
        lemma_breaks(s, i + 1);
        lemma_rejoined_keeps(s, j);
        let gap = s.subrange(i, j);
        assert(s.skip(i) =~= gap + s.skip(j));
        lemma_only_join(gap, s.skip(j), kind);
        assert forall|k: int| 0 <= k < gap.len() implies !kind(#[trigger] gap[k]) by {
            assert(gap[k] == s[i + k]);
        }
        lemma_only_none(gap, kind);
        assert(Seq::<char>::empty() + only(s.skip(j), kind) =~= only(s.skip(j), kind));
    } else {
        lemma_rejoined_keeps(s, i + 1);
        assert(s.skip(i) =~= seq![s[i]] + s.skip(i + 1));
        lemma_only_join(seq![s[i]], s.skip(i + 1), kind);
        lemma_only_join(seq![s[i]], pdftext::rejoined(s, i + 1), kind);
    }
}

proof fn lemma_soft_keeps(s: Seq<char>)
    ensures
        only(text::replace(s, "\u{00AD}"@, Seq::empty()), |c: char| is_solid(c)) == only(
            s,
            |c: char| is_solid(c),
        ),
    decreases s.len(),
{
    let kind = |c: char| is_solid(c);
    let p = "\u{00AD}"@;
    reveal_strlit("\u{00AD}");
    text::lemma_find_bounds(s, p, 0);
    if let Some(k) = text::find(s, p) {
        let rest = s.skip(k + 1);
        lemma_soft_keeps(rest);
        let tail = text::replace(rest, p, Seq::empty());
        assert(text::replace(s, p, Seq::empty()) =~= s.take(k) + tail);
        assert(s.subrange(k, k + 1)[0] == s[k]);
        assert(s =~= s.take(k) + (seq![s[k]] + rest));
        lemma_only_join(s.take(k), tail, kind);
        lemma_only_join(s.take(k), seq![s[k]] + rest, kind);
        lemma_only_join(seq![s[k]], rest, kind);
        lemma_only_one(s[k], kind);
        assert(Seq::<char>::empty() + only(rest, kind) =~= only(rest, kind));
    }
}

/// Normalizing the text of a PDF loses nothing but hyphens and line breaks: everything else
/// stays, in order, with its ligatures spelled out.
pub proof fn law_normalizing_keeps_letters(s: Seq<char>)
    ensures
        only(pdftext::normalized(s), |c: char| is_solid(c)) == only(
            pdftext::expanded(s),
            |c: char| is_solid(c),
        ),
{
    let e = pdftext::expanded(s);
    let t = text::replace(e, "\u{00AD}"@, Seq::empty());
    lemma_rejoined_keeps(t, 0);
    assert(t.skip(0) =~= t);
    lemma_soft_keeps(e);
}

/// Whether a text holds neither hyphens nor ligatures.
pub open spec fn is_simple(s: Seq<char>) -> bool {
    forall|i: int|
        0 <= i < s.len() ==> #[trigger] s[i] != '-' && s[i] != '\u{AD}' && !('\u{FB00}' <= s[i]
            <= '\u{FB06}')
}

proof fn lemma_simple_expanded(s: Seq<char>)
    requires
        forall|i: int| 0 <= i < s.len() ==> !('\u{FB00}' <= #[trigger] s[i] <= '\u{FB06}'),
    ensures
        pdftext::expanded(s) == s,
    decreases s.len(),
{
    if s.len() > 0 {
        let front = s.drop_last();
        assert forall|i: int| 0 <= i < front.len() implies !('\u{FB00}' <= #[trigger] front[i]
            <= '\u{FB06}') by {
            assert(front[i] == s[i]);
        }
        lemma_simple_expanded(front);
        assert(!('\u{FB00}' <= s[s.len() - 1] <= '\u{FB06}'));
        assert(pdftext::expanded(s) =~= s);
    } else {
        assert(pdftext::expanded(s) =~= s);
    }
}

proof fn lemma_no_soft(s: Seq<char>)
    requires
        forall|i: int| 0 <= i < s.len() ==> #[trigger] s[i] != '\u{AD}',
    ensures
        text::replace(s, "\u{00AD}"@, Seq::empty()) == s,
{
    let p = "\u{00AD}"@;
    reveal_strlit("\u{00AD}");
    text::lemma_find_bounds(s, p, 0);
    if let Some(k) = text::find(s, p) {
        assert(s.subrange(k, k + 1)[0] == s[k]);
    }
}

proof fn lemma_no_hyphens(s: Seq<char>, i: int)
    requires
        0 <= i <= s.len(),
        forall|k: int| i <= k < s.len() ==> #[trigger] s[k] != '-',
    ensures
        pdftext::rejoined(s, i) == s.skip(i),
    decreases s.len() - i,
{
    if i < s.len() {
        assert(s[i] != '-');
        lemma_no_hyphens(s, i + 1);
        assert(s.skip(i) =~= seq![s[i]] + s.skip(i + 1));
    } else {
        assert(s.skip(i) =~= Seq::<char>::empty());
    }
}

proof fn lemma_up_to(s: Seq<char>, i: int, n: int)
    requires
        0 <= i <= n <= s.len(),
        forall|k: int| i <= k < n ==> #[trigger] s[k] != '-',
    ensures
        pdftext::rejoined(s, i) == s.subrange(i, n) + pdftext::rejoined(s, n),
    decreases n - i,
{
    if i < n {
        assert(s[i] != '-');
        lemma_up_to(s, i + 1, n);
        assert(s.subrange(i, n) =~= seq![s[i]] + s.subrange(i + 1, n));
        assert(seq![s[i]] + (s.subrange(i + 1, n) + pdftext::rejoined(s, n)) =~= s.subrange(i, n)
            + pdftext::rejoined(s, n));
    } else {
        assert(s.subrange(i, n) + pdftext::rejoined(s, n) =~= pdftext::rejoined(s, n));
    }
}

proof fn lemma_past(s: Seq<char>, j: int, e: int)
    requires
        0 <= j <= e < s.len(),
        forall|k: int| j <= k < e ==> #[trigger] s[k] == '\n' || s[k] == '\r',
        s[e] != '\n' && s[e] != '\r',
    ensures
        pdftext::past_breaks(s, j) == e,
    decreases e - j,
{
    if j < e {
        assert(s[j] == '\n' || s[j] == '\r');
        lemma_past(s, j + 1, e);
    }
}

/// A word that is split at the end of a line is one word again; a hyphen that does not split
/// a word stays.
pub proof fn law_split_words_are_rejoined(x: Seq<char>, breaks: Seq<char>, y: Seq<char>)
    requires
        is_simple(x),
        is_simple(y),
        x.len() > 0,
        y.len() > 0,
        chars::alphabetic(x.last()),
        chars::alphabetic(y[0]),
        y[0] != '\n' && y[0] != '\r',
        forall|i: int| 0 <= i < breaks.len() ==> #[trigger] breaks[i] == '\n' || breaks[i] == '\r',
    ensures
        pdftext::normalized(x + seq!['-'] + breaks + y) == if breaks.len() > 0 {
            x + y
        } else {
            x + seq!['-'] + y
        },
{
    let s = x + seq!['-'] + breaks + y;
    let n = x.len() as int;
    let e = n + 1 + breaks.len();
    assert forall|i: int| 0 <= i < s.len() implies !('\u{FB00}' <= #[trigger] s[i] <= '\u{FB06}')
        && s[i] != '\u{AD}' by {
        if i < n {
            assert(s[i] == x[i]);
        } else if i > n && i < e {
            assert(s[i] == breaks[i - n - 1]);
        } else if i >= e {
            assert(s[i] == y[i - e]);
        }
    }
    lemma_simple_expanded(s);
    lemma_no_soft(s);
    assert forall|k: int| 0 <= k < n implies #[trigger] s[k] != '-' by {
        assert(s[k] == x[k]);
    }
    lemma_up_to(s, 0, n);
    assert(s.subrange(0, n) =~= x);
    assert(s[n] == '-');
    assert(s[n - 1] == x.last());
    assert(s[e] == y[0]);
    assert forall|k: int| n + 1 <= k < e implies #[trigger] s[k] == '\n' || s[k] == '\r' by {
        assert(s[k] == breaks[k - n - 1]);
    }
    lemma_past(s, n + 1, e);
    assert forall|k: int| e <= k < s.len() implies #[trigger] s[k] != '-' by {
        assert(s[k] == y[k - e]);
    }
    lemma_no_hyphens(s, e);
    assert(s.skip(e) =~= y);
    if breaks.len() > 0 {
        assert(pdftext::splits_word(s, n));
    } else {
        assert(!pdftext::splits_word(s, n));
        assert(pdftext::rejoined(s, n) =~= seq!['-'] + y);
        assert(x + (seq!['-'] + y) =~= x + seq!['-'] + y);
    }
}

// ---------------------------------------------------------------------------
// File names
// ---------------------------------------------------------------------------

proof fn lemma_pieces_keep(h: Seq<char>)
    ensures
        only(text::join(utils::filled(text::split(h, '-'), 0), "-"@), |c: char| c != '-') == only(
            h,
            |c: char| c != '-',
        ),
    decreases h.len(),
{
    let kind = |c: char| c != '-';
    reveal_strlit("-");
    assert("-"@ =~= seq!['-']);
    let none = Seq::<char>::empty();
    text::lemma_find_char_bounds(h, '-', 0);
    match text::find_char(h, '-') {
        None => {
            let ps = text::split(h, '-');
            assert(ps =~= seq![h]);
            assert(utils::filled(ps, 1) =~= Seq::<Seq<char>>::empty());
            if h.len() > 0 {
                assert(utils::filled(ps, 0) =~= seq![h]);
            } else {
                assert(utils::filled(ps, 0) =~= Seq::<Seq<char>>::empty());
                assert(h =~= none);
            }
        },
        Some(k) => {
            let a = h.take(k);
            let b = h.skip(k + 1);
            lemma_pieces_keep(b);
            let more = utils::filled(text::split(b, '-'), 0);
            utils::lemma_filled_tail(a, text::split(b, '-'), 0);
            assert(text::split(h, '-') == seq![a] + text::split(b, '-'));
            let all = utils::filled(text::split(h, '-'), 0);
            let rest = text::join(more, "-"@);
            assert(h =~= a + (seq!['-'] + b));
            lemma_only_join(a, seq!['-'] + b, kind);
            lemma_only_join(seq!['-'], b, kind);
            lemma_only_one('-', kind);
            assert(none + only(b, kind) =~= only(b, kind));
            if k == 0 {
                assert(a =~= none);
                assert(all == more);
                assert(none + only(b, kind) =~= only(b, kind));
            } else {
                assert(all == seq![a] + more);
                if more.len() == 0 {
                    assert(all =~= seq![a]);
                    assert(rest =~= none);
                    assert(only(a, kind) + none =~= only(a, kind));
                } else {
                    text::lemma_join_front(all, "-"@);
                    assert(all.skip(1) =~= more);
                    assert(text::join(all, "-"@) =~= a + (seq!['-'] + rest));
                    lemma_only_join(a, seq!['-'] + rest, kind);
                    lemma_only_join(seq!['-'], rest, kind);
                    assert(none + only(rest, kind) =~= only(rest, kind));
                }
            }
        },
    }
}

proof fn lemma_hyphenated_keeps(l: Seq<char>)
    ensures
        only(utils::hyphenated(l), |c: char| c != '-') == only(
            l,
            |c: char| chars::alphanumeric(c) && c != '-',
        ),
    decreases l.len(),
{
    if l.len() > 0 {
        lemma_hyphenated_keeps(l.drop_last());
        assert(utils::hyphenated(l).drop_last() =~= utils::hyphenated(l.drop_last()));
    }
}

/// The file name of a title has the letters and numbers of the title in lower case, all of
/// them, in order, and nothing else but hyphens.
pub proof fn law_file_name_keeps_letters(title: Seq<char>)
    ensures
        only(utils::file_name_of(title), |c: char| c != '-') == only(
            chars::lowercase(title),
            |c: char| chars::alphanumeric(c) && c != '-',
        ),
{
    lemma_pieces_keep(utils::hyphenated(chars::lowercase(title)));
    lemma_hyphenated_keeps(chars::lowercase(title));
}

} // verus!
