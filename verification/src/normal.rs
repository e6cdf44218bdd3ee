//! Normalized text: what normalizing leaves behind, and that doing it again changes
//! nothing.

use vstd::prelude::*;

use crate::chars;
use crate::pdftext;
use crate::text;

verus! {

/// Whether a character is one of the ligatures U+FB00 to U+FB06.
pub open spec fn is_ligature(c: char) -> bool {
    '\u{FB00}' <= c <= '\u{FB06}'
}

/// Whether a character is neither a ligature nor a soft hyphen.
pub open spec fn is_settled(c: char) -> bool {
    !is_ligature(c) && c != '\u{AD}'
}

/// Whether a text holds neither ligatures nor soft hyphens.
pub open spec fn all_settled(s: Seq<char>) -> bool {
    forall|k: int| 0 <= k < s.len() ==> is_settled(#[trigger] s[k])
}

/// Whether a text holds no hyphen that splits a word.
pub open spec fn no_split(s: Seq<char>) -> bool {
    forall|k: int| 0 <= k < s.len() ==> !#[trigger] pdftext::splits_word(s, k)
}

// ---------------------------------------------------------------------------
// Ligatures and soft hyphens
// ---------------------------------------------------------------------------

proof fn lemma_letters_settled(c: char)
    ensures
        forall|k: int|
            0 <= k < pdftext::letters_of(c).len() ==> !is_ligature(
                #[trigger] pdftext::letters_of(c)[k],
            ),
        !is_ligature(c) ==> pdftext::letters_of(c) == seq![c],
{
    reveal_strlit("ff");
    reveal_strlit("fi");
    reveal_strlit("fl");
    reveal_strlit("ffi");
    reveal_strlit("ffl");
    reveal_strlit("st");
    if !is_ligature(c) {
        assert(pdftext::letters_of(c) == seq![c]);
    }
}

/// No ligature is left in a text whose ligatures are spelled out.
proof fn lemma_expanded(s: Seq<char>)
    ensures
        forall|k: int|
            0 <= k < pdftext::expanded(s).len() ==> !is_ligature(
                #[trigger] pdftext::expanded(s)[k],
            ),
    decreases s.len(),
{
    if s.len() > 0 {
        let before = pdftext::expanded(s.drop_last());
        let letters = pdftext::letters_of(s.last());
        lemma_expanded(s.drop_last());
        lemma_letters_settled(s.last());
        assert forall|k: int| 0 <= k < pdftext::expanded(s).len() implies !is_ligature(
            #[trigger] pdftext::expanded(s)[k],
        ) by {
            if k < before.len() {
                assert(pdftext::expanded(s)[k] == before[k]);
            } else {
                assert(pdftext::expanded(s)[k] == letters[k - before.len()]);
            }
        }
    }
}

proof fn lemma_expanded_same(s: Seq<char>)
    requires
        forall|k: int| 0 <= k < s.len() ==> !is_ligature(#[trigger] s[k]),
    ensures
        pdftext::expanded(s) == s,
    decreases s.len(),
{
    if s.len() > 0 {
        assert forall|k: int| 0 <= k < s.drop_last().len() implies !is_ligature(
            #[trigger] s.drop_last()[k],
        ) by {
            assert(s.drop_last()[k] == s[k]);
        }
        lemma_expanded_same(s.drop_last());
        assert(!is_ligature(s[s.len() - 1]));
        lemma_letters_settled(s.last());
        assert(s =~= s.drop_last() + seq![s.last()]);
    } else {
        assert(pdftext::expanded(s) =~= s);
    }
}

/// No soft hyphen is left where they are taken out, and nothing is put in.
proof fn lemma_without_soft(s: Seq<char>)
    requires
        forall|k: int| 0 <= k < s.len() ==> !is_ligature(#[trigger] s[k]),
    ensures
        all_settled(text::replace(s, "\u{00AD}"@, Seq::empty())),
    decreases s.len(),
{
    let p = "\u{00AD}"@;
    let r = text::replace(s, p, Seq::empty());
    reveal_strlit("\u{00AD}");
    text::lemma_find_bounds(s, p, 0);
    match text::find(s, p) {
        None => {
            assert forall|k: int| 0 <= k < s.len() implies is_settled(#[trigger] s[k]) by {
                assert(!text::matches_at(s, k, p));
                assert(!is_ligature(s[k]));
                if s[k] == '\u{AD}' {
                    assert(s.subrange(k, k + 1) =~= p);
                }
            }
        },
        Some(i) => {
            let rest = s.skip(i + 1);
            assert forall|k: int| 0 <= k < rest.len() implies !is_ligature(#[trigger] rest[k]) by {
                assert(rest[k] == s[i + 1 + k]);
            }
            lemma_without_soft(rest);
            let tail = text::replace(rest, p, Seq::empty());
            assert(r =~= s.take(i) + tail);
            assert forall|k: int| 0 <= k < r.len() implies is_settled(#[trigger] r[k]) by {
                if k < i {
                    assert(r[k] == s[k]);
                    assert(!is_ligature(s[k]));
                    assert(!text::matches_at(s, k, p));
                    if s[k] == '\u{AD}' {
                        assert(s.subrange(k, k + 1) =~= p);
                    }
                } else {
                    assert(r[k] == tail[k - i]);
                }
            }
        },
    }
}

proof fn lemma_without_soft_same(s: Seq<char>)
    requires
        all_settled(s),
    ensures
        text::replace(s, "\u{00AD}"@, Seq::empty()) == s,
{
    let p = "\u{00AD}"@;
    reveal_strlit("\u{00AD}");
    text::lemma_find_bounds(s, p, 0);
    if let Some(i) = text::find(s, p) {
        assert(s.subrange(i, i + 1)[0] == s[i]);
        assert(is_settled(s[i]));
    }
}

// ---------------------------------------------------------------------------
// Split words
// ---------------------------------------------------------------------------

proof fn lemma_past_breaks(s: Seq<char>, j: int)
    requires
        0 <= j <= s.len(),
    ensures
        j <= pdftext::past_breaks(s, j) <= s.len(),
        forall|k: int|
            j <= k < pdftext::past_breaks(s, j) ==> #[trigger] s[k] == '\n' || s[k] == '\r',
        pdftext::past_breaks(s, j) < s.len() ==> s[pdftext::past_breaks(s, j)] != '\n' && s[
        pdftext::past_breaks(s, j)] != '\r',
    decreases s.len() - j,
{
    if j < s.len() && (s[j] == '\n' || s[j] == '\r') {
        lemma_past_breaks(s, j + 1);
    }
}

proof fn lemma_past_breaks_is(s: Seq<char>, j: int, e: int)
    requires
        0 <= j <= e <= s.len(),
        forall|k: int| j <= k < e ==> #[trigger] s[k] == '\n' || s[k] == '\r',
        e < s.len() ==> s[e] != '\n' && s[e] != '\r',
    ensures
        pdftext::past_breaks(s, j) == e,
    decreases e - j,
{
    if j < e {
        assert(s[j] == '\n' || s[j] == '\r');
        lemma_past_breaks_is(s, j + 1, e);
    }
}

/// Whether the hyphen splits a word depends on what stands from the character before it
/// on.
proof fn lemma_split_shift(a: Seq<char>, s: Seq<char>, k: int)
    requires
        0 < k < s.len(),
    ensures
        pdftext::splits_word(a + s, a.len() + k) == pdftext::splits_word(s, k),
{
    let t = a + s;
    let n = a.len() as int;
    lemma_past_breaks(s, k + 1);
    let e = pdftext::past_breaks(s, k + 1);
    assert forall|i: int| n + k + 1 <= i < n + e implies #[trigger] t[i] == '\n' || t[i]
        == '\r' by {
        assert(t[i] == s[i - n]);
    }
    if e < s.len() {
        assert(t[n + e] == s[e]);
    }
    lemma_past_breaks_is(t, n + k + 1, n + e);
    assert(t[n + k] == s[k]);
    assert(t[n + k - 1] == s[k - 1]);
}

/// Line breaks are kept, and so is what stands behind them.
proof fn lemma_breaks_kept(s: Seq<char>, i: int)
    requires
        0 <= i <= s.len(),
    ensures
        ({
            let e = pdftext::past_breaks(s, i);
            let r = pdftext::rejoined(s, i);
            &&& r.len() >= e - i
            &&& forall|k: int| 0 <= k < e - i ==> #[trigger] r[k] == s[i + k]
            &&& e > i && e < s.len() ==> r.len() > e - i && r[e - i] == s[e]
            &&& e == s.len() ==> r.len() == e - i
        }),
    decreases s.len() - i,
{
    let e = pdftext::past_breaks(s, i);
    let r = pdftext::rejoined(s, i);
    lemma_past_breaks(s, i);
    if e > i {
        let rest = pdftext::rejoined(s, i + 1);
        assert(s[i] == '\n' || s[i] == '\r');
        assert(r == seq![s[i]] + rest);
        if e > i + 1 {
            lemma_breaks_kept(s, i + 1);
        } else if e < s.len() {
            assert(!chars::alphabetic(s[e - 1]));
            assert(!pdftext::splits_word(s, e));
            assert(rest[0] == s[e]);
        }
        assert forall|k: int| 0 <= k < e - i implies #[trigger] r[k] == s[i + k] by {
            if k > 0 {
                assert(r[k] == rest[k - 1]);
                assert(rest[k - 1] == s[i + 1 + (k - 1)]);
            }
        }
        if e > i + 1 && e < s.len() {
            assert(r[e - i] == rest[e - i - 1]);
        }
    }
}

/// No hyphen behind the first character of what is rejoined splits a word, and, with the
/// character before it, neither does the first.
proof fn lemma_rejoined_splits_nothing(s: Seq<char>, i: int)
    requires
        0 <= i <= s.len(),
    ensures
        ({
            let r = pdftext::rejoined(s, i);
            &&& forall|k: int| 1 <= k < r.len() ==> !#[trigger] pdftext::splits_word(r, k)
            &&& i > 0 && r.len() > 0 ==> !pdftext::splits_word(seq![s[i - 1]] + r, 1)
        }),
    decreases s.len() - i,
{
    let r = pdftext::rejoined(s, i);
    if i < s.len() {
        lemma_past_breaks(s, i + 1);
        let e = pdftext::past_breaks(s, i + 1);
        if pdftext::splits_word(s, i) {
            lemma_rejoined_splits_nothing(s, e);
            assert(s[e] != '-');
            assert(!pdftext::splits_word(s, e));
            assert(r[0] == s[e]);
            assert((seq![s[i - 1]] + r)[1] == s[e]);
        } else {
            let rest = pdftext::rejoined(s, i + 1);
            lemma_rejoined_splits_nothing(s, i + 1);
            assert(r == seq![s[i]] + rest);
            assert forall|k: int| 1 <= k < r.len() implies !#[trigger] pdftext::splits_word(
                r,
                k,
            ) by {
                if k > 1 {
                    lemma_split_shift(seq![s[i]], rest, k - 1);
                }
            }
            if i > 0 {
                let t = seq![s[i - 1]] + r;
                if pdftext::splits_word(t, 1) {
                    assert(t[1] == s[i]);
                    assert(t[0] == s[i - 1]);
                    let f = pdftext::past_breaks(t, 2);
                    lemma_past_breaks(t, 2);
                    lemma_breaks_kept(s, i + 1);
                    assert(t[2] == rest[0]);
                    assert(t[2] == '\n' || t[2] == '\r');
                    if e == i + 1 {
                        if e < s.len() {
                            assert(!pdftext::splits_word(s, e));
                            assert(rest[0] == s[e]);
                        }
                    } else {
                        let n = e - (i + 1);
                        assert forall|k: int| 2 <= k < 2 + n implies #[trigger] t[k] == '\n'
                            || t[k] == '\r' by {
                            assert(t[k] == rest[k - 2]);
                            assert(rest[k - 2] == s[i + 1 + (k - 2)]);
                        }
                        if e < s.len() {
                            assert(t[2 + n] == rest[n]);
                        }
                        lemma_past_breaks_is(t, 2, 2 + n);
                    }
                }
            }
        }
    }
}

proof fn lemma_rejoined_no_split(s: Seq<char>)
    ensures
        no_split(pdftext::rejoined(s, 0)),
{
    lemma_rejoined_splits_nothing(s, 0);
}

proof fn lemma_rejoined_same(s: Seq<char>, i: int)
    requires
        0 <= i <= s.len(),
        no_split(s),
    ensures
        pdftext::rejoined(s, i) == s.skip(i),
    decreases s.len() - i,
{
    if i < s.len() {
        assert(!pdftext::splits_word(s, i));
        lemma_rejoined_same(s, i + 1);
        assert(s.skip(i) =~= seq![s[i]] + s.skip(i + 1));
    } else {
        assert(s.skip(i) =~= Seq::<char>::empty());
    }
}

proof fn lemma_rejoined_settled(s: Seq<char>, i: int)
    requires
        0 <= i <= s.len(),
        all_settled(s),
    ensures
        all_settled(pdftext::rejoined(s, i)),
    decreases s.len() - i,
{
    if i < s.len() {
        if pdftext::splits_word(s, i) {
            lemma_past_breaks(s, i + 1);
            lemma_rejoined_settled(s, pdftext::past_breaks(s, i + 1));
        } else {
            let rest = pdftext::rejoined(s, i + 1);
            lemma_rejoined_settled(s, i + 1);
            let r = pdftext::rejoined(s, i);
            assert forall|k: int| 0 <= k < r.len() implies is_settled(#[trigger] r[k]) by {
                if k > 0 {
                    assert(r[k] == rest[k - 1]);
                } else {
                    assert(is_settled(s[i]));
                }
            }
        }
    }
}

// ---------------------------------------------------------------------------
// Laws
// ---------------------------------------------------------------------------

/// Normalized text holds no ligature, no soft hyphen and no hyphen that splits a word at
/// a line break.
pub proof fn law_normalized_is_settled(s: Seq<char>)
    ensures
        all_settled(pdftext::normalized(s)),
        no_split(pdftext::normalized(s)),
{
    lemma_expanded(s);
    lemma_without_soft(pdftext::expanded(s));
    let t = text::replace(pdftext::expanded(s), "\u{00AD}"@, Seq::empty());
    lemma_rejoined_settled(t, 0);
    lemma_rejoined_no_split(t);
}

/// Normalizing normalized text changes nothing.
pub proof fn law_normalizing_is_idempotent(s: Seq<char>)
    ensures
        pdftext::normalized(pdftext::normalized(s)) == pdftext::normalized(s),
{
    let r = pdftext::normalized(s);
    law_normalized_is_settled(s);
    assert forall|k: int| 0 <= k < r.len() implies !is_ligature(#[trigger] r[k]) by {
        assert(is_settled(r[k]));
    }
    lemma_expanded_same(r);
    lemma_without_soft_same(r);
    lemma_rejoined_same(r, 0);
    assert(r.skip(0) =~= r);
}

/// Ligatures are spelled out one by one: those of two texts side by side are those of each.
pub proof fn law_expanding_distributes(a: Seq<char>, b: Seq<char>)
    ensures
        pdftext::expanded(a + b) == pdftext::expanded(a) + pdftext::expanded(b),
    decreases b.len(),
{
    if b.len() == 0 {
        assert(a + b =~= a);
        assert(pdftext::expanded(a) + pdftext::expanded(b) =~= pdftext::expanded(a));
    } else {
        law_expanding_distributes(a, b.drop_last());
        assert((a + b).drop_last() =~= a + b.drop_last());
        assert((a + b).last() == b.last());
        assert(pdftext::expanded(a + b) =~= pdftext::expanded(a) + pdftext::expanded(b));
    }
}

} // verus!
