//! Entries that are read are tidy, so formatting a bibliography twice changes nothing.

use vstd::prelude::*;

use super::bib;
use super::roundtrip;
use crate::chars;
use crate::text;

verus! {

/// Whether the name of the field in a segment is Latin.
pub open spec fn name_is_latin(seg: Seq<char>) -> bool {
    match bib::equals_at(text::trim(seg), 0, 0, false) {
        Some(e) => chars::all_latin(text::trim(text::trim(seg).take(e))),
        None => true,
    }
}

/// Whether the entries of a source from `i` on have types and names of fields in Latin
/// letters. Keys and values may hold any letters.
pub open spec fn names_are_latin(s: Seq<char>, i: int) -> bool
    decreases s.len() - i,
    via names_are_latin_decreases
{
    let at = bib::skip_space(s, i);
    if i < 0 || at >= s.len() || s[at] != '@' {
        true
    } else {
        match bib::entry_at(s, at) {
            None => true,
            Some((_, end)) => {
                let e = bib::kind_end(s, at + 1);
                let open = bib::skip_space(s, e);
                let close = bib::body_end(s, open + 1, s[open] == '{', 0, false);
                let segs = bib::segments(s.subrange(open + 1, close->0), 0, 0, 0, false);
                &&& chars::all_latin(s.subrange(at + 1, e))
                &&& forall|k: int| 0 <= k < segs.len() ==> name_is_latin(#[trigger] segs[k])
                &&& names_are_latin(s, end)
            },
        }
    }
}

#[via_fn]
proof fn names_are_latin_decreases(s: Seq<char>, i: int) {
    if 0 <= i {
        if i <= s.len() {
            bib::lemma_skip_space(s, i);
        }
        let at = bib::skip_space(s, i);
        if at < s.len() {
            bib::lemma_entry_at(s, at);
        }
    }
}

// ---------------------------------------------------------------------------
// Closed texts
// ---------------------------------------------------------------------------

spec fn is_blank(t: Seq<char>) -> bool {
    forall|k: int| 0 <= k < t.len() ==> chars::is_space(#[trigger] t[k])
}

/// White space opens and closes nothing.
proof fn lemma_blank(t: Seq<char>, i: int, depth: int, quoted: bool)
    requires
        is_blank(t),
        0 <= i <= t.len(),
    ensures
        bib::nesting(t, i, depth, quoted) == Some((depth, quoted)),
    decreases t.len() - i,
{
    if i < t.len() {
        assert(chars::is_space(t[i]));
        lemma_blank(t, i + 1, depth, quoted);
    }
}

/// A text is what is left of it when it is trimmed, with white space around it.
proof fn lemma_trim_parts(t: Seq<char>) -> (r: (Seq<char>, Seq<char>))
    ensures
        is_blank(r.0),
        is_blank(r.1),
        t == r.0 + text::trim(t) + r.1,
{
    let x = text::trim_start(t);
    text::lemma_trim_start_len(t);
    text::lemma_trim_end_len(x);
    let a = t.take(t.len() - x.len());
    let b = x.skip(text::trim_end(x).len() as int);
    assert(x =~= text::trim_end(x) + b);
    assert(t =~= a + x);
    assert(t =~= a + text::trim(t) + b);
    (a, b)
}

proof fn lemma_closed_trim(t: Seq<char>)
    requires
        bib::is_closed(t),
    ensures
        bib::is_closed(text::trim(t)),
{
    let (a, b) = lemma_trim_parts(t);
    let m = text::trim(t);
    roundtrip::lemma_nesting_join(a + m, b, 0, 0, false);
    roundtrip::lemma_nesting_join(a, m, 0, 0, false);
    lemma_blank(a, 0, 0, false);
    if let Some((d, q)) = bib::nesting(m, 0, 0, false) {
        lemma_blank(b, 0, d, q);
    }
}

proof fn lemma_blank_marks(t: Seq<char>)
    requires
        is_blank(t),
    ensures
        roundtrip::marks(t) == Seq::<char>::empty(),
{
    assert forall|k: int| 0 <= k < t.len() implies #[trigger] t[k] != '"' && t[k] != '{' && t[k]
        != '}' by {
        assert(chars::is_space(t[k]));
    }
    roundtrip::lemma_unmarked(t);
}

proof fn lemma_trim_marks(t: Seq<char>)
    ensures
        roundtrip::marks(text::trim(t)) == roundtrip::marks(t),
{
    let (a, b) = lemma_trim_parts(t);
    let m = text::trim(t);
    roundtrip::lemma_marks_join(a + m, b);
    roundtrip::lemma_marks_join(a, m);
    lemma_blank_marks(a);
    lemma_blank_marks(b);
    assert(Seq::<char>::empty() + roundtrip::marks(m) + Seq::<char>::empty() =~= roundtrip::marks(
        m,
    ));
}

/// Collapsing white space opens and closes nothing.
proof fn lemma_collapsed_walk(v: Seq<char>, depth: int, quoted: bool)
    ensures
        bib::nesting(bib::collapsed(v), 0, depth, quoted) == bib::nesting(v, 0, depth, quoted),
    decreases v.len(),
{
    reveal_strlit(" ");
    let t = text::trim_start(v);
    text::lemma_trim_start_len(v);
    let a = v.take(v.len() - t.len());
    assert(v =~= a + t);
    roundtrip::lemma_nesting_join(a, t, 0, depth, quoted);
    lemma_blank(a, 0, depth, quoted);
    if t.len() == 0 {
        assert(bib::collapsed(v) =~= Seq::<char>::empty());
    } else {
        text::lemma_word_len(t);
        let n = text::word_len(t);
        let w = t.take(n);
        let rest = t.skip(n);
        let ws = text::words(v);
        let more = text::words(rest);
        assert(t =~= w + rest);
        roundtrip::lemma_nesting_join(w, rest, 0, depth, quoted);
        assert(ws[0] == w);
        assert(ws.skip(1) =~= more);
        if more.len() == 0 {
            assert(ws =~= seq![w]);
            assert(bib::collapsed(v) == w);
            text::lemma_trim_start_len(rest);
            assert(is_blank(rest));
            if let Some((d, q)) = bib::nesting(w, 0, depth, quoted) {
                lemma_blank(rest, 0, d, q);
            }
        } else {
            text::lemma_join_front(ws, " "@);
            let tail = " "@ + bib::collapsed(rest);
            assert(bib::collapsed(v) =~= w + tail);
            roundtrip::lemma_nesting_join(w, tail, 0, depth, quoted);
            if let Some((d, q)) = bib::nesting(w, 0, depth, quoted) {
                roundtrip::lemma_nesting_join(" "@, bib::collapsed(rest), 0, d, q);
                lemma_blank(" "@, 0, d, q);
                lemma_collapsed_walk(rest, d, q);
            }
        }
    }
}

/// Collapsing white space keeps the braces and quotes.
proof fn lemma_collapsed_marks(v: Seq<char>)
    ensures
        roundtrip::marks(bib::collapsed(v)) == roundtrip::marks(v),
    decreases v.len(),
{
    reveal_strlit(" ");
    let none = Seq::<char>::empty();
    let t = text::trim_start(v);
    text::lemma_trim_start_len(v);
    let a = v.take(v.len() - t.len());
    assert(v =~= a + t);
    roundtrip::lemma_marks_join(a, t);
    lemma_blank_marks(a);
    assert(none + roundtrip::marks(t) =~= roundtrip::marks(t));
    if t.len() == 0 {
        assert(bib::collapsed(v) =~= none);
    } else {
        text::lemma_word_len(t);
        let n = text::word_len(t);
        let w = t.take(n);
        let rest = t.skip(n);
        let ws = text::words(v);
        let more = text::words(rest);
        assert(t =~= w + rest);
        roundtrip::lemma_marks_join(w, rest);
        assert(ws[0] == w);
        assert(ws.skip(1) =~= more);
        if more.len() == 0 {
            assert(ws =~= seq![w]);
            assert(bib::collapsed(v) == w);
            text::lemma_trim_start_len(rest);
            assert(is_blank(rest));
            lemma_blank_marks(rest);
            assert(roundtrip::marks(w) + none =~= roundtrip::marks(w));
        } else {
            text::lemma_join_front(ws, " "@);
            let tail = " "@ + bib::collapsed(rest);
            assert(bib::collapsed(v) =~= w + tail);
            roundtrip::lemma_marks_join(w, tail);
            roundtrip::lemma_marks_join(" "@, bib::collapsed(rest));
            lemma_blank_marks(" "@);
            lemma_collapsed_marks(rest);
            assert(none + roundtrip::marks(rest) =~= roundtrip::marks(rest));
        }
    }
}

/// Small letters open and close what the capitals did.
proof fn lemma_lower_walk(t: Seq<char>, i: int, depth: int, quoted: bool)
    requires
        0 <= i <= t.len(),
        chars::all_latin(t),
    ensures
        bib::nesting(chars::latin_lower(t), i, depth, quoted) == bib::nesting(t, i, depth, quoted),
        bib::equals_at(chars::latin_lower(t), i, depth, quoted) == bib::equals_at(
            t,
            i,
            depth,
            quoted,
        ),
    decreases t.len() - i,
{
    if i < t.len() {
        let (d, q) = bib::level_after(t[i], depth, quoted);
        assert(chars::is_latin(t[i]));
        chars::lemma_latin_lower_char(t[i]);
        lemma_lower_walk(t, i + 1, d, q);
    }
}

proof fn lemma_lower_marks(t: Seq<char>)
    requires
        chars::all_latin(t),
    ensures
        roundtrip::marks(chars::latin_lower(t)) == roundtrip::marks(t),
    decreases t.len(),
{
    let l = chars::latin_lower(t);
    if t.len() > 0 {
        assert(chars::is_latin(t.last()));
        chars::lemma_latin_lower_char(t.last());
        assert forall|k: int| 0 <= k < t.drop_last().len() implies chars::is_latin(
            #[trigger] t.drop_last()[k],
        ) by {
            assert(t.drop_last()[k] == t[k]);
        }
        lemma_lower_marks(t.drop_last());
        assert(l.drop_last() =~= chars::latin_lower(t.drop_last()));
        assert(l.last() == chars::latin_lower_char(t.last()));
    }
}

// ---------------------------------------------------------------------------
// Segments
// ---------------------------------------------------------------------------

/// The braces and quotes of segments, from the `k`-th on.
spec fn segment_marks(segs: Seq<Seq<char>>, k: int) -> Seq<char>
    decreases segs.len() - k,
{
    if k < 0 || k >= segs.len() {
        Seq::empty()
    } else {
        roundtrip::marks(segs[k]) + segment_marks(segs, k + 1)
    }
}

proof fn lemma_segment_marks_behind(p: Seq<char>, segs: Seq<Seq<char>>, k: int)
    requires
        0 <= k,
    ensures
        segment_marks(seq![p] + segs, k + 1) == segment_marks(segs, k),
    decreases segs.len() - k,
{
    if k < segs.len() {
        assert((seq![p] + segs)[k + 1] == segs[k]);
        lemma_segment_marks_behind(p, segs, k + 1);
    }
}

/// The segments of a body that leaves nothing open are closed, and have its braces and
/// quotes.
proof fn lemma_segments_closed(s: Seq<char>, from: int, i: int, depth: int, quoted: bool)
    requires
        0 <= from <= i <= s.len(),
        bib::nesting(s.subrange(from, i), 0, 0, false) == Some((depth, quoted)),
        bib::level(s, i, depth, quoted) == (0int, false),
    ensures
        forall|k: int|
            0 <= k < bib::segments(s, from, i, depth, quoted).len() ==> bib::is_closed(
                #[trigger] bib::segments(s, from, i, depth, quoted)[k],
            ),
        segment_marks(bib::segments(s, from, i, depth, quoted), 0) == roundtrip::marks(
            s.subrange(from, s.len() as int),
        ),
    decreases s.len() - i,
{
    let all = bib::segments(s, from, i, depth, quoted);
    let here = s.subrange(from, i);
    if i == s.len() {
        assert(all =~= seq![here]);
        assert(segment_marks(all, 1) =~= Seq::empty());
        assert(segment_marks(all, 0) =~= roundtrip::marks(here));
    } else if s[i] == ',' && depth == 0 && !quoted {
        let rest = bib::segments(s, i + 1, i + 1, depth, quoted);
        assert(s.subrange(i + 1, i + 1) =~= Seq::<char>::empty());
        assert(bib::level_after(',', 0, false) == (0int, false));
        lemma_segments_closed(s, i + 1, i + 1, depth, quoted);
        assert forall|k: int| 0 <= k < all.len() implies bib::is_closed(#[trigger] all[k]) by {
            if k > 0 {
                assert(all[k] == rest[k - 1]);
            }
        }
        let comma = seq![','];
        let behind = s.subrange(i + 1, s.len() as int);
        roundtrip::lemma_unmarked(comma);
        roundtrip::lemma_marks_join(here + comma, behind);
        roundtrip::lemma_marks_join(here, comma);
        assert(s.subrange(from, s.len() as int) =~= here + comma + behind);
        lemma_segment_marks_behind(here, rest, 0);
        assert(roundtrip::marks(here) + Seq::<char>::empty() =~= roundtrip::marks(here));
    } else {
        let (d, q) = bib::level_after(s[i], depth, quoted);
        let c = seq![s[i]];
        assert(s.subrange(from, i + 1) =~= here + c);
        roundtrip::lemma_nesting_join(here, c, 0, 0, false);
        assert(bib::nesting(c, 1, d, q) == Some((d, q)));
        assert(bib::nesting(c, 0, depth, quoted) == Some((d, q)));
        lemma_segments_closed(s, from, i + 1, d, q);
        assert(all == bib::segments(s, from, i + 1, d, q));
    }
}

/// The two sides of the `=` of a closed segment are closed.
proof fn lemma_sides_closed(t: Seq<char>, i: int, depth: int, quoted: bool)
    requires
        0 <= i <= t.len(),
        bib::nesting(t, i, depth, quoted) is Some,
        bib::equals_at(t, i, depth, quoted) is Some,
    ensures
        ({
            let e = bib::equals_at(t, i, depth, quoted)->0;
            &&& i <= e < t.len()
            &&& bib::nesting(t.take(e), i, depth, quoted) == Some((0int, false))
            &&& bib::nesting(t, e + 1, 0, false) == bib::nesting(t, i, depth, quoted)
        }),
    decreases t.len() - i,
{
    if i < t.len() {
        if !(t[i] == '=' && depth == 0 && !quoted) {
            let (d, q) = bib::level_after(t[i], depth, quoted);
            lemma_sides_closed(t, i + 1, d, q);
            let e = bib::equals_at(t, i, depth, quoted)->0;
            assert(t.take(e)[i] == t[i]);
        }
    }
}

// ---------------------------------------------------------------------------
// Names and values
// ---------------------------------------------------------------------------

proof fn lemma_equals_take(t: Seq<char>, i: int, depth: int, quoted: bool)
    requires
        0 <= i <= t.len(),
        bib::equals_at(t, i, depth, quoted) is Some,
    ensures
        ({
            let e = bib::equals_at(t, i, depth, quoted)->0;
            i <= e < t.len() && bib::equals_at(t.take(e), i, depth, quoted) is None
        }),
    decreases t.len() - i,
{
    if i < t.len() && !(t[i] == '=' && depth == 0 && !quoted) {
        let (d, q) = bib::level_after(t[i], depth, quoted);
        lemma_equals_take(t, i + 1, d, q);
        let e = bib::equals_at(t, i, depth, quoted)->0;
        assert(t.take(e)[i] == t[i]);
    }
}

proof fn lemma_equals_behind(a: Seq<char>, y: Seq<char>, i: int, depth: int, quoted: bool)
    requires
        0 <= i <= y.len(),
    ensures
        bib::equals_at(a + y, a.len() + i, depth, quoted) is Some == bib::equals_at(
            y,
            i,
            depth,
            quoted,
        ) is Some,
    decreases y.len() - i,
{
    if i < y.len() {
        assert((a + y)[a.len() + i] == y[i]);
        let (d, q) = bib::level_after(y[i], depth, quoted);
        lemma_equals_behind(a, y, i + 1, d, q);
    }
}

proof fn lemma_equals_before(y: Seq<char>, b: Seq<char>, i: int, depth: int, quoted: bool)
    requires
        0 <= i <= y.len(),
        bib::equals_at(y, i, depth, quoted) is Some,
    ensures
        bib::equals_at(y + b, i, depth, quoted) is Some,
    decreases y.len() - i,
{
    if i < y.len() {
        assert((y + b)[i] == y[i]);
        let (d, q) = bib::level_after(y[i], depth, quoted);
        if !(y[i] == '=' && depth == 0 && !quoted) {
            lemma_equals_before(y, b, i + 1, d, q);
        }
    }
}

proof fn lemma_equals_over_blank(a: Seq<char>, y: Seq<char>, i: int)
    requires
        is_blank(a),
        0 <= i <= a.len(),
    ensures
        bib::equals_at(a + y, i, 0, false) is Some == bib::equals_at(y, 0, 0, false) is Some,
    decreases a.len() - i,
{
    if i < a.len() {
        assert(chars::is_space(a[i]));
        assert((a + y)[i] == a[i]);
        lemma_equals_over_blank(a, y, i + 1);
    } else {
        lemma_equals_behind(a, y, 0, 0, false);
    }
}

proof fn lemma_no_equals_trim(t: Seq<char>)
    requires
        bib::equals_at(t, 0, 0, false) is None,
    ensures
        bib::equals_at(text::trim(t), 0, 0, false) is None,
{
    let (a, b) = lemma_trim_parts(t);
    let m = text::trim(t);
    assert(a + m + b =~= a + (m + b));
    lemma_equals_over_blank(a, m + b, 0);
    if bib::equals_at(m, 0, 0, false) is Some {
        lemma_equals_before(m, b, 0, 0, false);
    }
}

/// A closed name of Latin characters can be read back in lower case.
proof fn lemma_latin_name(raw: Seq<char>)
    requires
        text::trim(raw).len() > 0,
        bib::is_closed(raw),
        bib::equals_at(raw, 0, 0, false) is None,
        chars::all_latin(text::trim(raw)),
    ensures
        roundtrip::is_name(chars::lowercase(text::trim(raw))),
{
    let t = text::trim(raw);
    let n = chars::latin_lower(t);
    super::lemma_trimmed_ends(raw);
    chars::lemma_latin_lower(t);
    assert(chars::is_latin(t[0]) && chars::is_latin(t.last()));
    chars::lemma_latin_lower_char(t[0]);
    chars::lemma_latin_lower_char(t.last());
    lemma_closed_trim(raw);
    lemma_no_equals_trim(raw);
    lemma_lower_walk(t, 0, 0, false);
}

proof fn lemma_fields_are_tidy(segs: Seq<Seq<char>>, k: int)
    requires
        forall|j: int| 0 <= j < segs.len() ==> name_is_latin(#[trigger] segs[j]),
        forall|j: int| 0 <= j < segs.len() ==> bib::is_closed(#[trigger] segs[j]),
    ensures
        bib::fields_from(segs, k) matches Some(f) ==> forall|j: int|
            0 <= j < f.len() ==> roundtrip::is_tidy_field(#[trigger] f[j]),
    decreases segs.len() - k,
{
    if 0 <= k < segs.len() {
        lemma_fields_are_tidy(segs, k + 1);
        let t = text::trim(segs[k]);
        if t.len() > 0 && bib::equals_at(t, 0, 0, false) is Some {
            assert(name_is_latin(segs[k]));
            lemma_equals_take(t, 0, 0, false);
            let e = bib::equals_at(t, 0, 0, false)->0;
            let raw = t.take(e);
            let behind = t.skip(e + 1);
            assert(chars::latin_lower(text::trim(raw)).len() == text::trim(raw).len());
            if let (Some(f), Some(rest)) = (
                bib::fields_from(segs, k),
                bib::fields_from(segs, k + 1),
            ) {
                assert(bib::is_closed(segs[k]));
                lemma_closed_trim(segs[k]);
                lemma_sides_closed(t, 0, 0, false);
                assert(t =~= t.take(e + 1) + behind);
                roundtrip::lemma_nesting_join(t.take(e + 1), behind, e + 1, 0, false);
                lemma_latin_name(raw);
                lemma_closed_trim(behind);
                lemma_collapsed_walk(text::trim(behind), 0, false);
                assert forall|j: int| 0 <= j < f.len() implies roundtrip::is_tidy_field(
                    #[trigger] f[j],
                ) by {
                    if j > 0 {
                        assert(f[j] == rest[j - 1]);
                    }
                }
            }
        }
    }
}

/// The fields of segments have the braces and quotes of the segments.
proof fn lemma_fields_marks(segs: Seq<Seq<char>>, k: int)
    requires
        0 <= k,
        forall|j: int| 0 <= j < segs.len() ==> name_is_latin(#[trigger] segs[j]),
    ensures
        bib::fields_from(segs, k) matches Some(f) ==> roundtrip::field_marks(f) == segment_marks(
            segs,
            k,
        ),
    decreases segs.len() - k,
{
    if k < segs.len() {
        lemma_fields_marks(segs, k + 1);
        let none = Seq::<char>::empty();
        let t = text::trim(segs[k]);
        lemma_trim_marks(segs[k]);
        if t.len() == 0 {
            assert(roundtrip::marks(t) =~= none);
            assert(none + segment_marks(segs, k + 1) =~= segment_marks(segs, k + 1));
        } else if bib::equals_at(t, 0, 0, false) is Some {
            assert(name_is_latin(segs[k]));
            lemma_equals_take(t, 0, 0, false);
            let e = bib::equals_at(t, 0, 0, false)->0;
            let raw = t.take(e);
            let sign = seq![t[e]];
            let behind = t.skip(e + 1);
            lemma_equals_is(t, 0, 0, false);
            assert(t =~= raw + sign + behind);
            roundtrip::lemma_unmarked(sign);
            roundtrip::lemma_marks_join(raw, sign);
            roundtrip::lemma_marks_join(raw + sign, behind);
            lemma_trim_marks(raw);
            lemma_lower_marks(text::trim(raw));
            lemma_trim_marks(behind);
            lemma_collapsed_marks(text::trim(behind));
            assert(roundtrip::marks(raw) + none =~= roundtrip::marks(raw));
            if let (Some(f), Some(rest)) = (
                bib::fields_from(segs, k),
                bib::fields_from(segs, k + 1),
            ) {
                assert(f.skip(1) =~= rest);
            }
        }
    }
}

proof fn lemma_equals_is(t: Seq<char>, i: int, depth: int, quoted: bool)
    requires
        0 <= i <= t.len(),
    ensures
        bib::equals_at(t, i, depth, quoted) matches Some(e) ==> i <= e < t.len() && t[e] == '=',
    decreases t.len() - i,
{
    if i < t.len() {
        let (d, q) = bib::level_after(t[i], depth, quoted);
        lemma_equals_is(t, i + 1, d, q);
    }
}

// ---------------------------------------------------------------------------
// Entries
// ---------------------------------------------------------------------------

proof fn lemma_kind_letters(s: Seq<char>, i: int)
    requires
        0 <= i <= s.len(),
    ensures
        forall|k: int| i <= k < bib::kind_end(s, i) ==> chars::alphanumeric(#[trigger] s[k]),
    decreases s.len() - i,
{
    if i < s.len() && chars::alphanumeric(s[i]) {
        lemma_kind_letters(s, i + 1);
    }
}

proof fn lemma_kind_is_tidy(kind: Seq<char>)
    requires
        kind.len() > 0,
        chars::all_latin(kind),
        forall|k: int| 0 <= k < kind.len() ==> chars::alphanumeric(#[trigger] kind[k]),
    ensures
        roundtrip::is_kind(chars::lowercase(kind)),
{
    let n = chars::latin_lower(kind);
    assert forall|k: int| 0 <= k < n.len() implies chars::alphanumeric(#[trigger] n[k]) by {
        assert(chars::is_latin(kind[k]));
        assert(chars::alphanumeric(kind[k]));
        chars::lemma_latin_lower_char(kind[k]);
    }
    chars::lemma_latin_lower(kind);
}

proof fn lemma_entry_is_tidy(s: Seq<char>, at: int)
    requires
        0 <= at < s.len(),
        s[at] == '@',
        bib::entry_at(s, at) is Some,
        ({
            let e = bib::kind_end(s, at + 1);
            let open = bib::skip_space(s, e);
            let close = bib::body_end(s, open + 1, s[open] == '{', 0, false);
            let segs = bib::segments(s.subrange(open + 1, close->0), 0, 0, 0, false);
            &&& chars::all_latin(s.subrange(at + 1, e))
            &&& forall|k: int| 0 <= k < segs.len() ==> name_is_latin(#[trigger] segs[k])
        }),
    ensures
        roundtrip::is_tidy((bib::entry_at(s, at)->0).0),
{
    let e = bib::kind_end(s, at + 1);
    let open = bib::skip_space(s, e);
    bib::lemma_kind_end(s, at + 1);
    let close = bib::body_end(s, open + 1, s[open] == '{', 0, false)->0;
    let kind = s.subrange(at + 1, e);
    let segs = bib::segments(s.subrange(open + 1, close), 0, 0, 0, false);
    lemma_kind_letters(s, at + 1);
    assert forall|k: int| 0 <= k < kind.len() implies chars::alphanumeric(#[trigger] kind[k]) by {
        assert(kind[k] == s[at + 1 + k]);
    }
    lemma_kind_is_tidy(kind);
    lemma_body_is_tidy(kind, s.subrange(open + 1, close));
}

proof fn lemma_body_is_tidy(kind: Seq<char>, body: Seq<char>)
    requires
        bib::entry_of(kind, body) is Some,
        roundtrip::is_kind(chars::lowercase(kind)),
        forall|k: int|
            0 <= k < bib::segments(body, 0, 0, 0, false).len() ==> name_is_latin(
                #[trigger] bib::segments(body, 0, 0, 0, false)[k],
            ),
    ensures
        roundtrip::is_tidy(bib::entry_of(kind, body)->0),
{
    let segs = bib::segments(body, 0, 0, 0, false);
    let e = bib::entry_of(kind, body)->0;
    assert(body.subrange(0, 0) =~= Seq::<char>::empty());
    assert(body.subrange(0, body.len() as int) =~= body);
    lemma_segments_closed(body, 0, 0, 0, false);
    lemma_fields_are_tidy(segs, 0);
    lemma_fields_are_tidy(segs, 1);
    lemma_fields_marks(segs, 0);
    lemma_fields_marks(segs, 1);
    roundtrip::lemma_bracing_of_marks(body, 0, false);
    if e.key is Some {
        lemma_some_segment(body, 0, 0, 0, false);
        assert(bib::is_closed(segs[0]));
        lemma_closed_trim(segs[0]);
        lemma_trim_marks(segs[0]);
    }
    assert(roundtrip::entry_marks(e) == segment_marks(segs, 0));
}

proof fn lemma_some_segment(s: Seq<char>, from: int, i: int, depth: int, quoted: bool)
    ensures
        bib::segments(s, from, i, depth, quoted).len() > 0,
    decreases s.len() - i,
{
    if 0 <= i < s.len() && !(s[i] == ',' && depth == 0 && !quoted) {
        let (d, q) = bib::level_after(s[i], depth, quoted);
        lemma_some_segment(s, from, i + 1, d, q);
    }
}

proof fn lemma_entries_are_tidy(s: Seq<char>, i: int)
    requires
        0 <= i <= s.len(),
        names_are_latin(s, i),
    ensures
        bib::entries(s, i) matches Some(es) ==> forall|k: int|
            0 <= k < es.len() ==> roundtrip::is_tidy(#[trigger] es[k]),
    decreases s.len() - i,
{
    bib::lemma_skip_space(s, i);
    let at = bib::skip_space(s, i);
    if at < s.len() && s[at] == '@' {
        bib::lemma_entry_at(s, at);
        if let Some((entry, end)) = bib::entry_at(s, at) {
            lemma_entry_is_tidy(s, at);
            lemma_entries_are_tidy(s, end);
            if let (Some(es), Some(rest)) = (bib::entries(s, i), bib::entries(s, end)) {
                assert forall|k: int| 0 <= k < es.len() implies roundtrip::is_tidy(
                    #[trigger] es[k],
                ) by {
                    if k > 0 {
                        assert(es[k] == rest[k - 1]);
                    }
                }
            }
        }
    }
}

/// A bibliography whose types and names of fields are Latin has one formatted form:
/// formatting it loses no entry and no field, and formatting it again changes nothing.
pub proof fn law_bibliographies_have_one_form(source: Seq<char>)
    requires
        names_are_latin(source, 0),
    ensures
        bib::formatted_bib(bib::formatted_bib(source)) == bib::formatted_bib(source),
        bib::entries(bib::formatted_bib(source), 0) == bib::entries(source, 0),
{
    lemma_entries_are_tidy(source, 0);
    roundtrip::law_format_bib_is_idempotent(source);
    if let Some(es) = bib::entries(source, 0) {
        if es.len() > 0 {
            roundtrip::law_formatting_keeps_entries(source);
        }
    }
}

/// The same of a Latin bibliography, whatever stands in it.
pub proof fn law_latin_bibliographies_have_one_form(source: Seq<char>)
    requires
        chars::all_latin(source),
    ensures
        bib::formatted_bib(bib::formatted_bib(source)) == bib::formatted_bib(source),
        bib::entries(bib::formatted_bib(source), 0) == bib::entries(source, 0),
{
    lemma_latin_names(source, 0);
    law_bibliographies_have_one_form(source);
}

proof fn lemma_latin_part(s: Seq<char>, a: int, b: int)
    requires
        chars::all_latin(s),
        0 <= a <= b <= s.len(),
    ensures
        chars::all_latin(s.subrange(a, b)),
{
    let t = s.subrange(a, b);
    assert forall|k: int| 0 <= k < t.len() implies chars::is_latin(#[trigger] t[k]) by {
        assert(t[k] == s[a + k]);
        assert(chars::is_latin(s[a + k]));
    }
}

proof fn lemma_latin_trim(t: Seq<char>)
    requires
        chars::all_latin(t),
    ensures
        chars::all_latin(text::trim(t)),
{
    let (a, b) = lemma_trim_parts(t);
    let m = text::trim(t);
    assert(m =~= t.subrange(a.len() as int, a.len() + m.len() as int));
    lemma_latin_part(t, a.len() as int, a.len() + m.len() as int);
}

proof fn lemma_latin_segments(s: Seq<char>, from: int, i: int, depth: int, quoted: bool)
    requires
        chars::all_latin(s),
        0 <= from <= i <= s.len(),
    ensures
        forall|k: int|
            0 <= k < bib::segments(s, from, i, depth, quoted).len() ==> name_is_latin(
                #[trigger] bib::segments(s, from, i, depth, quoted)[k],
            ),
    decreases s.len() - i,
{
    let all = bib::segments(s, from, i, depth, quoted);
    if i == s.len() {
        lemma_latin_part(s, from, i);
        lemma_latin_segment(s.subrange(from, i));
        assert(all =~= seq![s.subrange(from, i)]);
    } else if s[i] == ',' && depth == 0 && !quoted {
        lemma_latin_part(s, from, i);
        lemma_latin_segment(s.subrange(from, i));
        lemma_latin_segments(s, i + 1, i + 1, depth, quoted);
        let rest = bib::segments(s, i + 1, i + 1, depth, quoted);
        assert forall|k: int| 0 <= k < all.len() implies name_is_latin(#[trigger] all[k]) by {
            if k > 0 {
                assert(all[k] == rest[k - 1]);
            }
        }
    } else {
        let (d, q) = bib::level_after(s[i], depth, quoted);
        lemma_latin_segments(s, from, i + 1, d, q);
        assert(all == bib::segments(s, from, i + 1, d, q));
    }
}

proof fn lemma_latin_segment(seg: Seq<char>)
    requires
        chars::all_latin(seg),
    ensures
        name_is_latin(seg),
{
    let t = text::trim(seg);
    lemma_latin_trim(seg);
    if bib::equals_at(t, 0, 0, false) is Some {
        lemma_equals_take(t, 0, 0, false);
        let e = bib::equals_at(t, 0, 0, false)->0;
        assert(t.take(e) =~= t.subrange(0, e));
        lemma_latin_part(t, 0, e);
        lemma_latin_trim(t.take(e));
    }
}

proof fn lemma_latin_names(s: Seq<char>, i: int)
    requires
        0 <= i <= s.len(),
        chars::all_latin(s),
    ensures
        names_are_latin(s, i),
    decreases s.len() - i,
{
    bib::lemma_skip_space(s, i);
    let at = bib::skip_space(s, i);
    if at < s.len() && s[at] == '@' {
        bib::lemma_entry_at(s, at);
        if let Some((_, end)) = bib::entry_at(s, at) {
            let e = bib::kind_end(s, at + 1);
            let open = bib::skip_space(s, e);
            bib::lemma_kind_end(s, at + 1);
            bib::lemma_skip_space(s, e);
            bib::lemma_body_end(s, open + 1, s[open] == '{', 0, false);
            let close = bib::body_end(s, open + 1, s[open] == '{', 0, false)->0;
            lemma_latin_part(s, at + 1, e);
            lemma_latin_part(s, open + 1, close);
            lemma_latin_segments(s.subrange(open + 1, close), 0, 0, 0, false);
            lemma_latin_names(s, end);
        }
    }
}

} // verus!
