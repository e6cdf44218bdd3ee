//! What reading a formatted bibliography gives back.

use vstd::prelude::*;

use super::bib::{self, Entry};
use crate::chars;
use crate::text;

verus! {

// ---------------------------------------------------------------------------
// Tidy entries
// ---------------------------------------------------------------------------

/// Whether a character has no meaning of its own between fields.
pub open spec fn is_plain(c: char) -> bool {
    c != '"' && c != '{' && c != '}' && c != ',' && c != '='
}

/// Whether a text is the name of a field: trimmed, in lower case, closed, and without an
/// `=` outside its braces and quotes.
pub open spec fn is_name(n: Seq<char>) -> bool {
    &&& n.len() > 0
    &&& chars::lowercase(n) == n
    &&& bib::is_closed(n)
    &&& bib::equals_at(n, 0, 0, false) is None
    &&& !chars::is_space(n[0])
    &&& !chars::is_space(n.last())
}

/// Whether a text is the type of an entry, in lower case.
pub open spec fn is_kind(n: Seq<char>) -> bool {
    &&& n.len() > 0
    &&& chars::lowercase(n) == n
    &&& forall|k: int| 0 <= k < n.len() ==> chars::alphanumeric(#[trigger] n[k])
}

/// Whether a field has a name that can be read back and a closed value.
pub open spec fn is_tidy_field(f: (Seq<char>, Seq<char>)) -> bool {
    is_name(f.0) && bib::is_closed(f.1)
}

/// The braces and quotes of a text.
pub open spec fn marks(t: Seq<char>) -> Seq<char>
    decreases t.len(),
{
    if t.len() == 0 {
        Seq::empty()
    } else if t.last() == '"' || t.last() == '{' || t.last() == '}' {
        marks(t.drop_last()).push(t.last())
    } else {
        marks(t.drop_last())
    }
}

/// The braces and quotes of fields.
pub open spec fn field_marks(fields: Seq<(Seq<char>, Seq<char>)>) -> Seq<char>
    decreases fields.len(),
{
    if fields.len() == 0 {
        Seq::empty()
    } else {
        marks(fields[0].0) + marks(fields[0].1) + field_marks(fields.skip(1))
    }
}

/// The braces and quotes of an entry.
pub open spec fn entry_marks(e: Entry) -> Seq<char> {
    match e.key {
        Some(key) => marks(key) + field_marks(e.fields),
        None => field_marks(e.fields),
    }
}

/// Whether an entry can be written in braces and its parts told apart: its type is a word,
/// its key, its names and its values are closed, and all of it together is balanced.
pub open spec fn is_tidy(e: Entry) -> bool {
    &&& is_kind(e.kind)
    &&& e.key matches Some(k) ==> bib::is_closed(k)
    &&& forall|k: int| 0 <= k < e.fields.len() ==> is_tidy_field(#[trigger] e.fields[k])
    &&& bib::bracing(entry_marks(e), 0, 0, false) == Some((0int, false))
}

/// An entry as reading makes them: with a key where its type asks for one, which is
/// trimmed and holds no `=`, with one field at most where it has no key, and with values
/// in which white space is collapsed.
pub open spec fn is_read(e: Entry) -> bool {
    &&& e.key is None == bib::is_keyless(e.kind)
    &&& e.key is None ==> e.fields.len() <= 1
    &&& e.key matches Some(k) ==> k.len() > 0 && text::trim(k) == k && !k.contains('=')
    &&& forall|k: int|
        0 <= k < e.fields.len() ==> bib::collapsed((#[trigger] e.fields[k]).1) == e.fields[k].1
}

// ---------------------------------------------------------------------------
// White space
// ---------------------------------------------------------------------------

pub proof fn lemma_trim_start_is(sp: Seq<char>, t: Seq<char>)
    requires
        forall|i: int| 0 <= i < sp.len() ==> chars::is_space(#[trigger] sp[i]),
        t.len() > 0 ==> !chars::is_space(t[0]),
    ensures
        text::trim_start(sp + t) == t,
    decreases sp.len(),
{
    if sp.len() == 0 {
        assert(sp + t =~= t);
    } else {
        assert((sp + t)[0] == sp[0]);
        assert((sp + t).skip(1) =~= sp.skip(1) + t);
        assert forall|i: int| 0 <= i < sp.skip(1).len() implies chars::is_space(
            #[trigger] sp.skip(1)[i],
        ) by {
            assert(sp.skip(1)[i] == sp[i + 1]);
        }
        lemma_trim_start_is(sp.skip(1), t);
    }
}

proof fn lemma_trim_end_is(t: Seq<char>, sp: Seq<char>)
    requires
        forall|i: int| 0 <= i < sp.len() ==> chars::is_space(#[trigger] sp[i]),
        t.len() > 0 ==> !chars::is_space(t.last()),
    ensures
        text::trim_end(t + sp) == t,
    decreases sp.len(),
{
    if sp.len() == 0 {
        assert(t + sp =~= t);
    } else {
        assert((t + sp).last() == sp.last());
        assert((t + sp).drop_last() =~= t + sp.drop_last());
        assert forall|i: int| 0 <= i < sp.drop_last().len() implies chars::is_space(
            #[trigger] sp.drop_last()[i],
        ) by {
            assert(sp.drop_last()[i] == sp[i]);
        }
        lemma_trim_end_is(t, sp.drop_last());
    }
}

/// A text that neither begins nor ends with white space is what is left when white space
/// around it is trimmed.
proof fn lemma_trim_is(a: Seq<char>, t: Seq<char>, b: Seq<char>)
    requires
        forall|i: int| 0 <= i < a.len() ==> chars::is_space(#[trigger] a[i]),
        forall|i: int| 0 <= i < b.len() ==> chars::is_space(#[trigger] b[i]),
        t.len() > 0,
        !chars::is_space(t[0]),
        !chars::is_space(t.last()),
    ensures
        text::trim(a + t + b) == t,
{
    assert(a + t + b =~= a + (t + b));
    assert((t + b)[0] == t[0]);
    lemma_trim_start_is(a, t + b);
    lemma_trim_end_is(t, b);
}

proof fn lemma_trim_of_space(a: Seq<char>)
    requires
        forall|i: int| 0 <= i < a.len() ==> chars::is_space(#[trigger] a[i]),
    ensures
        text::trim(a) == Seq::<char>::empty(),
{
    assert(a + Seq::<char>::empty() =~= a);
    lemma_trim_start_is(a, Seq::empty());
}

proof fn lemma_trimmed_ends(t: Seq<char>)
    requires
        text::trim(t) == t,
        t.len() > 0,
    ensures
        !chars::is_space(t[0]),
        !chars::is_space(t.last()),
{
    text::lemma_trim_start_len(t);
    text::lemma_trim_end_len(text::trim_start(t));
    assert(text::trim_start(t) =~= t);
}

proof fn lemma_spaces(n: nat)
    ensures
        text::repeat(" "@, n).len() == n,
        forall|i: int| 0 <= i < n ==> #[trigger] text::repeat(" "@, n)[i] == ' ',
    decreases n,
{
    reveal_strlit(" ");
    if n > 0 {
        lemma_spaces((n - 1) as nat);
        let before = text::repeat(" "@, (n - 1) as nat);
        let all = text::repeat(" "@, n);
        assert forall|i: int| 0 <= i < n implies #[trigger] all[i] == ' ' by {
            if i < before.len() {
                assert(all[i] == before[i]);
            }
        }
    }
}

// ---------------------------------------------------------------------------
// Collapsed values
// ---------------------------------------------------------------------------

/// Whether texts are words: not empty, and without white space.
spec fn are_words(ws: Seq<Seq<char>>) -> bool {
    forall|k: int| 0 <= k < ws.len() ==> is_word(#[trigger] ws[k])
}

spec fn is_word(w: Seq<char>) -> bool {
    w.len() > 0 && forall|i: int| 0 <= i < w.len() ==> !chars::is_space(#[trigger] w[i])
}

proof fn lemma_words_are_words(s: Seq<char>)
    ensures
        are_words(text::words(s)),
    decreases s.len(),
{
    let t = text::trim_start(s);
    text::lemma_trim_start_len(s);
    if t.len() > 0 {
        text::lemma_word_len(t);
        let w = t.take(text::word_len(t));
        let rest = text::words(t.skip(text::word_len(t)));
        lemma_words_are_words(t.skip(text::word_len(t)));
        assert(is_word(w)) by {
            assert forall|i: int| 0 <= i < w.len() implies !chars::is_space(#[trigger] w[i]) by {
                assert(w[i] == t[i]);
            }
        }
        assert forall|k: int| 0 <= k < text::words(s).len() implies is_word(
            #[trigger] text::words(s)[k],
        ) by {
            if k > 0 {
                assert(text::words(s)[k] == rest[k - 1]);
            }
        }
    }
}

proof fn lemma_words_of_join(ws: Seq<Seq<char>>)
    requires
        are_words(ws),
    ensures
        text::words(text::join(ws, " "@)) == ws,
    decreases ws.len(),
{
    reveal_strlit(" ");
    let j = text::join(ws, " "@);
    if ws.len() == 0 {
        assert(text::words(j) =~= ws);
    } else {
        let w = ws[0];
        let rest = ws.skip(1);
        assert(is_word(w));
        assert(are_words(rest)) by {
            assert forall|k: int| 0 <= k < rest.len() implies is_word(#[trigger] rest[k]) by {
                assert(rest[k] == ws[k + 1]);
            }
        }
        lemma_words_of_join(rest);
        if ws.len() == 1 {
            assert(rest =~= Seq::<Seq<char>>::empty());
            assert(j == w);
        } else {
            text::lemma_join_front(ws, " "@);
            assert(j[w.len() as int] == ' ');
        }
        assert(j[0] == w[0]);
        text::lemma_word_len(j);
        let n = text::word_len(j);
        if n < w.len() {
            assert(j[n] == w[n]);
        }
        assert(n == w.len());
        assert(j.take(n) =~= w);
        let behind = j.skip(n);
        if ws.len() == 1 {
            assert(behind =~= Seq::<char>::empty());
            assert(text::words(behind) =~= rest);
        } else {
            assert(behind[0] == ' ');
            assert(behind.skip(1) =~= text::join(rest, " "@));
            assert(text::trim_start(behind) == text::trim_start(behind.skip(1)));
            assert(text::words(behind) == text::words(behind.skip(1)));
        }
        assert(text::words(j) =~= seq![w] + rest);
        assert(ws =~= seq![w] + rest);
    }
}

proof fn lemma_join_ends(ws: Seq<Seq<char>>)
    requires
        are_words(ws),
        ws.len() > 0,
    ensures
        text::join(ws, " "@).len() > 0,
        !chars::is_space(text::join(ws, " "@)[0]),
        !chars::is_space(text::join(ws, " "@).last()),
    decreases ws.len(),
{
    reveal_strlit(" ");
    assert(is_word(ws[0]));
    assert(is_word(ws.last()));
    if ws.len() > 1 {
        let front = ws.drop_last();
        assert(are_words(front)) by {
            assert forall|k: int| 0 <= k < front.len() implies is_word(#[trigger] front[k]) by {
                assert(front[k] == ws[k]);
            }
        }
        lemma_join_ends(front);
        let j = text::join(ws, " "@);
        let before = text::join(front, " "@);
        assert(j[0] == before[0]);
        assert(j.last() == ws.last().last());
    }
}

/// Collapsing white space twice is no different from collapsing it once, and leaves
/// nothing to trim.
proof fn lemma_collapsed(v: Seq<char>)
    ensures
        bib::collapsed(bib::collapsed(v)) == bib::collapsed(v),
{
    lemma_words_are_words(v);
    lemma_words_of_join(text::words(v));
}

proof fn lemma_collapsed_ends(v: Seq<char>)
    requires
        bib::collapsed(v) == v,
        v.len() > 0,
    ensures
        !chars::is_space(v[0]),
        !chars::is_space(v.last()),
{
    lemma_words_are_words(v);
    if text::words(v).len() > 0 {
        lemma_join_ends(text::words(v));
    }
}

proof fn lemma_fields_read(segs: Seq<Seq<char>>, k: int)
    ensures
        bib::fields_from(segs, k) matches Some(f) ==> forall|j: int|
            0 <= j < f.len() ==> bib::collapsed((#[trigger] f[j]).1) == f[j].1,
    decreases segs.len() - k,
{
    if 0 <= k < segs.len() {
        lemma_fields_read(segs, k + 1);
        let t = text::trim(segs[k]);
        if t.len() > 0 {
            if let Some(e) = bib::equals_at(t, 0, 0, false) {
                lemma_collapsed(text::trim(t.skip(e + 1)));
                if let Some(f) = bib::fields_from(segs, k) {
                    if let Some(rest) = bib::fields_from(segs, k + 1) {
                        assert forall|j: int| 0 <= j < f.len() implies bib::collapsed(
                            (#[trigger] f[j]).1,
                        ) == f[j].1 by {
                            if j > 0 {
                                assert(f[j] == rest[j - 1]);
                            }
                        }
                    }
                }
            }
        }
    }
}

proof fn lemma_entry_read(kind: Seq<char>, body: Seq<char>)
    ensures
        bib::entry_of(kind, body) matches Some(e) ==> is_read(e),
{
    let segs = bib::segments(body, 0, 0, 0, false);
    lemma_fields_read(segs, 0);
    lemma_fields_read(segs, 1);
    if let Some(e) = bib::entry_of(kind, body) {
        if let Some(key) = e.key {
            super::lemma_trimmed_ends(segs[0]);
            let none = Seq::<char>::empty();
            assert(none + key + none =~= key);
            lemma_trim_is(none, key, none);
        }
    }
}

/// Entries are read as [`is_read`] says.
proof fn lemma_entries_read(s: Seq<char>, i: int)
    requires
        0 <= i <= s.len(),
    ensures
        bib::entries(s, i) matches Some(es) ==> forall|k: int|
            0 <= k < es.len() ==> is_read(#[trigger] es[k]),
    decreases s.len() - i,
{
    bib::lemma_skip_space(s, i);
    let at = bib::skip_space(s, i);
    if at < s.len() && s[at] == '@' {
        bib::lemma_entry_at(s, at);
        if let Some((entry, end)) = bib::entry_at(s, at) {
            let e = bib::kind_end(s, at + 1);
            let open = bib::skip_space(s, e);
            if let Some(close) = bib::body_end(s, open + 1, s[open] == '{', 0, false) {
                lemma_entry_read(s.subrange(at + 1, e), s.subrange(open + 1, close));
            }
            lemma_entries_read(s, end);
            if let Some(es) = bib::entries(s, i) {
                if let Some(rest) = bib::entries(s, end) {
                    assert forall|k: int| 0 <= k < es.len() implies is_read(#[trigger] es[k]) by {
                        if k > 0 {
                            assert(es[k] == rest[k - 1]);
                        }
                    }
                }
            }
        }
    }
}

// ---------------------------------------------------------------------------
// Closed texts
// ---------------------------------------------------------------------------

pub proof fn lemma_nesting_join(x: Seq<char>, y: Seq<char>, i: int, depth: int, quoted: bool)
    requires
        0 <= i <= x.len() + y.len(),
    ensures
        i >= x.len() ==> bib::nesting(x + y, i, depth, quoted) == bib::nesting(
            y,
            i - x.len(),
            depth,
            quoted,
        ),
        i <= x.len() ==> bib::nesting(x + y, i, depth, quoted) == match bib::nesting(x, i, depth, quoted) {
            Some((d, q)) => bib::nesting(y, 0, d, q),
            None => None,
        },
    decreases x.len() + y.len() - i,
{
    let s = x + y;
    if i < s.len() {
        if i < x.len() {
            assert(s[i] == x[i]);
        } else {
            assert(s[i] == y[i - x.len()]);
        }
        if !(s[i] == ',' && depth == 0 && !quoted) {
            let (d, q) = bib::level_after(s[i], depth, quoted);
            lemma_nesting_join(x, y, i + 1, d, q);
        }
    }
}

pub proof fn lemma_bracing_join(x: Seq<char>, y: Seq<char>, i: int, depth: int, quoted: bool)
    requires
        0 <= i <= x.len() + y.len(),
    ensures
        i >= x.len() ==> bib::bracing(x + y, i, depth, quoted) == bib::bracing(
            y,
            i - x.len(),
            depth,
            quoted,
        ),
        i <= x.len() ==> bib::bracing(x + y, i, depth, quoted) == match bib::bracing(x, i, depth, quoted) {
            Some((d, q)) => bib::bracing(y, 0, d, q),
            None => None,
        },
    decreases x.len() + y.len() - i,
{
    let s = x + y;
    if i < s.len() {
        if i < x.len() {
            assert(s[i] == x[i]);
        } else {
            assert(s[i] == y[i - x.len()]);
        }
        if quoted {
            lemma_bracing_join(x, y, i + 1, depth, s[i] != '"');
        } else if s[i] == '"' {
            lemma_bracing_join(x, y, i + 1, depth, true);
        } else if s[i] == '{' {
            lemma_bracing_join(x, y, i + 1, depth + 1, false);
        } else if s[i] == '}' {
            lemma_bracing_join(x, y, i + 1, depth - 1, false);
        } else {
            lemma_bracing_join(x, y, i + 1, depth, false);
        }
    }
}

/// Closed texts make up a closed text.
proof fn lemma_closed_join(x: Seq<char>, y: Seq<char>)
    requires
        bib::is_closed(x),
        bib::is_closed(y),
    ensures
        bib::is_closed(x + y),
{
    lemma_nesting_join(x, y, 0, 0, false);
}

proof fn lemma_plain_from(t: Seq<char>, i: int)
    requires
        forall|k: int| 0 <= k < t.len() ==> is_plain(#[trigger] t[k]),
        0 <= i <= t.len(),
    ensures
        bib::nesting(t, i, 0, false) == Some((0int, false)),
    decreases t.len() - i,
{
    if i < t.len() {
        assert(is_plain(t[i]));
        lemma_plain_from(t, i + 1);
    }
}

proof fn lemma_plain_is_closed(t: Seq<char>)
    requires
        forall|k: int| 0 <= k < t.len() ==> is_plain(#[trigger] t[k]),
    ensures
        bib::is_closed(t),
{
    lemma_plain_from(t, 0);
}

proof fn lemma_equals_sign_is_closed()
    ensures
        bib::is_closed(" = "@),
{
    reveal_strlit(" = ");
    let t = " = "@;
    assert(bib::nesting(t, 3, 0, false) == Some((0int, false)));
    assert(bib::nesting(t, 2, 0, false) == Some((0int, false)));
    assert(bib::nesting(t, 1, 0, false) == Some((0int, false)));
}

/// The end of a body is not inside a closed text.
pub proof fn lemma_body_passes(s: Seq<char>, a: int, t: Seq<char>, i: int, depth: int, quoted: bool)
    requires
        text::matches_at(s, a, t),
        0 <= i <= t.len(),
        bib::bracing(t, i, depth, quoted) == Some((0int, false)),
    ensures
        bib::body_end(s, a + i, true, depth, quoted) == bib::body_end(
            s,
            a + t.len(),
            true,
            0,
            false,
        ),
    decreases t.len() - i,
{
    if i < t.len() {
        assert(s.subrange(a, a + t.len())[i] == s[a + i]);
        if quoted {
            lemma_body_passes(s, a, t, i + 1, depth, t[i] != '"');
        } else if t[i] == '"' {
            lemma_body_passes(s, a, t, i + 1, depth, true);
        } else if t[i] == '{' {
            lemma_body_passes(s, a, t, i + 1, depth + 1, false);
        } else if t[i] == '}' {
            lemma_body_passes(s, a, t, i + 1, depth - 1, false);
        } else {
            lemma_body_passes(s, a, t, i + 1, depth, false);
        }
    }
}

/// The end of a segment is not inside a closed text.
proof fn lemma_segment_passes(
    s: Seq<char>,
    from: int,
    a: int,
    t: Seq<char>,
    i: int,
    depth: int,
    quoted: bool,
)
    requires
        text::matches_at(s, a, t),
        0 <= i <= t.len(),
        bib::nesting(t, i, depth, quoted) == Some((0int, false)),
    ensures
        bib::segments(s, from, a + i, depth, quoted) == bib::segments(
            s,
            from,
            a + t.len(),
            0,
            false,
        ),
    decreases t.len() - i,
{
    if i < t.len() {
        assert(s.subrange(a, a + t.len())[i] == s[a + i]);
        let (d, q) = bib::level_after(t[i], depth, quoted);
        lemma_segment_passes(s, from, a, t, i + 1, d, q);
    }
}

/// Closed texts with commas between them are the segments of a body.
pub proof fn lemma_segments_of(s: Seq<char>, from: int, parts: Seq<Seq<char>>)
    requires
        0 <= from <= s.len(),
        parts.len() > 0,
        forall|k: int| 0 <= k < parts.len() ==> bib::is_closed(#[trigger] parts[k]),
        s.skip(from) == text::join(parts, ","@),
    ensures
        bib::segments(s, from, from, 0, false) == parts,
    decreases parts.len(),
{
    reveal_strlit(",");
    let p = parts[0];
    assert(bib::is_closed(p));
    let rest = parts.skip(1);
    let w = s.skip(from);
    if parts.len() > 1 {
        text::lemma_join_front(parts, ","@);
        assert(w == p + ","@ + text::join(rest, ","@));
    } else {
        assert(w == p);
    }
    assert(p.len() <= w.len());
    assert(w.len() == s.len() - from);
    assert forall|k: int| 0 <= k < p.len() implies s[from + k] == #[trigger] p[k] by {
        assert(w[k] == s[from + k]);
    }
    assert(s.subrange(from, from + p.len()) =~= p);
    lemma_segment_passes(s, from, from, p, 0, 0, false);
    let i = from + p.len();
    if parts.len() == 1 {
        assert(i == s.len());
        assert(s.subrange(from, s.len() as int) =~= p);
        assert(parts =~= seq![p]);
    } else {
        assert(s.skip(from)[p.len() as int] == ',');
        assert(s[i] == ',');
        assert(s.subrange(from, i) =~= p);
        assert(s.skip(i + 1) =~= text::join(rest, ","@)) by {
            assert(s.skip(from) =~= p + ","@ + text::join(rest, ","@));
            assert(s.skip(i + 1) =~= s.skip(from).skip(p.len() + 1int));
        }
        assert forall|k: int| 0 <= k < rest.len() implies bib::is_closed(#[trigger] rest[k]) by {
            assert(rest[k] == parts[k + 1]);
        }
        lemma_segments_of(s, i + 1, rest);
        assert(parts =~= seq![p] + rest);
    }
}

// ---------------------------------------------------------------------------
// Braces and quotes
// ---------------------------------------------------------------------------

proof fn lemma_level_join(x: Seq<char>, y: Seq<char>, i: int, depth: int, quoted: bool)
    requires
        0 <= i <= x.len() + y.len(),
    ensures
        i >= x.len() ==> bib::level(x + y, i, depth, quoted) == bib::level(
            y,
            i - x.len(),
            depth,
            quoted,
        ),
        i <= x.len() ==> bib::level(x + y, i, depth, quoted) == bib::level(
            y,
            0,
            bib::level(x, i, depth, quoted).0,
            bib::level(x, i, depth, quoted).1,
        ),
    decreases x.len() + y.len() - i,
{
    let s = x + y;
    if i < s.len() {
        if i < x.len() {
            assert(s[i] == x[i]);
        } else {
            assert(s[i] == y[i - x.len()]);
        }
        let (d, q) = bib::level_after(s[i], depth, quoted);
        lemma_level_join(x, y, i + 1, d, q);
    }
}

/// Where no comma separates segments, nothing is told apart.
proof fn lemma_level_of(t: Seq<char>, i: int, depth: int, quoted: bool)
    requires
        0 <= i <= t.len(),
        bib::nesting(t, i, depth, quoted) is Some,
    ensures
        bib::level(t, i, depth, quoted) == bib::nesting(t, i, depth, quoted)->0,
    decreases t.len() - i,
{
    if i < t.len() {
        let (d, q) = bib::level_after(t[i], depth, quoted);
        lemma_level_of(t, i + 1, d, q);
    }
}

pub proof fn lemma_marks_join(x: Seq<char>, y: Seq<char>)
    ensures
        marks(x + y) == marks(x) + marks(y),
    decreases y.len(),
{
    if y.len() == 0 {
        assert(x + y =~= x);
        assert(marks(x) + marks(y) =~= marks(x));
    } else {
        lemma_marks_join(x, y.drop_last());
        assert((x + y).drop_last() =~= x + y.drop_last());
        assert((x + y).last() == y.last());
        assert(marks(x + y) =~= marks(x) + marks(y));
    }
}

/// Whether a text has neither braces nor quotes.
pub open spec fn is_unmarked(t: Seq<char>) -> bool {
    forall|k: int| 0 <= k < t.len() ==> #[trigger] t[k] != '"' && t[k] != '{' && t[k] != '}'
}

pub proof fn lemma_unmarked(t: Seq<char>)
    requires
        is_unmarked(t),
    ensures
        marks(t) == Seq::<char>::empty(),
    decreases t.len(),
{
    if t.len() > 0 {
        assert(t.last() == t[t.len() - 1]);
        assert forall|k: int| 0 <= k < t.drop_last().len() implies #[trigger] t.drop_last()[k]
            != '"' && t.drop_last()[k] != '{' && t.drop_last()[k] != '}' by {
            assert(t.drop_last()[k] == t[k]);
        }
        lemma_unmarked(t.drop_last());
    }
}

/// Where a body ends depends on its braces and quotes alone.
pub proof fn lemma_bracing_of_marks(t: Seq<char>, depth: int, quoted: bool)
    ensures
        bib::bracing(t, 0, depth, quoted) == bib::bracing(marks(t), 0, depth, quoted),
    decreases t.len(),
{
    if t.len() > 0 {
        let x = t.drop_last();
        let y = seq![t.last()];
        lemma_bracing_of_marks(x, depth, quoted);
        assert(t =~= x + y);
        lemma_bracing_join(x, y, 0, depth, quoted);
        let c = t.last();
        if c == '"' || c == '{' || c == '}' {
            assert(marks(t) =~= marks(x) + y);
            lemma_bracing_join(marks(x), y, 0, depth, quoted);
        } else if let Some((d, q)) = bib::bracing(x, 0, depth, quoted) {
            assert(bib::bracing(y, 1, d, q) == Some((d, q)));
            assert(bib::bracing(y, 0, d, q) == Some((d, q)));
        }
    }
}

proof fn lemma_field_marks_push(fields: Seq<(Seq<char>, Seq<char>)>, f: (Seq<char>, Seq<char>))
    ensures
        field_marks(fields.push(f)) == field_marks(fields) + marks(f.0) + marks(f.1),
    decreases fields.len(),
{
    let all = fields.push(f);
    if fields.len() == 0 {
        assert(all.skip(1) =~= Seq::empty());
        assert(field_marks(all.skip(1)) =~= Seq::empty());
        assert(field_marks(all) =~= field_marks(fields) + marks(f.0) + marks(f.1));
    } else {
        lemma_field_marks_push(fields.skip(1), f);
        assert(all.skip(1) =~= fields.skip(1).push(f));
        assert(all[0] == fields[0]);
        assert(field_marks(all) =~= field_marks(fields) + marks(f.0) + marks(f.1));
    }
}

// ---------------------------------------------------------------------------
// Fields
// ---------------------------------------------------------------------------

/// A field as it is written, behind white space.
spec fn field_text(space: Seq<char>, f: (Seq<char>, Seq<char>), width: nat) -> Seq<char> {
    space + bib::padded(f.0, width) + " = "@ + f.1
}

spec fn is_blank(t: Seq<char>) -> bool {
    forall|k: int| 0 <= k < t.len() ==> chars::is_space(#[trigger] t[k])
}

proof fn lemma_padded(n: Seq<char>, width: nat)
    requires
        is_name(n),
    ensures
        bib::padded(n, width).len() >= n.len(),
        bib::padded(n, width).take(n.len() as int) == n,
        bib::padded(n, width).skip(n.len() as int).len() == bib::padded(n, width).len() - n.len(),
        forall|k: int|
            n.len() <= k < bib::padded(n, width).len() ==> #[trigger] bib::padded(n, width)[k]
                == ' ',
        bib::is_closed(bib::padded(n, width)),
{
    let p = bib::padded(n, width);
    if n.len() < width {
        lemma_spaces((width - n.len()) as nat);
        let sp = text::repeat(" "@, (width - n.len()) as nat);
        assert forall|k: int| n.len() <= k < p.len() implies #[trigger] p[k] == ' ' by {
            assert(p[k] == sp[k - n.len()]);
        }
        lemma_plain_is_closed(sp);
        lemma_closed_join(n, sp);
    }
    assert(p.take(n.len() as int) =~= n);
}

proof fn lemma_field_is_closed(space: Seq<char>, f: (Seq<char>, Seq<char>), width: nat)
    requires
        is_tidy_field(f),
        is_blank(space),
    ensures
        bib::is_closed(field_text(space, f, width)),
{
    lemma_padded(f.0, width);
    let p = bib::padded(f.0, width);
    assert forall|k: int| 0 <= k < space.len() implies is_plain(#[trigger] space[k]) by {
        assert(chars::is_space(space[k]));
    }
    lemma_plain_is_closed(space);
    lemma_equals_sign_is_closed();
    lemma_closed_join(space, p);
    lemma_closed_join(space + p, " = "@);
    lemma_closed_join(space + p + " = "@, f.1);
}

/// No `=` is found inside a closed text that has none outside braces and quotes.
proof fn lemma_equals_passes(s: Seq<char>, t: Seq<char>, i: int, depth: int, quoted: bool)
    requires
        text::matches_at(s, 0, t),
        0 <= i <= t.len(),
        bib::nesting(t, i, depth, quoted) == Some((0int, false)),
        bib::equals_at(t, i, depth, quoted) is None,
    ensures
        bib::equals_at(s, i, depth, quoted) == bib::equals_at(s, t.len() as int, 0, false),
    decreases t.len() - i,
{
    if i < t.len() {
        assert(s.subrange(0, t.len() as int)[i] == s[i]);
        let (d, q) = bib::level_after(t[i], depth, quoted);
        lemma_equals_passes(s, t, i + 1, d, q);
    }
}

proof fn lemma_equals_found(t: Seq<char>, i: int, e: int)
    requires
        0 <= i <= e < t.len(),
        t[e] == '=',
        forall|k: int| i <= k < e ==> #[trigger] t[k] == ' ',
    ensures
        bib::equals_at(t, i, 0, false) == Some(e),
    decreases e - i,
{
    if i < e {
        assert(t[i] == ' ');
        lemma_equals_found(t, i + 1, e);
    }
}

/// A field that is written is read back.
proof fn lemma_field_back(space: Seq<char>, f: (Seq<char>, Seq<char>), width: nat)
    requires
        is_tidy_field(f),
        bib::collapsed(f.1) == f.1,
        is_blank(space),
    ensures
        ({
            let t = text::trim(field_text(space, f, width));
            &&& t.len() > 0
            &&& bib::equals_at(t, 0, 0, false) matches Some(e) && {
                &&& 0 <= e < t.len()
                &&& chars::lowercase(text::trim(t.take(e))) == f.0
                &&& bib::collapsed(text::trim(t.skip(e + 1))) == f.1
            }
        }),
{
    reveal_strlit(" = ");
    let n = f.0;
    let v = f.1;
    let p = bib::padded(n, width);
    let none = Seq::<char>::empty();
    lemma_padded(n, width);
    assert(p[0] == n[0]) by {
        assert(p.take(n.len() as int)[0] == p[0]);
    }
    let e = p.len() + 1int;
    let t = if v.len() == 0 {
        p + " ="@
    } else {
        p + " = "@ + v
    };
    let rest = if v.len() == 0 {
        " "@
    } else {
        none
    };
    reveal_strlit(" =");
    reveal_strlit(" ");
    assert(field_text(space, f, width) =~= space + t + rest);
    if v.len() > 0 {
        lemma_collapsed_ends(v);
        assert(t.last() == v.last());
    }
    lemma_trim_is(space, t, rest);
    assert(text::matches_at(t, 0, n)) by {
        assert forall|k: int| 0 <= k < n.len() implies t[k] == #[trigger] n[k] by {
            assert(p.take(n.len() as int)[k] == p[k]);
        }
        assert(t.subrange(0, n.len() as int) =~= n);
    }
    lemma_equals_passes(t, n, 0, 0, false);
    assert forall|k: int| n.len() <= k < e implies #[trigger] t[k] == ' ' by {
        if k < p.len() {
            assert(t[k] == p[k]);
        }
    }
    lemma_equals_found(t, n.len() as int, e);
    let behind = p.skip(n.len() as int) + " "@;
    assert(t.take(e) =~= none + n + behind) by {
        assert(p =~= p.take(n.len() as int) + p.skip(n.len() as int));
    }
    assert(is_blank(behind));
    lemma_trim_is(none, n, behind);
    if v.len() == 0 {
        assert(t.skip(e + 1) =~= none);
        lemma_trim_of_space(none);
    } else {
        assert(t.skip(e + 1) =~= " "@ + v + none);
        lemma_trim_is(" "@, v, none);
    }
}

/// The segments of the fields of an entry with a key.
spec fn field_parts(fields: Seq<(Seq<char>, Seq<char>)>, width: nat) -> Seq<Seq<char>> {
    Seq::new(fields.len(), |k: int| field_text("\n  "@, fields[k], width))
}

proof fn lemma_lines_are_joined(
    key: Seq<char>,
    fields: Seq<(Seq<char>, Seq<char>)>,
    width: nat,
    k: int,
)
    requires
        0 <= k <= fields.len(),
    ensures
        key + bib::field_lines(fields, width, k) == text::join(
            seq![key] + field_parts(fields, width).take(k),
            ","@,
        ),
    decreases k,
{
    let parts = field_parts(fields, width);
    let now = seq![key] + parts.take(k);
    if k == 0 {
        assert(now =~= seq![key]);
        assert(key + bib::field_lines(fields, width, 0) =~= key);
    } else {
        reveal_strlit(",\n  ");
        reveal_strlit("\n  ");
        reveal_strlit(",");
        lemma_lines_are_joined(key, fields, width, k - 1);
        assert(now.drop_last() =~= seq![key] + parts.take(k - 1));
        assert(now.last() == parts[k - 1]);
        assert(key + bib::field_lines(fields, width, k) =~= text::join(now.drop_last(), ","@) + ","@
            + now.last());
    }
}

proof fn lemma_fields_back(
    segs: Seq<Seq<char>>,
    fields: Seq<(Seq<char>, Seq<char>)>,
    width: nat,
    j: int,
)
    requires
        0 <= j <= fields.len(),
        segs.len() == fields.len() + 2,
        forall|k: int|
            0 <= k < fields.len() ==> #[trigger] segs[k + 1] == field_text(
                "\n  "@,
                fields[k],
                width,
            ),
        is_blank(segs.last()),
        forall|k: int| 0 <= k < fields.len() ==> is_tidy_field(#[trigger] fields[k]),
        forall|k: int|
            0 <= k < fields.len() ==> bib::collapsed((#[trigger] fields[k]).1) == fields[k].1,
    ensures
        bib::fields_from(segs, j + 1) == Some(fields.skip(j)),
    decreases fields.len() - j,
{
    reveal_strlit("\n  ");
    if j == fields.len() {
        lemma_trim_of_space(segs.last());
        assert(bib::fields_from(segs, j + 2) == Some(Seq::<(Seq<char>, Seq<char>)>::empty()));
        assert(fields.skip(j) =~= Seq::empty());
    } else {
        lemma_fields_back(segs, fields, width, j + 1);
        assert(segs[j + 1] == field_text("\n  "@, fields[j], width));
        assert(is_tidy_field(fields[j]));
        lemma_field_back("\n  "@, fields[j], width);
        assert(fields.skip(j) =~= seq![fields[j]] + fields.skip(j + 1));
    }
}

// ---------------------------------------------------------------------------
// Entries
// ---------------------------------------------------------------------------

/// What is written between the braces of an entry.
spec fn body_text(e: Entry) -> Seq<char> {
    let n = e.fields.len() as int;
    match e.key {
        None => if n > 0 {
            field_text(Seq::empty(), e.fields[0], 0)
        } else {
            Seq::empty()
        },
        Some(key) => {
            let lines = key + bib::field_lines(e.fields, bib::name_width(e.fields, n), n);
            if n > 0 {
                lines + ","@ + "\n"@
            } else {
                lines + "\n"@
            }
        },
    }
}

proof fn lemma_padded_marks(n: Seq<char>, width: nat)
    ensures
        marks(bib::padded(n, width)) == marks(n),
{
    if n.len() < width {
        let m = (width - n.len()) as nat;
        let sp = text::repeat(" "@, m);
        lemma_spaces(m);
        lemma_unmarked(sp);
        lemma_marks_join(n, sp);
        assert(marks(n) + Seq::<char>::empty() =~= marks(n));
    }
}

proof fn lemma_line_marks(before: Seq<char>, space: Seq<char>, f: (Seq<char>, Seq<char>), width: nat)
    requires
        is_unmarked(space),
    ensures
        marks(before + space + bib::padded(f.0, width) + " = "@ + f.1) == marks(before) + marks(f.0)
            + marks(f.1),
{
    reveal_strlit(" = ");
    let p = bib::padded(f.0, width);
    lemma_padded_marks(f.0, width);
    lemma_unmarked(space);
    lemma_unmarked(" = "@);
    lemma_marks_join(before, space);
    lemma_marks_join(before + space, p);
    lemma_marks_join(before + space + p, " = "@);
    lemma_marks_join(before + space + p + " = "@, f.1);
    assert(marks(before) + Seq::<char>::empty() + marks(f.0) + Seq::<char>::empty() + marks(f.1)
        =~= marks(before) + marks(f.0) + marks(f.1));
}

proof fn lemma_lines_marks(fields: Seq<(Seq<char>, Seq<char>)>, width: nat, k: int)
    requires
        0 <= k <= fields.len(),
    ensures
        marks(bib::field_lines(fields, width, k)) == field_marks(fields.take(k)),
    decreases k,
{
    if k == 0 {
        assert(fields.take(0) =~= Seq::empty());
        assert(bib::field_lines(fields, width, 0) =~= Seq::<char>::empty());
    } else {
        reveal_strlit(",\n  ");
        lemma_lines_marks(fields, width, k - 1);
        lemma_line_marks(bib::field_lines(fields, width, k - 1), ",\n  "@, fields[k - 1], width);
        lemma_field_marks_push(fields.take(k - 1), fields[k - 1]);
        assert(fields.take(k) =~= fields.take(k - 1).push(fields[k - 1]));
    }
}

/// What is written of an entry has the braces and quotes of the entry.
proof fn lemma_body_marks(e: Entry)
    requires
        is_read(e),
    ensures
        marks(body_text(e)) == entry_marks(e),
{
    let n = e.fields.len() as int;
    let none = Seq::<char>::empty();
    match e.key {
        None => {
            if n > 0 {
                lemma_line_marks(none, none, e.fields[0], 0);
                assert(none + none + bib::padded(e.fields[0].0, 0) + " = "@ + e.fields[0].1
                    =~= body_text(e));
                assert(e.fields.skip(1) =~= Seq::empty());
                assert(field_marks(e.fields.skip(1)) =~= Seq::empty());
                assert(marks(body_text(e)) =~= field_marks(e.fields));
            }
        },
        Some(key) => {
            reveal_strlit("\n");
            reveal_strlit(",");
            let lines = bib::field_lines(e.fields, bib::name_width(e.fields, n), n);
            lemma_lines_marks(e.fields, bib::name_width(e.fields, n), n);
            assert(e.fields.take(n) =~= e.fields);
            lemma_marks_join(key, lines);
            lemma_unmarked(","@);
            lemma_unmarked("\n"@);
            lemma_marks_join(key + lines, ","@);
            lemma_marks_join(key + lines + ","@, "\n"@);
            lemma_marks_join(key + lines, "\n"@);
            assert(entry_marks(e) + none =~= entry_marks(e));
        },
    }
}

proof fn lemma_rendered(e: Entry)
    requires
        is_tidy(e),
    ensures
        bib::rendered(e) == "@"@ + e.kind + "{"@ + body_text(e) + "}"@,
{
    reveal_strlit("\n");
    reveal_strlit("}");
    reveal_strlit("\n}");
    reveal_strlit(",");
    let all = "@"@ + e.kind + "{"@ + body_text(e) + "}"@;
    match e.key {
        None => {
            if e.fields.len() > 0 {
                assert(is_tidy_field(e.fields[0]));
                assert(bib::padded(e.fields[0].0, 0) == e.fields[0].0);
            }
            assert(bib::rendered(e) =~= all);
        },
        Some(_) => {
            assert(bib::rendered(e) =~= all);
        },
    }
}

/// The body of an entry is closed for braces, and reading it gives the entry back.
proof fn lemma_body_back(e: Entry)
    requires
        is_tidy(e),
        is_read(e),
    ensures
        bib::bracing(body_text(e), 0, 0, false) == Some((0int, false)),
        bib::entry_of(e.kind, body_text(e)) == Some(e),
{
    let n = e.fields.len() as int;
    let body = body_text(e);
    assert(body.skip(0) =~= body);
    lemma_body_marks(e);
    lemma_bracing_of_marks(body, 0, false);
    match e.key {
        None => {
            let none = Seq::<char>::empty();
            let parts = seq![body];
            if n > 0 {
                assert(is_tidy_field(e.fields[0]));
                lemma_field_is_closed(none, e.fields[0], 0);
                lemma_field_back(none, e.fields[0], 0);
            } else {
                lemma_plain_is_closed(body);
                lemma_trim_of_space(body);
            }
            lemma_segments_of(body, 0, parts);
            lemma_level_of(body, 0, 0, false);
            assert(bib::fields_from(parts, 1) == Some(Seq::<(Seq<char>, Seq<char>)>::empty()));
            if n > 0 {
                assert(bib::fields_from(parts, 0)->0 =~= e.fields);
            } else {
                assert(e.fields =~= Seq::empty());
            }
        },
        Some(key) => {
            reveal_strlit("\n");
            reveal_strlit("\n  ");
            reveal_strlit(",");
            let width = bib::name_width(e.fields, n);
            let texts = field_parts(e.fields, width);
            lemma_plain_is_closed("\n"@);
            lemma_trimmed_ends(key);
            lemma_lines_are_joined(key, e.fields, width, n);
            assert(texts.take(n) =~= texts);
            if n == 0 {
                let parts = seq![key + "\n"@];
                lemma_closed_join(key, "\n"@);
                assert(bib::field_lines(e.fields, width, n) =~= Seq::<char>::empty());
                assert(body =~= key + "\n"@);
                lemma_segments_of(body, 0, parts);
                lemma_level_of(body, 0, 0, false);
                let none = Seq::<char>::empty();
                assert(none + key + "\n"@ =~= body);
                lemma_trim_is(none, key, "\n"@);
                assert(bib::fields_from(parts, 1) == Some(Seq::<(Seq<char>, Seq<char>)>::empty()));
                assert(e.fields =~= Seq::empty());
            } else {
                let front = seq![key] + texts;
                let parts = front.push("\n"@);
                assert(parts.drop_last() =~= front);
                assert(body =~= text::join(parts, ","@));
                assert forall|k: int| 0 <= k < parts.len() implies bib::is_closed(
                    #[trigger] parts[k],
                ) by {
                    if 0 < k <= n {
                        assert(parts[k] == texts[k - 1]);
                        assert(is_tidy_field(e.fields[k - 1]));
                        lemma_field_is_closed("\n  "@, e.fields[k - 1], width);
                    }
                }
                lemma_segments_of(body, 0, parts);
                let none = Seq::<char>::empty();
                assert(none + key + none =~= key);
                assert forall|k: int| 0 <= k < n implies #[trigger] parts[k + 1] == field_text(
                    "\n  "@,
                    e.fields[k],
                    width,
                ) by {
                    assert(parts[k + 1] == texts[k]);
                }
                lemma_fields_back(parts, e.fields, width, 0);
                assert(e.fields.skip(0) =~= e.fields);
                lemma_closed_parts(parts);
            }
        },
    }
}

/// Closed texts with commas between them leave nothing open.
pub proof fn lemma_closed_parts(parts: Seq<Seq<char>>)
    requires
        parts.len() > 0,
        forall|k: int| 0 <= k < parts.len() ==> bib::is_closed(#[trigger] parts[k]),
    ensures
        bib::level(text::join(parts, ","@), 0, 0, false) == (0int, false),
    decreases parts.len(),
{
    reveal_strlit(",");
    assert(bib::is_closed(parts[0]));
    if parts.len() == 1 {
        lemma_level_of(parts[0], 0, 0, false);
    } else {
        let front = parts.drop_last();
        let j = text::join(front, ","@);
        assert forall|k: int| 0 <= k < front.len() implies bib::is_closed(#[trigger] front[k]) by {
            assert(front[k] == parts[k]);
        }
        lemma_closed_parts(front);
        assert(bib::is_closed(parts.last()));
        lemma_level_of(parts.last(), 0, 0, false);
        assert(bib::level(","@, 1, 0, false) == (0int, false));
        lemma_level_join(j, ","@, 0, 0, false);
        lemma_level_join(j + ","@, parts.last(), 0, 0, false);
    }
}

proof fn lemma_kind_found(s: Seq<char>, i: int, m: int)
    requires
        0 <= i <= m < s.len(),
        forall|k: int| i <= k < m ==> chars::alphanumeric(#[trigger] s[k]),
        !chars::alphanumeric(s[m]),
    ensures
        bib::kind_end(s, i) == m,
    decreases m - i,
{
    if i < m {
        assert(chars::alphanumeric(s[i]));
        lemma_kind_found(s, i + 1, m);
    }
}

/// An entry that is written is read back.
proof fn lemma_entry_back(s: Seq<char>, i: int, e: Entry)
    requires
        is_tidy(e),
        is_read(e),
        text::matches_at(s, i, bib::rendered(e)),
    ensures
        bib::entry_at(s, i) == Some((e, i + bib::rendered(e).len())),
        s[i] == '@',
{
    reveal_strlit("@");
    reveal_strlit("{");
    reveal_strlit("}");
    let r = bib::rendered(e);
    let body = body_text(e);
    let open = i + 1 + e.kind.len();
    let close = open + 1 + body.len();
    lemma_rendered(e);
    lemma_body_back(e);
    assert forall|k: int| 0 <= k < r.len() implies s[i + k] == #[trigger] r[k] by {
        assert(s.subrange(i, i + r.len())[k] == s[i + k]);
    }
    assert(s[i] == r[0]);
    assert(r[1 + e.kind.len() as int] == '{');
    assert(s[open] == '{');
    assert forall|k: int| i + 1 <= k < open implies chars::alphanumeric(#[trigger] s[k]) by {
        assert(s[i + (k - i)] == r[k - i]);
        assert(r[k - i] == e.kind[k - i - 1]);
    }
    lemma_kind_found(s, i + 1, open);
    assert(bib::skip_space(s, open) == open);
    assert(s.subrange(i + 1, open) =~= e.kind) by {
        assert forall|k: int| 0 <= k < e.kind.len() implies s[i + 1 + k] == e.kind[k] by {
            assert(s[i + (1 + k)] == r[1 + k]);
        }
    }
    assert(s.subrange(open + 1, close) =~= body) by {
        assert forall|k: int| 0 <= k < body.len() implies s[open + 1 + k] == body[k] by {
            let at = 2 + e.kind.len() + k;
            assert(s[i + at] == r[at]);
        }
    }
    assert(text::matches_at(s, open + 1, body));
    lemma_body_passes(s, open + 1, body, 0, 0, false);
    assert(s[close] == '}') by {
        assert(s[i + (r.len() - 1)] == r[r.len() - 1]);
    }
    assert(bib::body_end(s, open + 1, true, 0, false) == Some(close));
}

proof fn lemma_space_passed(s: Seq<char>, i: int, m: int)
    requires
        0 <= i <= m <= s.len(),
        forall|k: int| i <= k < m ==> chars::is_space(#[trigger] s[k]),
    ensures
        bib::skip_space(s, i) == bib::skip_space(s, m),
    decreases m - i,
{
    if i < m {
        assert(chars::is_space(s[i]));
        lemma_space_passed(s, i + 1, m);
    }
}

/// What is written of entries.
spec fn entries_text(es: Seq<Entry>) -> Seq<char> {
    text::join(bib::blocks(es), "\n\n"@).push('\n')
}

/// What is written of entries is the first of them, white space, and the others.
proof fn lemma_first_entry(es: Seq<Entry>)
    requires
        es.len() > 0,
    ensures
        es.len() == 1 ==> entries_text(es) == bib::rendered(es[0]) + entries_text(es.skip(1)),
        es.len() > 1 ==> entries_text(es) == bib::rendered(es[0]) + ("\n\n"@ + entries_text(
            es.skip(1),
        )),
{
    let bs = bib::blocks(es);
    assert(bs[0] == bib::rendered(es[0]));
    assert(bs.skip(1) =~= bib::blocks(es.skip(1)));
    if es.len() == 1 {
        assert(bs.skip(1) =~= Seq::<Seq<char>>::empty());
        assert(entries_text(es.skip(1)) =~= seq!['\n']);
        assert(entries_text(es) =~= bs[0] + seq!['\n']);
    } else {
        text::lemma_join_front(bs, "\n\n"@);
        let rest = text::join(bs.skip(1), "\n\n"@);
        assert(entries_text(es) =~= bs[0] + ("\n\n"@ + rest.push('\n')));
    }
}

/// Where a text is made up of two, it can be read at the first, and goes on with the
/// second.
proof fn lemma_split(s: Seq<char>, i: int, a: Seq<char>, b: Seq<char>)
    requires
        0 <= i <= s.len(),
        s.skip(i) == a + b,
    ensures
        text::matches_at(s, i, a),
        i + a.len() <= s.len(),
        s.skip(i + a.len()) == b,
{
    let w = s.skip(i);
    assert(w.len() == s.len() - i);
    assert forall|k: int| 0 <= k < a.len() implies s[i + k] == #[trigger] a[k] by {
        assert(w[k] == s[i + k]);
    }
    assert(s.subrange(i, i + a.len()) =~= a);
    assert forall|k: int| 0 <= k < b.len() implies s[i + a.len() + k] == #[trigger] b[k] by {
        assert(w[a.len() + k] == b[k]);
    }
    assert(s.skip(i + a.len()) =~= b);
}

/// White space before entries makes no difference.
proof fn lemma_entries_behind_space(s: Seq<char>, i: int, m: int)
    requires
        0 <= i <= m <= s.len(),
        forall|k: int| i <= k < m ==> chars::is_space(#[trigger] s[k]),
    ensures
        bib::entries(s, i) == bib::entries(s, m),
{
    lemma_space_passed(s, i, m);
}

/// Behind the last entry nothing but a line feed is left.
proof fn lemma_line_feed_left(s: Seq<char>, i: int)
    requires
        0 <= i <= s.len(),
        s.skip(i) == seq!['\n'],
    ensures
        bib::skip_space(s, i) == s.len(),
{
    let w = s.skip(i);
    assert(w.len() == s.len() - i);
    assert(w.len() == 1);
    assert(w[0] == s[i]);
    assert(s[i] == '\n');
    lemma_space_passed(s, i, s.len() as int);
}

/// Entries that are written are read back.
proof fn lemma_entries_back(s: Seq<char>, i: int, es: Seq<Entry>)
    requires
        0 <= i <= s.len(),
        forall|k: int| 0 <= k < es.len() ==> is_tidy(#[trigger] es[k]) && is_read(es[k]),
        s.skip(i) == entries_text(es),
    ensures
        bib::entries(s, i) == Some(es),
    decreases es.len(),
{
    if es.len() == 0 {
        assert(bib::blocks(es) =~= Seq::<Seq<char>>::empty());
        assert(s.skip(i) =~= seq!['\n']);
        lemma_line_feed_left(s, i);
        assert(es =~= Seq::empty());
    } else {
        let e = es[0];
        let rest = es.skip(1);
        let r = bib::rendered(e);
        let end = i + r.len();
        assert(is_tidy(e) && is_read(e));
        assert forall|k: int| 0 <= k < rest.len() implies is_tidy(#[trigger] rest[k]) && is_read(
            rest[k],
        ) by {
            assert(rest[k] == es[k + 1]);
        }
        lemma_first_entry(es);
        if es.len() == 1 {
            lemma_split(s, i, r, entries_text(rest));
            lemma_entries_back(s, end, rest);
        } else {
            reveal_strlit("\n\n");
            lemma_split(s, i, r, "\n\n"@ + entries_text(rest));
            lemma_split(s, end, "\n\n"@, entries_text(rest));
            let next = end + 2;
            lemma_entries_back(s, next, rest);
            assert(s.subrange(end, next)[0] == s[end]);
            assert(s.subrange(end, next)[1] == s[end + 1]);
            lemma_entries_behind_space(s, end, next);
        }
        lemma_entry_back(s, i, e);
        assert(bib::skip_space(s, i) == i);
        assert(es =~= seq![e] + rest);
    }
}

// ---------------------------------------------------------------------------
// Laws
// ---------------------------------------------------------------------------

/// Formatting loses no reference: where the entries of a source are tidy, reading the
/// formatted source gives the same entries.
pub proof fn law_formatting_keeps_entries(source: Seq<char>)
    requires
        bib::entries(source, 0) matches Some(es) && es.len() > 0 && forall|k: int|
            0 <= k < es.len() ==> is_tidy(#[trigger] es[k]),
    ensures
        bib::entries(bib::formatted_bib(source), 0) == bib::entries(source, 0),
{
    let es = bib::entries(source, 0)->0;
    let out = bib::formatted_bib(source);
    lemma_entries_read(source, 0);
    assert(out.skip(0) =~= out);
    lemma_entries_back(out, 0, es);
}

/// Formatting a formatted bibliography changes nothing, where the entries of the source
/// are tidy, and where it cannot be read.
pub proof fn law_format_bib_is_idempotent(source: Seq<char>)
    requires
        bib::entries(source, 0) matches Some(es) ==> forall|k: int|
            0 <= k < es.len() ==> is_tidy(#[trigger] es[k]),
    ensures
        bib::formatted_bib(bib::formatted_bib(source)) == bib::formatted_bib(source),
{
    if let Some(es) = bib::entries(source, 0) {
        if es.len() > 0 {
            law_formatting_keeps_entries(source);
        }
    }
}

} // verus!
