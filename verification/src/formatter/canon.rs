//! What a formatted bibliography entry looks like.

use vstd::prelude::*;

use super::bib::{self, Entry};
use super::roundtrip;
use crate::chars;
use crate::text;

verus! {

/// Whether a text is a word of ASCII letters.
pub open spec fn is_word(t: Seq<char>) -> bool {
    t.len() > 0 && forall|i: int| 0 <= i < t.len() ==> chars::is_ascii_letter(#[trigger] t[i])
}

/// A word in small letters.
pub open spec fn small(t: Seq<char>) -> Seq<char> {
    Seq::new(
        t.len(),
        |i: int|
            if 'A' <= t[i] <= 'Z' {
                ((t[i] as u32) + 32) as char
            } else {
                t[i]
            },
    )
}

/// Whether a text holds neither braces nor quotes.
pub open spec fn is_plain(t: Seq<char>) -> bool {
    forall|i: int| 0 <= i < t.len() ==> #[trigger] t[i] != '{' && t[i] != '}' && t[i] != '"'
}

/// Whether a text is a key: not empty, without white space, braces, quotes, commas and `=`.
pub open spec fn is_key(t: Seq<char>) -> bool {
    t.len() > 0 && is_plain(t) && forall|i: int|
        0 <= i < t.len() ==> #[trigger] t[i] != ',' && t[i] != '=' && !chars::is_space(t[i])
}

/// A field: a name, and a value without the braces around it.
pub open spec fn is_field(f: (Seq<char>, Seq<char>)) -> bool {
    is_word(f.0) && is_plain(f.1)
}

/// A field as it may be written.
pub open spec fn written(f: (Seq<char>, Seq<char>)) -> Seq<char> {
    f.0 + seq!['='] + (seq!['{'] + f.1 + seq!['}'])
}

/// An entry as it may be written, without white space.
pub open spec fn written_entry(
    kind: Seq<char>,
    key: Seq<char>,
    fields: Seq<(Seq<char>, Seq<char>)>,
) -> Seq<char> {
    seq!['@'] + kind + seq!['{'] + with_fields(key, fields) + seq!['}']
}

/// A key and fields with commas between them.
pub open spec fn with_fields(key: Seq<char>, fields: Seq<(Seq<char>, Seq<char>)>) -> Seq<char>
    decreases fields.len(),
{
    if fields.len() == 0 {
        key
    } else {
        with_fields(key, fields.drop_last()) + seq![','] + written(fields.last())
    }
}

/// The length of the longest name.
pub open spec fn longest(fields: Seq<(Seq<char>, Seq<char>)>) -> nat
    decreases fields.len(),
{
    if fields.len() == 0 {
        0
    } else if fields.last().0.len() > longest(fields.drop_last()) {
        fields.last().0.len()
    } else {
        longest(fields.drop_last())
    }
}

/// So many spaces.
pub open spec fn spaces(n: int) -> Seq<char> {
    Seq::new(
        if n > 0 {
            n as nat
        } else {
            0
        },
        |i: int| ' ',
    )
}

/// The lines of fields: each on a line of its own, two spaces in, its name in small letters,
/// the `=` below that of the others, and one space for each stretch of white space of its
/// value.
pub open spec fn lines_of(fields: Seq<(Seq<char>, Seq<char>)>, width: nat) -> Seq<char>
    decreases fields.len(),
{
    if fields.len() == 0 {
        Seq::empty()
    } else {
        let f = fields.last();
        lines_of(fields.drop_last(), width) + seq![',', '\n', ' ', ' '] + small(f.0) + spaces(
            width - f.0.len(),
        ) + seq![' ', '=', ' '] + single_spaced(seq!['{'] + f.1 + seq!['}'])
    }
}

/// A text in which each stretch of white space is one space, and none at either end; `open`
/// says whether something stands before `i`, and `gap` whether white space stands between.
pub open spec fn spaced_from(t: Seq<char>, i: int, open: bool, gap: bool) -> Seq<char>
    decreases t.len() - i,
{
    if i < 0 || i >= t.len() {
        Seq::empty()
    } else if chars::is_space(t[i]) {
        spaced_from(t, i + 1, open, true)
    } else if open && gap {
        seq![' ', t[i]] + spaced_from(t, i + 1, true, false)
    } else {
        seq![t[i]] + spaced_from(t, i + 1, true, false)
    }
}

/// A text in which each stretch of white space is one space, and none at either end.
pub open spec fn single_spaced(t: Seq<char>) -> Seq<char> {
    spaced_from(t, 0, false, false)
}

// ---------------------------------------------------------------------------
// White space
// ---------------------------------------------------------------------------

proof fn lemma_spaced_behind(a: Seq<char>, y: Seq<char>, i: int, open: bool, gap: bool)
    requires
        0 <= i <= y.len(),
    ensures
        spaced_from(a + y, a.len() + i, open, gap) == spaced_from(y, i, open, gap),
    decreases y.len() - i,
{
    if i < y.len() {
        assert((a + y)[a.len() + i] == y[i]);
        lemma_spaced_behind(a, y, i + 1, open, true);
        lemma_spaced_behind(a, y, i + 1, true, false);
    }
}

proof fn lemma_spaced_blank(a: Seq<char>, y: Seq<char>, i: int, open: bool, gap: bool)
    requires
        0 <= i <= a.len(),
        forall|k: int| 0 <= k < a.len() ==> chars::is_space(#[trigger] a[k]),
    ensures
        spaced_from(a + y, i, open, gap) == spaced_from(y, 0, open, gap || i < a.len()),
    decreases a.len() - i,
{
    if i < a.len() {
        assert((a + y)[i] == a[i]);
        lemma_spaced_blank(a, y, i + 1, open, true);
    } else {
        lemma_spaced_behind(a, y, 0, open, gap);
    }
}

proof fn lemma_spaced_word(w: Seq<char>, y: Seq<char>, i: int)
    requires
        0 < i <= w.len(),
        forall|k: int| 0 <= k < w.len() ==> !chars::is_space(#[trigger] w[k]),
    ensures
        spaced_from(w + y, i, true, false) == w.skip(i) + spaced_from(y, 0, true, false),
    decreases w.len() - i,
{
    if i < w.len() {
        assert((w + y)[i] == w[i]);
        lemma_spaced_word(w, y, i + 1);
        assert(w.skip(i) =~= seq![w[i]] + w.skip(i + 1));
        assert(seq![w[i]] + (w.skip(i + 1) + spaced_from(y, 0, true, false)) =~= w.skip(i)
            + spaced_from(y, 0, true, false));
    } else {
        lemma_spaced_behind(w, y, 0, true, false);
        assert(w.skip(i) + spaced_from(y, 0, true, false) =~= spaced_from(y, 0, true, false));
    }
}

proof fn lemma_spaced_gap(y: Seq<char>)
    requires
        y.len() == 0 || chars::is_space(y[0]),
    ensures
        spaced_from(y, 0, true, false) == spaced_from(y, 0, true, true),
{
}

/// What follows a word, with a space before it where there is anything.
proof fn lemma_spaced_tail(v: Seq<char>)
    ensures
        spaced_from(v, 0, true, true) == if text::words(v).len() == 0 {
            Seq::empty()
        } else {
            seq![' '] + bib::collapsed(v)
        },
        spaced_from(v, 0, false, false) == bib::collapsed(v),
    decreases v.len(),
{
    reveal_strlit(" ");
    assert(" "@ =~= seq![' ']);
    let t = text::trim_start(v);
    text::lemma_trim_start_len(v);
    let a = v.take(v.len() - t.len());
    assert(v =~= a + t);
    lemma_spaced_blank(a, t, 0, true, true);
    lemma_spaced_blank(a, t, 0, false, false);
    if t.len() == 0 {
        assert(bib::collapsed(v) =~= Seq::<char>::empty());
        assert(spaced_from(t, 0, false, a.len() > 0) =~= Seq::<char>::empty());
    } else {
        text::lemma_word_len(t);
        let n = text::word_len(t);
        let w = t.take(n);
        let rest = t.skip(n);
        let ws = text::words(v);
        let more = text::words(rest);
        assert(t =~= w + rest);
        assert(ws == seq![w] + more);
        assert(ws[0] == w);
        assert(ws.skip(1) =~= more);
        assert forall|k: int| 0 <= k < w.len() implies !chars::is_space(#[trigger] w[k]) by {
            assert(w[k] == t[k]);
        }
        assert(n >= 1);
        lemma_spaced_word(w, rest, 1);
        if rest.len() > 0 {
            assert(rest[0] == t[n]);
        }
        lemma_spaced_gap(rest);
        lemma_spaced_tail(rest);
        let tail = spaced_from(rest, 0, true, true);
        assert(seq![w[0]] + w.skip(1) =~= w);
        assert(spaced_from(t, 0, false, a.len() > 0) =~= w + tail) by {
            assert(seq![t[0]] + (w.skip(1) + tail) =~= w + tail);
        }
        assert(spaced_from(t, 0, true, true) =~= seq![' '] + (w + tail)) by {
            assert(seq![' ', t[0]] + (w.skip(1) + tail) =~= seq![' '] + (w + tail));
        }
        if more.len() == 0 {
            assert(ws =~= seq![w]);
            assert(bib::collapsed(v) =~= w + tail);
        } else {
            text::lemma_join_front(ws, " "@);
            assert(bib::collapsed(v) =~= w + tail);
        }
    }
}

// ---------------------------------------------------------------------------
// Reading
// ---------------------------------------------------------------------------

proof fn lemma_small(t: Seq<char>)
    requires
        is_word(t),
    ensures
        chars::lowercase(t) == small(t),
        is_word(small(t)),
        small(t).len() == t.len(),
{
    assert forall|i: int| 0 <= i < t.len() implies chars::is_latin(#[trigger] t[i]) by {
        assert(chars::is_ascii_letter(t[i]));
    }
    assert(chars::lowercase(t) =~= small(t)) by {
        assert forall|i: int| 0 <= i < t.len() implies chars::latin_lower(t)[i] == small(t)[i] by {
            assert(chars::is_ascii_letter(t[i]));
        }
    }
    assert forall|i: int| 0 <= i < small(t).len() implies chars::is_ascii_letter(
        #[trigger] small(t)[i],
    ) by {
        assert(chars::is_ascii_letter(t[i]));
    }
}

/// The commas of a field stand in its braces, and so does all that could end it.
proof fn lemma_in_braces(v: Seq<char>, i: int)
    requires
        is_plain(v),
        0 <= i <= v.len(),
    ensures
        bib::nesting(v, i, 1, false) == Some((1int, false)),
        bib::bracing(v, i, 1, false) == Some((1int, false)),
    decreases v.len() - i,
{
    if i < v.len() {
        assert(v[i] != '{');
        lemma_in_braces(v, i + 1);
    }
}

proof fn lemma_braced(v: Seq<char>)
    requires
        is_plain(v),
    ensures
        bib::is_closed(seq!['{'] + v + seq!['}']),
        bib::bracing(seq!['{'] + v + seq!['}'], 0, 0, false) == Some((0int, false)),
{
    let a = seq!['{'];
    let z = seq!['}'];
    lemma_in_braces(v, 0);
    roundtrip::lemma_nesting_join(a, v, 0, 0, false);
    roundtrip::lemma_nesting_join(a + v, z, 0, 0, false);
    roundtrip::lemma_bracing_join(a, v, 0, 0, false);
    roundtrip::lemma_bracing_join(a + v, z, 0, 0, false);
    assert(bib::nesting(a, 1, 1, false) == Some((1int, false)));
    assert(bib::nesting(a, 0, 0, false) == Some((1int, false)));
    assert(bib::nesting(z, 1, 0, false) == Some((0int, false)));
    assert(bib::nesting(z, 0, 1, false) == Some((0int, false)));
    assert(bib::bracing(a, 1, 1, false) == Some((1int, false)));
    assert(bib::bracing(a, 0, 0, false) == Some((1int, false)));
    assert(bib::bracing(z, 1, 0, false) == Some((0int, false)));
    assert(bib::bracing(z, 0, 1, false) == Some((0int, false)));
}

/// A text without any sign of its own opens and closes nothing.
proof fn lemma_mild(t: Seq<char>, i: int)
    requires
        forall|k: int|
            0 <= k < t.len() ==> #[trigger] t[k] != '{' && t[k] != '}' && t[k] != '"' && t[k] != ',',
        0 <= i <= t.len(),
    ensures
        bib::nesting(t, i, 0, false) == Some((0int, false)),
        bib::bracing(t, i, 0, false) == Some((0int, false)),
    decreases t.len() - i,
{
    if i < t.len() {
        assert(t[i] != '{');
        lemma_mild(t, i + 1);
    }
}

proof fn lemma_no_equals(t: Seq<char>, y: Seq<char>, i: int)
    requires
        is_word(t),
        0 <= i <= t.len(),
    ensures
        bib::equals_at(t + seq!['='] + y, i, 0, false) == Some(t.len() as int),
    decreases t.len() - i,
{
    let s = t + seq!['='] + y;
    if i < t.len() {
        assert(chars::is_ascii_letter(t[i]));
        assert(s[i] == t[i]);
        lemma_no_equals(t, y, i + 1);
    } else {
        assert(s[i] == '=');
    }
}

proof fn lemma_tight(t: Seq<char>)
    requires
        t.len() > 0,
        !chars::is_space(t[0]),
        !chars::is_space(t.last()),
    ensures
        text::trim(t) == t,
{
    assert(text::trim_start(t) == t);
}

/// A field that is written is read: its name in small letters, its value with single spaces.
proof fn lemma_field(f: (Seq<char>, Seq<char>))
    requires
        is_field(f),
    ensures
        ({
            let t = text::trim(written(f));
            &&& t == written(f)
            &&& t.len() > 0
            &&& bib::equals_at(t, 0, 0, false) == Some(f.0.len() as int)
            &&& chars::lowercase(text::trim(t.take(f.0.len() as int))) == small(f.0)
            &&& bib::collapsed(text::trim(t.skip(f.0.len() + 1int))) == single_spaced(
                seq!['{'] + f.1 + seq!['}'],
            )
        }),
        bib::is_closed(written(f)),
        bib::bracing(written(f), 0, 0, false) == Some((0int, false)),
{
    let t = written(f);
    let v = seq!['{'] + f.1 + seq!['}'];
    let n = f.0.len() as int;
    assert(chars::is_ascii_letter(f.0[0]));
    assert(chars::is_ascii_letter(f.0[n - 1]));
    assert(t[0] == f.0[0]);
    assert(t.last() == '}');
    lemma_tight(t);
    lemma_no_equals(f.0, v, 0);
    assert(t.take(n) =~= f.0);
    assert(t.skip(n + 1) =~= v);
    lemma_tight(f.0);
    lemma_tight(v);
    lemma_small(f.0);
    lemma_spaced_tail(v);
    let name = f.0 + seq!['='];
    assert forall|k: int| 0 <= k < name.len() implies #[trigger] name[k] != '{' && name[k] != '}'
        && name[k] != '"' && name[k] != ',' by {
        if k < n {
            assert(chars::is_ascii_letter(f.0[k]));
        }
    }
    lemma_mild(name, 0);
    lemma_braced(f.1);
    roundtrip::lemma_nesting_join(name, v, 0, 0, false);
    roundtrip::lemma_bracing_join(name, v, 0, 0, false);
}

/// The segments of a key and fields.
spec fn parts(key: Seq<char>, fields: Seq<(Seq<char>, Seq<char>)>) -> Seq<Seq<char>> {
    seq![key] + Seq::new(fields.len(), |k: int| written(fields[k]))
}

proof fn lemma_parts(key: Seq<char>, fields: Seq<(Seq<char>, Seq<char>)>)
    ensures
        text::join(parts(key, fields), ","@) == with_fields(key, fields),
    decreases fields.len(),
{
    reveal_strlit(",");
    assert(","@ =~= seq![',']);
    let ps = parts(key, fields);
    if fields.len() == 0 {
        assert(ps =~= seq![key]);
    } else {
        lemma_parts(key, fields.drop_last());
        assert(ps.drop_last() =~= parts(key, fields.drop_last()));
        assert(ps.last() == written(fields.last()));
    }
}

proof fn lemma_body_is_balanced(key: Seq<char>, fields: Seq<(Seq<char>, Seq<char>)>)
    requires
        is_key(key),
        forall|k: int| 0 <= k < fields.len() ==> is_field(#[trigger] fields[k]),
    ensures
        bib::bracing(with_fields(key, fields), 0, 0, false) == Some((0int, false)),
        bib::level(with_fields(key, fields), 0, 0, false) == (0int, false),
        forall|k: int|
            0 <= k < parts(key, fields).len() ==> bib::is_closed(#[trigger] parts(key, fields)[k]),
    decreases fields.len(),
{
    let ps = parts(key, fields);
    assert forall|k: int| 0 <= k < ps.len() implies bib::is_closed(#[trigger] ps[k]) by {
        if k == 0 {
            lemma_mild(key, 0);
        } else {
            assert(is_field(fields[k - 1]));
            lemma_field(fields[k - 1]);
        }
    }
    lemma_parts(key, fields);
    roundtrip::lemma_closed_parts(ps);
    if fields.len() == 0 {
        lemma_mild(key, 0);
    } else {
        let front = fields.drop_last();
        assert forall|k: int| 0 <= k < front.len() implies is_field(#[trigger] front[k]) by {
            assert(front[k] == fields[k]);
        }
        lemma_body_is_balanced(key, front);
        let f = fields.last();
        assert(is_field(fields[fields.len() - 1]));
        lemma_field(f);
        let a = with_fields(key, front);
        let comma = seq![','];
        assert(bib::bracing(comma, 1, 0, false) == Some((0int, false)));
        assert(bib::bracing(comma, 0, 0, false) == Some((0int, false)));
        roundtrip::lemma_bracing_join(a, comma, 0, 0, false);
        roundtrip::lemma_bracing_join(a + comma, written(f), 0, 0, false);
    }
}

/// The fields as they are read.
spec fn read(fields: Seq<(Seq<char>, Seq<char>)>) -> Seq<(Seq<char>, Seq<char>)> {
    Seq::new(
        fields.len(),
        |k: int| (small(fields[k].0), single_spaced(seq!['{'] + fields[k].1 + seq!['}'])),
    )
}

proof fn lemma_fields_read(key: Seq<char>, fields: Seq<(Seq<char>, Seq<char>)>, k: int)
    requires
        0 <= k <= fields.len(),
        forall|j: int| 0 <= j < fields.len() ==> is_field(#[trigger] fields[j]),
    ensures
        bib::fields_from(parts(key, fields), k + 1) == Some(read(fields).skip(k)),
    decreases fields.len() - k,
{
    let ps = parts(key, fields);
    if k < fields.len() {
        lemma_fields_read(key, fields, k + 1);
        assert(is_field(fields[k]));
        lemma_field(fields[k]);
        assert(ps[k + 1] == written(fields[k]));
        assert(read(fields).skip(k) =~= seq![read(fields)[k]] + read(fields).skip(k + 1));
        lemma_small(fields[k].0);
    } else {
        assert(read(fields).skip(k) =~= Seq::empty());
    }
}

proof fn lemma_kind(s: Seq<char>, i: int, m: int)
    requires
        0 <= i <= m < s.len(),
        forall|k: int| i <= k < m ==> chars::is_ascii_letter(#[trigger] s[k]),
        s[m] == '{',
    ensures
        bib::kind_end(s, i) == m,
    decreases m - i,
{
    if i < m {
        assert(chars::is_ascii_letter(s[i]));
        lemma_kind(s, i + 1, m);
    }
}

proof fn lemma_entry(kind: Seq<char>, key: Seq<char>, fields: Seq<(Seq<char>, Seq<char>)>)
    requires
        is_word(kind),
        small(kind) != "string"@,
        small(kind) != "preamble"@,
        is_key(key),
        forall|k: int| 0 <= k < fields.len() ==> is_field(#[trigger] fields[k]),
    ensures
        bib::entries(written_entry(kind, key, fields), 0) == Some(
            seq![Entry { kind: small(kind), key: Some(key), fields: read(fields) }],
        ),
{
    let s = written_entry(kind, key, fields);
    let body = with_fields(key, fields);
    let m = 1 + kind.len() as int;
    let close = m + 1 + body.len();
    assert(s[0] == '@');
    assert(s[m] == '{');
    assert forall|k: int| 1 <= k < m implies chars::is_ascii_letter(#[trigger] s[k]) by {
        assert(s[k] == kind[k - 1]);
    }
    lemma_kind(s, 1, m);
    assert(bib::skip_space(s, 0) == 0);
    assert(bib::skip_space(s, m) == m);
    assert(s.subrange(1, m) =~= kind);
    assert(s.subrange(m + 1, close) =~= body);
    assert(s[close] == '}');
    lemma_body_is_balanced(key, fields);
    lemma_parts(key, fields);
    assert(text::matches_at(s, m + 1, body));
    roundtrip::lemma_body_passes(s, m + 1, body, 0, 0, false);
    assert(bib::body_end(s, m + 1, true, 0, false) == Some(close));
    assert(body.skip(0) =~= body);
    roundtrip::lemma_segments_of(body, 0, parts(key, fields));
    assert(parts(key, fields)[0] == key);
    assert(!chars::is_space(key[0]));
    assert(!chars::is_space(key[key.len() - 1]));
    lemma_tight(key);
    lemma_small(kind);
    lemma_fields_read(key, fields, 0);
    assert(read(fields).skip(0) =~= read(fields));
    assert(!key.contains('='));
    let e = Entry { kind: small(kind), key: Some(key), fields: read(fields) };
    assert(bib::entry_of(kind, body) == Some(e));
    assert(bib::entry_at(s, 0) == Some((e, close + 1)));
    assert(close + 1 == s.len());
    assert(bib::skip_space(s, close + 1) == close + 1);
    assert(bib::entries(s, close + 1) == Some(Seq::<Entry>::empty()));
    assert(seq![e] + Seq::<Entry>::empty() =~= seq![e]);
}

// ---------------------------------------------------------------------------
// Writing
// ---------------------------------------------------------------------------

proof fn lemma_ascii_width(t: Seq<char>)
    requires
        is_word(t),
    ensures
        text::byte_len(t) == t.len(),
    decreases t.len(),
{
    assert(chars::is_ascii_letter(t[t.len() - 1]));
    let front = t.drop_last();
    if front.len() > 0 {
        assert forall|i: int| 0 <= i < front.len() implies chars::is_ascii_letter(
            #[trigger] front[i],
        ) by {
            assert(front[i] == t[i]);
        }
        lemma_ascii_width(front);
    } else {
        assert(text::byte_len(front) == 0);
    }
}

proof fn lemma_width(fields: Seq<(Seq<char>, Seq<char>)>, k: int)
    requires
        0 <= k <= fields.len(),
        forall|j: int| 0 <= j < fields.len() ==> is_field(#[trigger] fields[j]),
    ensures
        bib::name_width(read(fields), k) == longest(fields.take(k)),
    decreases k,
{
    if k > 0 {
        lemma_width(fields, k - 1);
        assert(fields.take(k).drop_last() =~= fields.take(k - 1));
        assert(is_field(fields[k - 1]));
        lemma_small(fields[k - 1].0);
        lemma_ascii_width(small(fields[k - 1].0));
    }
}

proof fn lemma_spaces(n: nat)
    ensures
        text::repeat(" "@, n) == spaces(n as int),
    decreases n,
{
    reveal_strlit(" ");
    if n > 0 {
        lemma_spaces((n - 1) as nat);
    }
    assert(text::repeat(" "@, n) =~= spaces(n as int));
}

proof fn lemma_lines(fields: Seq<(Seq<char>, Seq<char>)>, width: nat, k: int)
    requires
        0 <= k <= fields.len(),
        forall|j: int| 0 <= j < fields.len() ==> is_field(#[trigger] fields[j]),
    ensures
        bib::field_lines(read(fields), width, k) == lines_of(fields.take(k), width),
    decreases k,
{
    if k > 0 {
        reveal_strlit(",\n  ");
        reveal_strlit(" = ");
        lemma_lines(fields, width, k - 1);
        assert(fields.take(k).drop_last() =~= fields.take(k - 1));
        let f = fields[k - 1];
        assert(is_field(fields[k - 1]));
        lemma_small(f.0);
        let p = bib::padded(small(f.0), width);
        if f.0.len() < width {
            lemma_spaces((width - f.0.len()) as nat);
        }
        assert(p =~= small(f.0) + spaces(width - f.0.len()));
        assert(bib::field_lines(read(fields), width, k) =~= lines_of(fields.take(k), width));
    }
}

/// An entry is formatted as one field on each line, two spaces in, its type and the names of
/// its fields in small letters, the `=` signs one below the other, a comma behind every
/// field, and single spaces in its values.
pub proof fn law_entry_is_formatted_canonically(
    kind: Seq<char>,
    key: Seq<char>,
    fields: Seq<(Seq<char>, Seq<char>)>,
)
    requires
        is_word(kind),
        small(kind) != "string"@,
        small(kind) != "preamble"@,
        is_key(key),
        fields.len() > 0,
        forall|k: int| 0 <= k < fields.len() ==> is_field(#[trigger] fields[k]),
    ensures
        bib::formatted_bib(written_entry(kind, key, fields)) == seq!['@'] + small(kind) + seq!['{']
            + key + lines_of(fields, longest(fields)) + seq![',', '\n', '}', '\n'],
{
    reveal_strlit("@");
    reveal_strlit("{");
    reveal_strlit(",");
    reveal_strlit("\n}");
    let s = written_entry(kind, key, fields);
    let n = fields.len() as int;
    lemma_entry(kind, key, fields);
    let e = Entry { kind: small(kind), key: Some(key), fields: read(fields) };
    assert(fields.take(n) =~= fields);
    lemma_width(fields, n);
    lemma_lines(fields, longest(fields), n);
    let bs = bib::blocks(seq![e]);
    assert(bs =~= seq![bib::rendered(e)]);
    assert(bib::formatted_bib(s) == bib::rendered(e).push('\n'));
    assert(bib::rendered(e).push('\n') =~= seq!['@'] + small(kind) + seq!['{'] + key + lines_of(
        fields,
        longest(fields),
    ) + seq![',', '\n', '}', '\n']);
}

} // verus!
