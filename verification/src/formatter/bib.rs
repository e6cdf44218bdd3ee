//! BibTeX formatter: one field per line, two-space indent, aligned `=`, entry types and
//! field names in lower case, a comma after every field.
//!
//! A source that cannot be read cleanly (text outside entries, braces or quotes that are
//! not balanced, several definitions in one entry without a key) is returned as it is.

use vstd::prelude::*;

use crate::chars;
use crate::position;
use crate::text::{self, chars_of, string_of};

verus! {

/// The position of the first character from `i` on that is no white space.
pub open spec fn skip_space(s: Seq<char>, i: int) -> int
    decreases s.len() - i,
{
    if 0 <= i < s.len() && chars::is_space(s[i]) {
        skip_space(s, i + 1)
    } else {
        i
    }
}

/// The end of the letters and digits at `i`.
pub open spec fn kind_end(s: Seq<char>, i: int) -> int
    decreases s.len() - i,
{
    if 0 <= i < s.len() && chars::alphanumeric(s[i]) {
        kind_end(s, i + 1)
    } else {
        i
    }
}

/// Where the body that is open at `i` ends: a closing brace outside quotes for an entry
/// in braces, a closing parenthesis outside quotes and braces for one in parentheses.
pub open spec fn body_end(s: Seq<char>, i: int, braces: bool, depth: int, quoted: bool) -> Option<
    int,
>
    decreases s.len() - i,
{
    if i < 0 || i >= s.len() {
        None
    } else if quoted {
        body_end(s, i + 1, braces, depth, s[i] != '"')
    } else if s[i] == '"' {
        body_end(s, i + 1, braces, depth, true)
    } else if s[i] == '{' {
        body_end(s, i + 1, braces, depth + 1, false)
    } else if s[i] == '}' {
        if braces && depth == 0 {
            Some(i)
        } else {
            body_end(s, i + 1, braces, depth - 1, false)
        }
    } else if s[i] == ')' && !braces && depth == 0 {
        Some(i)
    } else {
        body_end(s, i + 1, braces, depth, false)
    }
}

/// The nesting and quoting behind a character: a quote counts outside braces, a brace
/// outside quotes.
pub open spec fn level_after(c: char, depth: int, quoted: bool) -> (int, bool) {
    if c == '"' && depth == 0 {
        (depth, !quoted)
    } else if c == '{' && !quoted {
        (depth + 1, quoted)
    } else if c == '}' && !quoted {
        (depth - 1, quoted)
    } else {
        (depth, quoted)
    }
}

/// The segments between the top-level commas of a body: the segment that begins at
/// `from`, read up to `i`, and those behind it.
pub open spec fn segments(s: Seq<char>, from: int, i: int, depth: int, quoted: bool) -> Seq<
    Seq<char>,
>
    decreases s.len() - i,
{
    if i < 0 || i >= s.len() {
        seq![s.subrange(from, s.len() as int)]
    } else if s[i] == ',' && depth == 0 && !quoted {
        seq![s.subrange(from, i)] + segments(s, i + 1, i + 1, depth, quoted)
    } else {
        let (d, q) = level_after(s[i], depth, quoted);
        segments(s, from, i + 1, d, q)
    }
}

/// The first top-level `=` from `i` on.
pub open spec fn equals_at(s: Seq<char>, i: int, depth: int, quoted: bool) -> Option<int>
    decreases s.len() - i,
{
    if i < 0 || i >= s.len() {
        None
    } else if s[i] == '=' && depth == 0 && !quoted {
        Some(i)
    } else {
        let (d, q) = level_after(s[i], depth, quoted);
        equals_at(s, i + 1, d, q)
    }
}

/// The nesting and quoting behind a text, read from `i` on; nothing where a comma of it
/// separates segments.
pub open spec fn nesting(t: Seq<char>, i: int, depth: int, quoted: bool) -> Option<(int, bool)>
    decreases t.len() - i,
{
    if i < 0 || i >= t.len() {
        Some((depth, quoted))
    } else if t[i] == ',' && depth == 0 && !quoted {
        None
    } else {
        let (d, q) = level_after(t[i], depth, quoted);
        nesting(t, i + 1, d, q)
    }
}

/// The braces and quotes that are open behind a text, read from `i` on; nothing where a
/// brace of it closes the body it stands in.
pub open spec fn bracing(t: Seq<char>, i: int, depth: int, quoted: bool) -> Option<(int, bool)>
    decreases t.len() - i,
{
    if i < 0 || i >= t.len() {
        Some((depth, quoted))
    } else if quoted {
        bracing(t, i + 1, depth, t[i] != '"')
    } else if t[i] == '"' {
        bracing(t, i + 1, depth, true)
    } else if t[i] == '{' {
        bracing(t, i + 1, depth + 1, false)
    } else if t[i] == '}' {
        if depth == 0 {
            None
        } else {
            bracing(t, i + 1, depth - 1, false)
        }
    } else {
        bracing(t, i + 1, depth, false)
    }
}

/// Whether a text closes the braces and quotes that it opens, and keeps its commas inside
/// them.
pub open spec fn is_closed(t: Seq<char>) -> bool {
    nesting(t, 0, 0, false) == Some((0int, false))
}

/// The nesting and quoting behind a body, read from `i` on.
pub open spec fn level(t: Seq<char>, i: int, depth: int, quoted: bool) -> (int, bool)
    decreases t.len() - i,
{
    if i < 0 || i >= t.len() {
        (depth, quoted)
    } else {
        let (d, q) = level_after(t[i], depth, quoted);
        level(t, i + 1, d, q)
    }
}

/// Whether a body closes the braces and quotes that it opens, and no others: both when it
/// is looked through for its end, where a quote counts everywhere, and when it is split,
/// where a quote counts outside braces.
pub open spec fn is_balanced(body: Seq<char>) -> bool {
    level(body, 0, 0, false) == (0int, false) && bracing(body, 0, 0, false) == Some((0int, false))
}

/// A text with every run of white space as one space.
pub open spec fn collapsed(s: Seq<char>) -> Seq<char> {
    text::join(text::words(s), " "@)
}

/// An entry: its type, its key where it has one, and its fields.
pub struct Entry {
    pub kind: Seq<char>,
    pub key: Option<Seq<char>>,
    pub fields: Seq<(Seq<char>, Seq<char>)>,
}

/// The fields of the segments from the `k`-th on; blank segments are skipped.
pub open spec fn fields_from(segs: Seq<Seq<char>>, k: int) -> Option<Seq<(Seq<char>, Seq<char>)>>
    decreases segs.len() - k,
{
    if k < 0 || k >= segs.len() {
        Some(Seq::empty())
    } else {
        let t = text::trim(segs[k]);
        if t.len() == 0 {
            fields_from(segs, k + 1)
        } else {
            match equals_at(t, 0, 0, false) {
                None => None,
                Some(e) => {
                    let name = chars::lowercase(text::trim(t.take(e)));
                    let value = collapsed(text::trim(t.skip(e + 1)));
                    if name.len() == 0 {
                        None
                    } else {
                        match fields_from(segs, k + 1) {
                            Some(rest) => Some(seq![(name, value)] + rest),
                            None => None,
                        }
                    }
                },
            }
        }
    }
}

/// Whether entries of a type have no key.
pub open spec fn is_keyless(kind: Seq<char>) -> bool {
    kind == "string"@ || kind == "preamble"@
}

/// The entry of a type with the given body, which is balanced. An entry without a key has
/// one field at most.
pub open spec fn entry_of(kind: Seq<char>, body: Seq<char>) -> Option<Entry> {
    let segs = segments(body, 0, 0, 0, false);
    let k = chars::lowercase(kind);
    if !is_balanced(body) {
        None
    } else if is_keyless(k) {
        match fields_from(segs, 0) {
            Some(fields) => if fields.len() > 1 {
                None
            } else {
                Some(Entry { kind: k, key: None, fields })
            },
            None => None,
        }
    } else {
        let key = text::trim(segs[0]);
        if key.len() == 0 || key.contains('=') {
            None
        } else {
            match fields_from(segs, 1) {
                Some(fields) => Some(Entry { kind: k, key: Some(key), fields }),
                None => None,
            }
        }
    }
}

/// The entry that begins at the `@` at `i`, and the position behind it.
pub open spec fn entry_at(s: Seq<char>, i: int) -> Option<(Entry, int)> {
    let e = kind_end(s, i + 1);
    let open = skip_space(s, e);
    if e <= i + 1 || open >= s.len() || !(s[open] == '{' || s[open] == '(') {
        None
    } else {
        match body_end(s, open + 1, s[open] == '{', 0, false) {
            None => None,
            Some(close) => match entry_of(s.subrange(i + 1, e), s.subrange(open + 1, close)) {
                Some(entry) => Some((entry, close + 1)),
                None => None,
            },
        }
    }
}

pub proof fn lemma_skip_space(s: Seq<char>, i: int)
    requires
        0 <= i <= s.len(),
    ensures
        i <= skip_space(s, i) <= s.len(),
    decreases s.len() - i,
{
    if i < s.len() && chars::is_space(s[i]) {
        lemma_skip_space(s, i + 1);
    }
}

pub proof fn lemma_kind_end(s: Seq<char>, i: int)
    requires
        0 <= i <= s.len(),
    ensures
        i <= kind_end(s, i) <= s.len(),
    decreases s.len() - i,
{
    if i < s.len() && chars::alphanumeric(s[i]) {
        lemma_kind_end(s, i + 1);
    }
}

pub proof fn lemma_body_end(s: Seq<char>, i: int, braces: bool, depth: int, quoted: bool)
    requires
        0 <= i,
    ensures
        match body_end(s, i, braces, depth, quoted) {
            Some(k) => i <= k < s.len(),
            None => true,
        },
    decreases s.len() - i,
{
    if i < s.len() {
        if quoted {
            lemma_body_end(s, i + 1, braces, depth, s[i] != '"');
        } else if s[i] == '"' {
            lemma_body_end(s, i + 1, braces, depth, true);
        } else if s[i] == '{' {
            lemma_body_end(s, i + 1, braces, depth + 1, false);
        } else if s[i] == '}' {
            if !(braces && depth == 0) {
                lemma_body_end(s, i + 1, braces, depth - 1, false);
            }
        } else {
            lemma_body_end(s, i + 1, braces, depth, false);
        }
    }
}

pub proof fn lemma_entry_at(s: Seq<char>, i: int)
    requires
        0 <= i < s.len(),
    ensures
        match entry_at(s, i) {
            Some((_, end)) => i < end <= s.len(),
            None => true,
        },
{
    lemma_kind_end(s, i + 1);
    lemma_skip_space(s, kind_end(s, i + 1));
    let open = skip_space(s, kind_end(s, i + 1));
    lemma_body_end(s, open + 1, s[open] == '{', 0, false);
}

/// The entries of a source from `i` on. Nothing but white space may stand between them.
pub open spec fn entries(s: Seq<char>, i: int) -> Option<Seq<Entry>>
    decreases s.len() - i,
    via entries_decreases
{
    let at = skip_space(s, i);
    if i < 0 || at >= s.len() {
        Some(Seq::empty())
    } else if s[at] != '@' {
        None
    } else {
        match entry_at(s, at) {
            None => None,
            Some((entry, end)) => match entries(s, end) {
                Some(rest) => Some(seq![entry] + rest),
                None => None,
            },
        }
    }
}

#[via_fn]
proof fn entries_decreases(s: Seq<char>, i: int) {
    if 0 <= i {
        if i <= s.len() {
            lemma_skip_space(s, i);
        }
        let at = skip_space(s, i);
        if at < s.len() {
            lemma_entry_at(s, at);
        }
    }
}

/// The largest number of bytes among the names of the first `k` fields.
pub open spec fn name_width(fields: Seq<(Seq<char>, Seq<char>)>, k: int) -> nat
    decreases k,
{
    if k <= 0 || k > fields.len() {
        0
    } else {
        let before = name_width(fields, k - 1);
        let here = text::byte_len(fields[k - 1].0);
        if here > before {
            here
        } else {
            before
        }
    }
}

/// A text with spaces behind it, up to `width` characters.
pub open spec fn padded(s: Seq<char>, width: nat) -> Seq<char> {
    if s.len() < width {
        s + text::repeat(" "@, (width - s.len()) as nat)
    } else {
        s
    }
}

/// The lines of the first `k` fields.
pub open spec fn field_lines(fields: Seq<(Seq<char>, Seq<char>)>, width: nat, k: int) -> Seq<char>
    decreases k,
{
    if k <= 0 || k > fields.len() {
        Seq::empty()
    } else {
        field_lines(fields, width, k - 1) + ",\n  "@ + padded(fields[k - 1].0, width) + " = "@
            + fields[k - 1].1
    }
}

/// An entry as text.
pub open spec fn rendered(e: Entry) -> Seq<char> {
    let n = e.fields.len() as int;
    let head = "@"@ + e.kind + "{"@;
    match e.key {
        None => if n > 0 {
            head + e.fields[0].0 + " = "@ + e.fields[0].1 + "}"@
        } else {
            head + "}"@
        },
        Some(key) => {
            let lines = head + key + field_lines(e.fields, name_width(e.fields, n), n);
            if n > 0 {
                lines + ","@ + "\n}"@
            } else {
                lines + "\n}"@
            }
        },
    }
}

/// The entries as texts.
pub open spec fn blocks(es: Seq<Entry>) -> Seq<Seq<char>> {
    Seq::new(es.len(), |k: int| rendered(es[k]))
}

/// The formatted source, where it can be read and has an entry.
pub open spec fn tried(source: Seq<char>) -> Option<Seq<char>> {
    match entries(source, 0) {
        Some(es) => if es.len() > 0 {
            Some(text::join(blocks(es), "\n\n"@).push('\n'))
        } else {
            None
        },
        None => None,
    }
}

/// The formatted source; a source that cannot be read is kept.
pub open spec fn formatted_bib(source: Seq<char>) -> Seq<char> {
    match tried(source) {
        Some(out) => out,
        None => source,
    }
}

/// An entry as read.
struct BibEntry {
    kind: String,
    key: Option<String>,
    fields: Vec<(String, String)>,
}

spec fn field_views(v: Seq<(String, String)>) -> Seq<(Seq<char>, Seq<char>)> {
    Seq::new(v.len(), |k: int| (v[k].0@, v[k].1@))
}

impl BibEntry {
    spec fn entry(self) -> Entry {
        Entry {
            kind: self.kind@,
            key: text::opt_text(self.key),
            fields: field_views(self.fields@),
        }
    }
}

fn past_space(s: &[char], i: usize) -> (r: usize)
    requires
        i <= s@.len(),
    ensures
        r == skip_space(s@, i as int),
        i <= r <= s@.len(),
{
    let mut j: usize = i;
    while j < s.len() && chars::space(s[j])
        invariant
            i <= j <= s@.len(),
            skip_space(s@, i as int) == skip_space(s@, j as int),
        decreases s@.len() - j,
    {
        j = j + 1;
    }
    j
}

fn past_kind(s: &[char], i: usize) -> (r: usize)
    requires
        i <= s@.len(),
    ensures
        r == kind_end(s@, i as int),
        i <= r <= s@.len(),
{
    let mut j: usize = i;
    while j < s.len() && s[j].is_alphanumeric()
        invariant
            i <= j <= s@.len(),
            kind_end(s@, i as int) == kind_end(s@, j as int),
        decreases s@.len() - j,
    {
        j = j + 1;
    }
    j
}

fn find_body_end(s: &[char], i: usize, braces: bool) -> (r: Option<usize>)
    requires
        i <= s@.len(),
    ensures
        match r {
            Some(k) => body_end(s@, i as int, braces, 0, false) == Some(k as int) && i <= k
                < s@.len(),
            None => body_end(s@, i as int, braces, 0, false) is None,
        },
{
    let n: usize = s.len();
    let mut j: usize = i;
    let mut depth: i128 = 0;
    let mut quoted = false;
    while j < n
        invariant
            n == s@.len(),
            i <= j <= n,
            -(j as int) <= depth <= j,
            body_end(s@, i as int, braces, 0, false) == body_end(
                s@,
                j as int,
                braces,
                depth as int,
                quoted,
            ),
        decreases n - j,
    {
        let c = s[j];
        if quoted {
            quoted = c != '"';
        } else if c == '"' {
            quoted = true;
        } else if c == '{' {
            depth = depth + 1;
        } else if c == '}' {
            if braces && depth == 0 {
                return Some(j);
            }
            depth = depth - 1;
        } else if c == ')' && !braces && depth == 0 {
            return Some(j);
        }
        j = j + 1;
    }
    None
}

fn next_level(c: char, depth: i128, quoted: bool) -> (r: (i128, bool))
    requires
        i128::MIN < depth < i128::MAX,
    ensures
        (r.0 as int, r.1) == level_after(c, depth as int, quoted),
        depth - 1 <= r.0 <= depth + 1,
{
    if c == '"' && depth == 0 {
        (depth, !quoted)
    } else if c == '{' && !quoted {
        (depth + 1, quoted)
    } else if c == '}' && !quoted {
        (depth - 1, quoted)
    } else {
        (depth, quoted)
    }
}

fn split_segments(s: &[char]) -> (r: Vec<&[char]>)
    ensures
        text::slices(r@) == segments(s@, 0, 0, 0, false),
        r@.len() > 0,
{
    broadcast use text::lemma_slices_push;

    let n: usize = s.len();
    let mut out: Vec<&[char]> = Vec::new();
    let mut from: usize = 0;
    let mut i: usize = 0;
    let mut depth: i128 = 0;
    let mut quoted = false;
    let ghost all = segments(s@, 0, 0, 0, false);
    assert(text::slices(out@) + all =~= all);
    while i < n
        invariant
            n == s@.len(),
            from <= i <= n,
            -(i as int) <= depth <= i,
            text::slices(out@) + segments(s@, from as int, i as int, depth as int, quoted) == all,
        decreases n - i,
    {
        let c = s[i];
        if c == ',' && depth == 0 && !quoted {
            let piece = text::part(s, from, i);
            let ghost done = text::slices(out@);
            let ghost rest = segments(s@, i + 1, i + 1, depth as int, quoted);
            assert(done + (seq![piece@] + rest) =~= done.push(piece@) + rest);
            out.push(piece);
            from = i + 1;
        } else {
            let (d, q) = next_level(c, depth, quoted);
            depth = d;
            quoted = q;
        }
        i = i + 1;
    }
    let piece = text::part(s, from, n);
    let ghost done = text::slices(out@);
    assert(done + seq![piece@] =~= done.push(piece@));
    out.push(piece);
    out
}

/// Split a body on its top-level commas, those outside braces and quotes.
pub fn split_top_level(body: &str) -> (r: Vec<String>)
    ensures
        text::texts(r@) == segments(body@, 0, 0, 0, false),
{
    broadcast use text::lemma_texts_push;

    let c = chars_of(body);
    let parts = split_segments(c.as_slice());
    let ghost all = text::slices(parts@);
    let mut out: Vec<String> = Vec::new();
    let mut k: usize = 0;
    assert(text::texts(out@) =~= all.take(0));
    while k < parts.len()
        invariant
            k <= parts@.len(),
            all == text::slices(parts@),
            text::texts(out@) == all.take(k as int),
        decreases parts@.len() - k,
    {
        assert(all.take(k + 1) =~= all.take(k as int).push(parts@[k as int]@));
        out.push(string_of(parts[k]));
        k = k + 1;
    }
    assert(all.take(k as int) =~= all);
    out
}

fn find_equals(s: &[char]) -> (r: Option<usize>)
    ensures
        match r {
            Some(k) => equals_at(s@, 0, 0, false) == Some(k as int) && k < s@.len(),
            None => equals_at(s@, 0, 0, false) is None,
        },
{
    let n: usize = s.len();
    let mut i: usize = 0;
    let mut depth: i128 = 0;
    let mut quoted = false;
    while i < n
        invariant
            n == s@.len(),
            i <= n,
            -(i as int) <= depth <= i,
            equals_at(s@, 0, 0, false) == equals_at(s@, i as int, depth as int, quoted),
        decreases n - i,
    {
        let c = s[i];
        if c == '=' && depth == 0 && !quoted {
            return Some(i);
        }
        let (d, q) = next_level(c, depth, quoted);
        depth = d;
        quoted = q;
        i = i + 1;
    }
    None
}

/// The byte of the first top-level `=` of a `name = value` segment.
pub fn top_level_eq(seg: &str) -> (r: Option<usize>)
    ensures
        match equals_at(seg@, 0, 0, false) {
            Some(e) => r matches Some(b) && b == position::byte_at(seg@, e),
            None => r is None,
        },
{
    let c = chars_of(seg);
    match find_equals(c.as_slice()) {
        Some(k) => Some(position::byte_offsets(seg)[k]),
        None => None,
    }
}

fn collapse(s: &[char]) -> (r: String)
    ensures
        r@ == collapsed(s@),
{
    let ws = text::words_of(s);
    text::joined_slices(&ws, " ")
}

/// Collapse every run of white space, line feeds among it, into one space.
pub fn collapse_ws(value: &str) -> (r: String)
    ensures
        r@ == collapsed(value@),
{
    let c = chars_of(value);
    collapse(c.as_slice())
}

/// Whether a body closes the braces and quotes that it opens, and no others.
fn balances(t: &[char]) -> (r: bool)
    ensures
        r == is_balanced(t@),
{
    let n: usize = t.len();
    let mut i: usize = 0;
    let mut depth: i128 = 0;
    let mut quoted = false;
    let mut open: i128 = 0;
    let mut hidden = false;
    while i < n
        invariant
            n == t@.len(),
            i <= n,
            -(i as int) <= depth <= i,
            0 <= open <= i,
            level(t@, 0, 0, false) == level(t@, i as int, depth as int, quoted),
            bracing(t@, 0, 0, false) == bracing(t@, i as int, open as int, hidden),
        decreases n - i,
    {
        let c = t[i];
        if hidden {
            hidden = c != '"';
        } else if c == '"' {
            hidden = true;
        } else if c == '{' {
            open = open + 1;
        } else if c == '}' {
            if open == 0 {
                return false;
            }
            open = open - 1;
        }
        let (d, q) = next_level(c, depth, quoted);
        depth = d;
        quoted = q;
        i = i + 1;
    }
    depth == 0 && !quoted && open == 0 && !hidden
}

/// The fields of a row of segments from the `from`-th on, or nothing where one has no
/// name.
fn read_fields(segs: &Vec<&[char]>, from: usize) -> (r: Option<Vec<(String, String)>>)
    requires
        from <= segs@.len(),
    ensures
        match r {
            Some(v) => fields_from(text::slices(segs@), from as int) == Some(field_views(v@)),
            None => fields_from(text::slices(segs@), from as int) is None,
        },
{
    let ghost all = text::slices(segs@);
    let mut out: Vec<(String, String)> = Vec::new();
    let mut k: usize = from;
    let ghost whole = fields_from(all, from as int);
    while k < segs.len()
        invariant
            from <= k <= segs@.len(),
            all == text::slices(segs@),
            whole == fields_from(all, from as int),
            match fields_from(all, k as int) {
                Some(rest) => whole == Some(field_views(out@) + rest),
                None => whole is None,
            },
        decreases segs@.len() - k,
    {
        assert(all[k as int] == segs@[k as int]@);
        let ghost done = field_views(out@);
        let t = text::trimmed(segs[k]);
        if t.len() > 0 {
            let e = match find_equals(t) {
                Some(e) => e,
                None => {
                    return None;
                },
            };
            let name = chars::to_lowercase(string_of(text::trimmed(text::upto(t, e))).as_str());
            let value = collapse(text::trimmed(text::from(t, e + 1)));
            let nc = chars_of(name.as_str());
            if nc.len() == 0 {
                return None;
            }
            let ghost pair = (name@, value@);
            out.push((name, value));
            proof {
                assert(field_views(out@) =~= done.push(pair));
                if let Some(rest) = fields_from(all, k + 1) {
                    assert(done + (seq![pair] + rest) =~= done.push(pair) + rest);
                }
            }
        }
        k = k + 1;
    }
    assert(field_views(out@) + Seq::<(Seq<char>, Seq<char>)>::empty() =~= field_views(out@));
    Some(out)
}

fn parse_bib_body(kind: &[char], body: &[char]) -> (r: Option<BibEntry>)
    ensures
        match r {
            Some(e) => entry_of(kind@, body@) == Some(e.entry()),
            None => entry_of(kind@, body@) is None,
        },
{
    if !balances(body) {
        return None;
    }
    let segs = split_segments(body);
    let k = chars::to_lowercase(string_of(kind).as_str());
    if text::same_str(k.as_str(), "string") || text::same_str(k.as_str(), "preamble") {
        match read_fields(&segs, 0) {
            Some(fields) => {
                assert(field_views(fields@).len() == fields@.len());
                if fields.len() > 1 {
                    None
                } else {
                    Some(BibEntry { kind: k, key: None, fields })
                }
            },
            None => None,
        }
    } else {
        assert(text::slices(segs@)[0] == segs@[0]@);
        let key = text::trimmed(segs[0]);
        if key.len() == 0 || text::has_ch(key, '=') {
            return None;
        }
        match read_fields(&segs, 1) {
            Some(fields) => Some(BibEntry { kind: k, key: Some(string_of(key)), fields }),
            None => None,
        }
    }
}

fn width_of(fields: &Vec<(String, String)>) -> (r: u128)
    ensures
        r == name_width(field_views(fields@), fields@.len() as int),
{
    let ghost all = field_views(fields@);
    let mut w: u128 = 0;
    let mut k: usize = 0;
    while k < fields.len()
        invariant
            k <= fields@.len(),
            all == field_views(fields@),
            w == name_width(all, k as int),
        decreases fields@.len() - k,
    {
        let c = chars_of(fields[k].0.as_str());
        let here = position::byte_length(c.as_slice());
        if here > w {
            w = here;
        }
        k = k + 1;
    }
    w
}

fn push_padded(out: &mut String, s: &str, width: u128)
    ensures
        final(out)@ == old(out)@ + padded(s@, width as nat),
{
    let ghost before = out@;
    let c = chars_of(s);
    let n: u128 = c.len() as u128;
    text::push(out, s);
    if n < width {
        text::push(out, text::repeated(" ", width - n).as_str());
        assert(out@ =~= before + (s@ + text::repeat(" "@, (width - n) as nat)));
    }
}

fn render_bib_entry(e: &BibEntry) -> (r: String)
    ensures
        r@ == rendered(e.entry()),
{
    let ghost fields = field_views(e.fields@);
    let mut s = text::cat3("@", e.kind.as_str(), "{");
    match &e.key {
        None => {
            if e.fields.len() > 0 {
                assert(fields[0] == (e.fields@[0].0@, e.fields@[0].1@));
                text::push(&mut s, e.fields[0].0.as_str());
                text::push(&mut s, " = ");
                text::push(&mut s, e.fields[0].1.as_str());
            }
            text::push(&mut s, "}");
            s
        },
        Some(key) => {
            let width = width_of(&e.fields);
            text::push(&mut s, key.as_str());
            let ghost head = s@;
            let mut k: usize = 0;
            assert(s@ =~= head + field_lines(fields, width as nat, 0));
            while k < e.fields.len()
                invariant
                    k <= e.fields@.len(),
                    fields == field_views(e.fields@),
                    s@ == head + field_lines(fields, width as nat, k as int),
                decreases e.fields@.len() - k,
            {
                let ghost before = field_lines(fields, width as nat, k as int);
                assert(fields[k as int] == (e.fields@[k as int].0@, e.fields@[k as int].1@));
                text::push(&mut s, ",\n  ");
                push_padded(&mut s, e.fields[k].0.as_str(), width);
                text::push(&mut s, " = ");
                text::push(&mut s, e.fields[k].1.as_str());
                assert(s@ =~= head + (before + ",\n  "@ + padded(
                    fields[k as int].0,
                    width as nat,
                ) + " = "@ + fields[k as int].1));
                k = k + 1;
            }
            if e.fields.len() > 0 {
                text::push(&mut s, ",");
            }
            text::push(&mut s, "\n}");
            s
        },
    }
}

fn read_entry(s: &[char], i: usize) -> (r: Option<(BibEntry, usize)>)
    requires
        i < s@.len(),
    ensures
        match r {
            Some((e, end)) => entry_at(s@, i as int) == Some((e.entry(), end as int)) && i < end
                <= s@.len(),
            None => entry_at(s@, i as int) is None,
        },
{
    let n: usize = s.len();
    let e = past_kind(s, i + 1);
    if e == i + 1 {
        return None;
    }
    let open = past_space(s, e);
    if open >= n || !(s[open] == '{' || s[open] == '(') {
        return None;
    }
    let close = match find_body_end(s, open + 1, s[open] == '{') {
        Some(k) => k,
        None => {
            return None;
        },
    };
    match parse_bib_body(text::part(s, i + 1, e), text::part(s, open + 1, close)) {
        Some(entry) => Some((entry, close + 1)),
        None => None,
    }
}

/// The formatted source, where it can be read and has an entry.
pub fn try_format_bib(source: &str) -> (r: Option<String>)
    ensures
        text::opt_text(r) == tried(source@),
{
    broadcast use text::lemma_texts_push;

    let c = chars_of(source);
    let s = c.as_slice();
    let n: usize = s.len();
    let ghost whole = entries(s@, 0);
    let ghost mut done: Seq<Entry> = Seq::empty();
    let mut out: Vec<String> = Vec::new();
    let mut i: usize = 0;
    proof {
        if let Some(rest) = whole {
            assert(done + rest =~= rest);
        }
        assert(text::texts(out@) =~= blocks(done));
    }
    loop
        invariant
            n == s@.len(),
            s@ == source@,
            whole == entries(s@, 0),
            i <= n,
            text::texts(out@) == blocks(done),
            match entries(s@, i as int) {
                Some(rest) => whole == Some(done + rest),
                None => whole is None,
            },
        decreases n - i,
    {
        let at = past_space(s, i);
        if at >= n {
            assert(done + Seq::<Entry>::empty() =~= done);
            if out.len() == 0 {
                assert(blocks(done).len() == 0);
                return None;
            }
            assert(done.len() == blocks(done).len());
            let mut all = text::joined(&out, "\n\n");
            all.push('\n');
            return Some(all);
        }
        if s[at] != '@' {
            return None;
        }
        match read_entry(s, at) {
            None => {
                return None;
            },
            Some((entry, end)) => {
                let block = render_bib_entry(&entry);
                proof {
                    let x = entry.entry();
                    if let Some(rest) = entries(s@, end as int) {
                        assert(done + (seq![x] + rest) =~= done.push(x) + rest);
                    }
                    assert(blocks(done.push(x)) =~= blocks(done).push(rendered(x)));
                    done = done.push(x);
                }
                out.push(block);
                i = end;
            },
        }
    }
}

/// Format a `.bib` file. A source that cannot be read is returned as it is.
pub fn format_bib(source: &str) -> (r: String)
    ensures
        r@ == formatted_bib(source@),
{
    match try_format_bib(source) {
        Some(out) => out,
        None => text::lit(source),
    }
}

} // verus!
