//! Text as a sequence of characters.

use vstd::prelude::*;

use crate::chars;

verus! {

/// The texts of a sequence of strings.
pub open spec fn texts(v: Seq<String>) -> Seq<Seq<char>> {
    Seq::new(v.len(), |i: int| v[i]@)
}

/// The texts of a sequence of slices.
pub open spec fn slices(v: Seq<&[char]>) -> Seq<Seq<char>> {
    Seq::new(v.len(), |i: int| v[i]@)
}

/// The text of an optional string.
pub open spec fn opt_text(v: Option<String>) -> Option<Seq<char>> {
    match v {
        Some(s) => Some(s@),
        None => None,
    }
}

/// The text of an optional borrowed string.
pub open spec fn opt_str(s: Option<&str>) -> Option<Seq<char>> {
    match s {
        Some(x) => Some(x@),
        None => None,
    }
}

pub broadcast proof fn lemma_texts_push(v: Seq<String>, x: String)
    ensures
        #[trigger] texts(v.push(x)) == texts(v).push(x@),
{
    assert(texts(v.push(x)) =~= texts(v).push(x@));
}

pub broadcast proof fn lemma_slices_push(v: Seq<&[char]>, x: &[char])
    ensures
        #[trigger] slices(v.push(x)) == slices(v).push(x@),
{
    assert(slices(v.push(x)) =~= slices(v).push(x@));
}

/// Whether the text `p` stands in `s` at position `i`.
pub open spec fn matches_at(s: Seq<char>, i: int, p: Seq<char>) -> bool {
    0 <= i && i + p.len() <= s.len() && s.subrange(i, i + p.len()) == p
}

/// Whether `s` begins with `p`.
pub open spec fn starts_with(s: Seq<char>, p: Seq<char>) -> bool {
    matches_at(s, 0, p)
}

/// Whether `s` ends with `p`.
pub open spec fn ends_with(s: Seq<char>, p: Seq<char>) -> bool {
    matches_at(s, s.len() - p.len(), p)
}

/// Whether `p` stands anywhere in `s`.
pub open spec fn contains(s: Seq<char>, p: Seq<char>) -> bool {
    exists|i: int| #[trigger] matches_at(s, i, p)
}

/// The first position from `i` on at which `p` stands in `s`.
pub open spec fn find_from(s: Seq<char>, p: Seq<char>, i: int) -> Option<int>
    decreases s.len() + 1 - i,
{
    if i < 0 || i + p.len() > s.len() {
        None
    } else if matches_at(s, i, p) {
        Some(i)
    } else {
        find_from(s, p, i + 1)
    }
}

/// The first position at which `p` stands in `s`.
pub open spec fn find(s: Seq<char>, p: Seq<char>) -> Option<int> {
    find_from(s, p, 0)
}

/// The first position from `i` on that holds the character `c`.
pub open spec fn find_char_from(s: Seq<char>, c: char, i: int) -> Option<int>
    decreases s.len() - i,
{
    if i < 0 || i >= s.len() {
        None
    } else if s[i] == c {
        Some(i)
    } else {
        find_char_from(s, c, i + 1)
    }
}

/// The first position that holds the character `c`.
pub open spec fn find_char(s: Seq<char>, c: char) -> Option<int> {
    find_char_from(s, c, 0)
}

/// The last position before `i` that holds the character `c`.
pub open spec fn rfind_char_before(s: Seq<char>, c: char, i: int) -> Option<int>
    decreases i,
{
    if i <= 0 || i > s.len() {
        None
    } else if s[i - 1] == c {
        Some(i - 1)
    } else {
        rfind_char_before(s, c, i - 1)
    }
}

/// The last position that holds the character `c`.
pub open spec fn rfind_char(s: Seq<char>, c: char) -> Option<int> {
    rfind_char_before(s, c, s.len() as int)
}

/// `s` without leading white space.
pub open spec fn trim_start(s: Seq<char>) -> Seq<char>
    decreases s.len(),
{
    if s.len() > 0 && chars::is_space(s[0]) {
        trim_start(s.skip(1))
    } else {
        s
    }
}

/// `s` without trailing white space.
pub open spec fn trim_end(s: Seq<char>) -> Seq<char>
    decreases s.len(),
{
    if s.len() > 0 && chars::is_space(s.last()) {
        trim_end(s.drop_last())
    } else {
        s
    }
}

/// `s` without white space at either end.
pub open spec fn trim(s: Seq<char>) -> Seq<char> {
    trim_end(trim_start(s))
}

/// `s` without the leading occurrences of `c`.
pub open spec fn trim_start_char(s: Seq<char>, c: char) -> Seq<char>
    decreases s.len(),
{
    if s.len() > 0 && s[0] == c {
        trim_start_char(s.skip(1), c)
    } else {
        s
    }
}

/// `s` without the trailing occurrences of `c`.
pub open spec fn trim_end_char(s: Seq<char>, c: char) -> Seq<char>
    decreases s.len(),
{
    if s.len() > 0 && s.last() == c {
        trim_end_char(s.drop_last(), c)
    } else {
        s
    }
}

/// `s` without one carriage return at its end.
pub open spec fn strip_cr(s: Seq<char>) -> Seq<char> {
    if s.len() > 0 && s.last() == '\r' {
        s.drop_last()
    } else {
        s
    }
}

pub proof fn lemma_find_char_bounds(s: Seq<char>, c: char, i: int)
    requires
        0 <= i,
    ensures
        match find_char_from(s, c, i) {
            Some(k) => i <= k < s.len() && s[k] == c && (forall|j: int|
                i <= j < k ==> s[j] != c),
            None => forall|j: int| i <= j < s.len() ==> s[j] != c,
        },
    decreases s.len() - i,
{
    if i < s.len() && s[i] != c {
        lemma_find_char_bounds(s, c, i + 1);
    }
}

pub proof fn lemma_rfind_char_bounds(s: Seq<char>, c: char, i: int)
    requires
        0 <= i <= s.len(),
    ensures
        match rfind_char_before(s, c, i) {
            Some(k) => 0 <= k < i && s[k] == c && (forall|j: int| k < j < i ==> s[j] != c),
            None => forall|j: int| 0 <= j < i ==> s[j] != c,
        },
    decreases i,
{
    if 0 < i && s[i - 1] != c {
        lemma_rfind_char_bounds(s, c, i - 1);
    }
}

pub proof fn lemma_find_bounds(s: Seq<char>, p: Seq<char>, i: int)
    requires
        0 <= i,
    ensures
        match find_from(s, p, i) {
            Some(k) => i <= k && k + p.len() <= s.len() && matches_at(s, k, p) && (forall|j: int|
                i <= j < k ==> !matches_at(s, j, p)),
            None => forall|j: int| i <= j ==> !matches_at(s, j, p),
        },
    decreases s.len() + 1 - i,
{
    if i + p.len() <= s.len() && !matches_at(s, i, p) {
        lemma_find_bounds(s, p, i + 1);
    }
}

pub proof fn lemma_contains_find(s: Seq<char>, p: Seq<char>)
    ensures
        contains(s, p) == (find(s, p) is Some),
{
    lemma_find_bounds(s, p, 0);
}

/// The lines of a text: a line ends at a line feed, a carriage return before the line
/// feed belongs to the ending, and an empty rest after the last ending is no line.
pub open spec fn lines(s: Seq<char>) -> Seq<Seq<char>>
    decreases s.len(),
    via lines_decreases
{
    if s.len() == 0 {
        Seq::empty()
    } else {
        match find_char(s, '\n') {
            None => seq![s],
            Some(k) => seq![strip_cr(s.take(k))] + lines(s.skip(k + 1)),
        }
    }
}

#[via_fn]
proof fn lines_decreases(s: Seq<char>) {
    lemma_find_char_bounds(s, '\n', 0);
}

/// The pieces of a text between the occurrences of `c`.
pub open spec fn split(s: Seq<char>, c: char) -> Seq<Seq<char>>
    decreases s.len(),
    via split_decreases
{
    match find_char(s, c) {
        None => seq![s],
        Some(k) => seq![s.take(k)] + split(s.skip(k + 1), c),
    }
}

#[via_fn]
proof fn split_decreases(s: Seq<char>, c: char) {
    lemma_find_char_bounds(s, c, 0);
}

/// The length of the run of characters other than white space at the start of `s`.
pub open spec fn word_len(s: Seq<char>) -> int
    decreases s.len(),
{
    if s.len() > 0 && !chars::is_space(s[0]) {
        1 + word_len(s.skip(1))
    } else {
        0
    }
}

pub proof fn lemma_trim_start_len(s: Seq<char>)
    ensures
        trim_start(s).len() <= s.len(),
        trim_start(s) == s.skip(s.len() - trim_start(s).len()),
        trim_start(s).len() > 0 ==> !chars::is_space(trim_start(s)[0]),
        forall|i: int| 0 <= i < s.len() - trim_start(s).len() ==> chars::is_space(s[i]),
    decreases s.len(),
{
    if s.len() > 0 && chars::is_space(s[0]) {
        lemma_trim_start_len(s.skip(1));
        let t = trim_start(s);
        assert(t =~= s.skip(s.len() - t.len()));
        assert forall|i: int| 0 <= i < s.len() - t.len() implies chars::is_space(s[i]) by {
            if i > 0 {
                assert(s.skip(1)[i - 1] == s[i]);
            }
        }
    } else {
        assert(s =~= s.skip(0));
    }
}

pub proof fn lemma_trim_end_len(s: Seq<char>)
    ensures
        trim_end(s).len() <= s.len(),
        trim_end(s) == s.take(trim_end(s).len() as int),
        trim_end(s).len() > 0 ==> !chars::is_space(trim_end(s).last()),
        forall|i: int| trim_end(s).len() <= i < s.len() ==> chars::is_space(s[i]),
    decreases s.len(),
{
    if s.len() > 0 && chars::is_space(s.last()) {
        lemma_trim_end_len(s.drop_last());
        let t = trim_end(s);
        assert(t =~= s.take(t.len() as int));
        assert forall|i: int| t.len() <= i < s.len() implies chars::is_space(s[i]) by {
            if i < s.len() - 1 {
                assert(s.drop_last()[i] == s[i]);
            }
        }
    } else {
        assert(s =~= s.take(s.len() as int));
    }
}

pub proof fn lemma_trim_len(s: Seq<char>)
    ensures
        trim(s).len() <= s.len(),
{
    lemma_trim_start_len(s);
    lemma_trim_end_len(trim_start(s));
}

pub proof fn lemma_word_len(s: Seq<char>)
    ensures
        0 <= word_len(s) <= s.len(),
        s.len() > 0 && !chars::is_space(s[0]) ==> word_len(s) > 0,
        forall|i: int| 0 <= i < word_len(s) ==> !chars::is_space(s[i]),
        word_len(s) < s.len() ==> chars::is_space(s[word_len(s)]),
    decreases s.len(),
{
    if s.len() > 0 && !chars::is_space(s[0]) {
        lemma_word_len(s.skip(1));
        let w = word_len(s);
        assert forall|i: int| 0 <= i < w implies !chars::is_space(s[i]) by {
            if i > 0 {
                assert(s.skip(1)[i - 1] == s[i]);
            }
        }
        if w < s.len() {
            assert(s.skip(1)[w - 1] == s[w]);
        }
    }
}

/// The maximal runs of characters other than white space.
pub open spec fn words(s: Seq<char>) -> Seq<Seq<char>>
    decreases s.len(),
    via words_decreases
{
    let t = trim_start(s);
    if t.len() == 0 {
        Seq::empty()
    } else {
        seq![t.take(word_len(t))] + words(t.skip(word_len(t)))
    }
}

#[via_fn]
proof fn words_decreases(s: Seq<char>) {
    lemma_trim_start_len(s);
    lemma_word_len(trim_start(s));
}

/// The texts of `parts` with `sep` between them.
pub open spec fn join(parts: Seq<Seq<char>>, sep: Seq<char>) -> Seq<char>
    decreases parts.len(),
{
    if parts.len() == 0 {
        Seq::empty()
    } else if parts.len() == 1 {
        parts[0]
    } else {
        join(parts.drop_last(), sep) + sep + parts.last()
    }
}

/// The first of joined parts stands before the separator and the others.
pub proof fn lemma_join_front(ls: Seq<Seq<char>>, sep: Seq<char>)
    requires
        ls.len() > 1,
    ensures
        join(ls, sep) == ls[0] + sep + join(ls.skip(1), sep),
    decreases ls.len(),
{
    if ls.len() == 2 {
        assert(ls.drop_last() =~= seq![ls[0]]);
        assert(ls.skip(1) =~= seq![ls[1]]);
        assert(join(ls.drop_last(), sep) == ls[0]);
        assert(join(ls.skip(1), sep) == ls[1]);
    } else {
        lemma_join_front(ls.drop_last(), sep);
        assert(ls.drop_last().skip(1) =~= ls.skip(1).drop_last());
        assert(ls.skip(1).last() == ls.last());
        let mid = join(ls.skip(1).drop_last(), sep);
        assert((ls[0] + sep + mid) + sep + ls.last() =~= ls[0] + sep + (mid + sep + ls.last()));
    }
}

/// `s` with every occurrence of `p`, found from left to right and not overlapping,
/// replaced by `r`. An empty `p` replaces nothing.
pub open spec fn replace(s: Seq<char>, p: Seq<char>, r: Seq<char>) -> Seq<char>
    decreases s.len(),
    via replace_decreases
{
    if p.len() == 0 {
        s
    } else {
        match find(s, p) {
            None => s,
            Some(k) => s.take(k) + r + replace(s.skip(k + p.len()), p, r),
        }
    }
}

#[via_fn]
proof fn replace_decreases(s: Seq<char>, p: Seq<char>, r: Seq<char>) {
    lemma_find_bounds(s, p, 0);
}

/// The number of occurrences of `p` in `s`, found from left to right and not overlapping.
pub open spec fn count(s: Seq<char>, p: Seq<char>) -> nat
    decreases s.len(),
    via count_decreases
{
    if p.len() == 0 {
        0
    } else {
        match find(s, p) {
            None => 0,
            Some(k) => 1 + count(s.skip(k + p.len()), p),
        }
    }
}

#[via_fn]
proof fn count_decreases(s: Seq<char>, p: Seq<char>) {
    lemma_find_bounds(s, p, 0);
}

/// The number of positions of `s` that hold `c`.
pub open spec fn count_char(s: Seq<char>, c: char) -> nat
    decreases s.len(),
{
    if s.len() == 0 {
        0
    } else {
        count_char(s.drop_last(), c) + if s.last() == c {
            1nat
        } else {
            0nat
        }
    }
}

/// The number of bytes of a text in UTF-8.
pub open spec fn byte_len(s: Seq<char>) -> nat
    decreases s.len(),
{
    if s.len() == 0 {
        0
    } else {
        byte_len(s.drop_last()) + chars::utf8_width(s.last())
    }
}

/// `c` repeated `n` times.
pub open spec fn repeat(s: Seq<char>, n: nat) -> Seq<char>
    decreases n,
{
    if n == 0 {
        Seq::empty()
    } else {
        repeat(s, (n - 1) as nat) + s
    }
}

// ---------------------------------------------------------------------------
// Conversions
// ---------------------------------------------------------------------------

/// The characters of a string.
pub fn chars_of(s: &str) -> (r: Vec<char>)
    ensures
        r@ == s@,
{
    let mut out: Vec<char> = Vec::new();
    for c in it: s.chars()
        invariant
            out@ == it.seq().take(it.index() as int),
            it.seq() == s@,
    {
        out.push(c);
        assert(out@ =~= it.seq().take(it.index() + 1));
    }
    assert(out@ =~= s@);
    out
}

/// The string of a run of characters.
pub fn string_of(s: &[char]) -> (r: String)
    ensures
        r@ == s@,
{
    let mut out = String::new();
    let mut i: usize = 0;
    while i < s.len()
        invariant
            i <= s.len(),
            out@ == s@.take(i as int),
        decreases s.len() - i,
    {
        out.push(s[i]);
        assert(s@.take(i + 1) =~= s@.take(i as int).push(s@[i as int]));
        i = i + 1;
    }
    assert(s@.take(s.len() as int) =~= s@);
    out
}

/// Appends a run of characters to a string.
pub fn append_chars(out: &mut String, s: &[char])
    ensures
        final(out)@ == old(out)@ + s@,
{
    let mut i: usize = 0;
    let ghost before = out@;
    while i < s.len()
        invariant
            i <= s.len(),
            out@ == before + s@.take(i as int),
        decreases s.len() - i,
    {
        out.push(s[i]);
        assert(before + s@.take(i + 1) =~= (before + s@.take(i as int)).push(s@[i as int]));
        i = i + 1;
    }
    assert(s@.take(s.len() as int) =~= s@);
}

/// The string of a literal.
pub fn lit(s: &str) -> (r: String)
    ensures
        r@ == s@,
{
    s.to_owned()
}

/// Appends a string.
pub fn push(out: &mut String, s: &str)
    ensures
        final(out)@ == old(out)@ + s@,
{
    out.append(s);
}

/// The concatenation of two strings.
pub fn cat2(a: &str, b: &str) -> (r: String)
    ensures
        r@ == a@ + b@,
{
    let mut out = lit(a);
    push(&mut out, b);
    out
}

/// The concatenation of three strings.
pub fn cat3(a: &str, b: &str, c: &str) -> (r: String)
    ensures
        r@ == a@ + b@ + c@,
{
    let mut out = lit(a);
    push(&mut out, b);
    push(&mut out, c);
    out
}

/// The concatenation of four strings.
pub fn cat4(a: &str, b: &str, c: &str, d: &str) -> (r: String)
    ensures
        r@ == a@ + b@ + c@ + d@,
{
    let mut out = cat3(a, b, c);
    push(&mut out, d);
    out
}

/// The concatenation of five strings.
pub fn cat5(a: &str, b: &str, c: &str, d: &str, e: &str) -> (r: String)
    ensures
        r@ == a@ + b@ + c@ + d@ + e@,
{
    let mut out = cat4(a, b, c, d);
    push(&mut out, e);
    out
}

// ---------------------------------------------------------------------------
// Comparison and search
// ---------------------------------------------------------------------------

/// Whether two runs of characters are the same text.
pub fn same(a: &[char], b: &[char]) -> (r: bool)
    ensures
        r == (a@ == b@),
{
    if a.len() != b.len() {
        return false;
    }
    let mut i: usize = 0;
    while i < a.len()
        invariant
            a@.len() == b@.len(),
            i <= a.len(),
            forall|j: int| 0 <= j < i ==> a@[j] == b@[j],
        decreases a.len() - i,
    {
        if a[i] != b[i] {
            return false;
        }
        i = i + 1;
    }
    assert(a@ =~= b@);
    true
}

/// Whether a run of characters is the text `s`.
pub fn is_lit(a: &[char], s: &str) -> (r: bool)
    ensures
        r == (a@ == s@),
{
    let b = chars_of(s);
    same(a, b.as_slice())
}

/// Whether two strings are the same text.
pub fn same_str(a: &str, b: &str) -> (r: bool)
    ensures
        r == (a@ == b@),
{
    let x = chars_of(a);
    is_lit(x.as_slice(), b)
}

/// Whether the text `p` stands in `s` at position `i`.
pub fn stands_at(s: &[char], i: usize, p: &[char]) -> (r: bool)
    ensures
        r == matches_at(s@, i as int, p@),
{
    if i > s.len() || p.len() > s.len() - i {
        return false;
    }
    let n: usize = s.len();
    let mut j: usize = 0;
    while j < p.len()
        invariant
            n == s@.len(),
            i + p@.len() <= n,
            j <= p.len(),
            forall|k: int| 0 <= k < j ==> s@[i + k] == p@[k],
        decreases p.len() - j,
    {
        if s[i + j] != p[j] {
            proof {
                assert(s@.subrange(i as int, i + p@.len())[j as int] == s@[i + j]);
            }
            return false;
        }
        j = j + 1;
    }
    assert(s@.subrange(i as int, i + p@.len()) =~= p@);
    true
}

/// Whether `s` begins with `p`.
pub fn begins(s: &[char], p: &str) -> (r: bool)
    ensures
        r == starts_with(s@, p@),
{
    let q = chars_of(p);
    stands_at(s, 0, q.as_slice())
}

/// Whether `s` ends with `p`.
pub fn ends(s: &[char], p: &str) -> (r: bool)
    ensures
        r == ends_with(s@, p@),
{
    let q = chars_of(p);
    if q.len() > s.len() {
        return false;
    }
    stands_at(s, s.len() - q.len(), q.as_slice())
}

/// The first position at which `p` stands in `s`.
pub fn find_text(s: &[char], p: &[char]) -> (r: Option<usize>)
    ensures
        match r {
            Some(k) => find(s@, p@) == Some(k as int) && k + p@.len() <= s@.len(),
            None => find(s@, p@) is None,
        },
{
    if p.len() > s.len() {
        return None;
    }
    let mut i: usize = 0;
    while i <= s.len() - p.len()
        invariant
            p@.len() <= s@.len(),
            i <= s@.len() - p@.len() + 1,
            find(s@, p@) == find_from(s@, p@, i as int),
        decreases s.len() + 1 - i,
    {
        if stands_at(s, i, p) {
            return Some(i);
        }
        if i == s.len() - p.len() {
            assert(find_from(s@, p@, i + 1) is None);
            return None;
        }
        i = i + 1;
    }
    None
}

/// Whether `p` stands anywhere in `s`.
pub fn has(s: &[char], p: &str) -> (r: bool)
    ensures
        r == contains(s@, p@),
{
    let q = chars_of(p);
    proof {
        lemma_contains_find(s@, p@);
    }
    find_text(s, q.as_slice()).is_some()
}

/// The first position that holds `c`.
pub fn find_ch(s: &[char], c: char) -> (r: Option<usize>)
    ensures
        match r {
            Some(k) => find_char(s@, c) == Some(k as int) && k < s@.len() && s@[k as int] == c,
            None => find_char(s@, c) is None,
        },
{
    let mut i: usize = 0;
    while i < s.len()
        invariant
            i <= s.len(),
            find_char(s@, c) == find_char_from(s@, c, i as int),
        decreases s.len() - i,
    {
        if s[i] == c {
            return Some(i);
        }
        i = i + 1;
    }
    None
}

/// The last position that holds `c`.
pub fn rfind_ch(s: &[char], c: char) -> (r: Option<usize>)
    ensures
        match r {
            Some(k) => rfind_char(s@, c) == Some(k as int) && k < s@.len(),
            None => rfind_char(s@, c) is None,
        },
{
    let mut i: usize = s.len();
    while i > 0
        invariant
            i <= s.len(),
            rfind_char(s@, c) == rfind_char_before(s@, c, i as int),
        decreases i,
    {
        if s[i - 1] == c {
            return Some(i - 1);
        }
        i = i - 1;
    }
    None
}

/// Whether `s` holds the character `c`.
pub fn has_ch(s: &[char], c: char) -> (r: bool)
    ensures
        r == s@.contains(c),
{
    proof {
        lemma_find_char_bounds(s@, c, 0);
    }
    find_ch(s, c).is_some()
}

// ---------------------------------------------------------------------------
// Parts of a text
// ---------------------------------------------------------------------------

/// The characters of `s` from `a` up to `b`.
pub fn part(s: &[char], a: usize, b: usize) -> (r: &[char])
    requires
        a <= b <= s@.len(),
    ensures
        r@ == s@.subrange(a as int, b as int),
{
    vstd::slice::slice_subrange(s, a, b)
}

/// The characters of `s` from `a` on.
pub fn from(s: &[char], a: usize) -> (r: &[char])
    requires
        a <= s@.len(),
    ensures
        r@ == s@.skip(a as int),
{
    let r = vstd::slice::slice_subrange(s, a, s.len());
    assert(r@ =~= s@.skip(a as int));
    r
}

/// The first `b` characters of `s`.
pub fn upto(s: &[char], b: usize) -> (r: &[char])
    requires
        b <= s@.len(),
    ensures
        r@ == s@.take(b as int),
{
    let r = vstd::slice::slice_subrange(s, 0, b);
    assert(r@ =~= s@.take(b as int));
    r
}

/// `s` without leading white space.
pub fn trimmed_start(s: &[char]) -> (r: &[char])
    ensures
        r@ == trim_start(s@),
{
    let mut i: usize = 0;
    assert(s@.skip(0) =~= s@);
    while i < s.len() && chars::space(s[i])
        invariant
            i <= s.len(),
            trim_start(s@) == trim_start(s@.skip(i as int)),
        decreases s.len() - i,
    {
        assert(s@.skip(i as int).skip(1) =~= s@.skip(i + 1));
        i = i + 1;
    }
    from(s, i)
}

/// `s` without trailing white space.
pub fn trimmed_end(s: &[char]) -> (r: &[char])
    ensures
        r@ == trim_end(s@),
{
    let mut i: usize = s.len();
    assert(s@.take(i as int) =~= s@);
    while i > 0 && chars::space(s[i - 1])
        invariant
            i <= s.len(),
            trim_end(s@) == trim_end(s@.take(i as int)),
        decreases i,
    {
        assert(s@.take(i as int).drop_last() =~= s@.take(i - 1));
        i = i - 1;
    }
    upto(s, i)
}

/// `s` without white space at either end.
pub fn trimmed(s: &[char]) -> (r: &[char])
    ensures
        r@ == trim(s@),
{
    trimmed_end(trimmed_start(s))
}

/// `s` without the leading occurrences of `c`.
pub fn trimmed_start_char(s: &[char], c: char) -> (r: &[char])
    ensures
        r@ == trim_start_char(s@, c),
{
    let mut i: usize = 0;
    assert(s@.skip(0) =~= s@);
    while i < s.len() && s[i] == c
        invariant
            i <= s.len(),
            trim_start_char(s@, c) == trim_start_char(s@.skip(i as int), c),
        decreases s.len() - i,
    {
        assert(s@.skip(i as int).skip(1) =~= s@.skip(i + 1));
        i = i + 1;
    }
    from(s, i)
}

/// `s` without the trailing occurrences of `c`.
pub fn trimmed_end_char(s: &[char], c: char) -> (r: &[char])
    ensures
        r@ == trim_end_char(s@, c),
{
    let mut i: usize = s.len();
    assert(s@.take(i as int) =~= s@);
    while i > 0 && s[i - 1] == c
        invariant
            i <= s.len(),
            trim_end_char(s@, c) == trim_end_char(s@.take(i as int), c),
        decreases i,
    {
        assert(s@.take(i as int).drop_last() =~= s@.take(i - 1));
        i = i - 1;
    }
    upto(s, i)
}

/// `s` without one carriage return at its end.
pub fn without_cr(s: &[char]) -> (r: &[char])
    ensures
        r@ == strip_cr(s@),
{
    if s.len() > 0 && s[s.len() - 1] == '\r' {
        let r = upto(s, s.len() - 1);
        assert(r@ =~= s@.drop_last());
        r
    } else {
        s
    }
}

/// The first line of a non-empty text and what follows its ending.
pub fn first_line(s: &[char]) -> (r: (&[char], &[char]))
    requires
        s@.len() > 0,
    ensures
        lines(s@) == seq![r.0@] + lines(r.1@),
        r.1@.len() < s@.len(),
        r.0@.len() + r.1@.len() <= s@.len(),
{
    let n: usize = s.len();
    match find_ch(s, '\n') {
        None => {
            let rest = from(s, n);
            assert(lines(rest@) =~= Seq::<Seq<char>>::empty());
            assert(seq![s@] =~= seq![s@] + lines(rest@));
            (s, rest)
        },
        Some(k) => (without_cr(upto(s, k)), from(s, k + 1)),
    }
}

/// The lines of a text.
pub fn lines_of(s: &[char]) -> (r: Vec<&[char]>)
    ensures
        slices(r@) == lines(s@),
{
    broadcast use lemma_slices_push;

    let mut out: Vec<&[char]> = Vec::new();
    let mut rest: &[char] = s;
    assert(slices(out@) + lines(rest@) =~= lines(s@));
    while rest.len() > 0
        invariant
            slices(out@) + lines(rest@) == lines(s@),
        decreases rest.len(),
    {
        let (line, tail) = first_line(rest);
        assert(slices(out@) + (seq![line@] + lines(tail@)) =~= slices(out@).push(line@) + lines(
            tail@,
        ));
        out.push(line);
        rest = tail;
    }
    assert(slices(out@) + lines(rest@) =~= slices(out@));
    out
}

/// The pieces of a text between the occurrences of `c`.
pub fn split_on(s: &[char], c: char) -> (r: Vec<&[char]>)
    ensures
        slices(r@) == split(s@, c),
        r@.len() > 0,
{
    broadcast use lemma_slices_push;

    let mut out: Vec<&[char]> = Vec::new();
    let mut rest: &[char] = s;
    assert(slices(out@) + split(rest@, c) =~= split(s@, c));
    loop
        invariant
            slices(out@) + split(rest@, c) == split(s@, c),
        decreases rest.len(),
    {
        match find_ch(rest, c) {
            None => {
                assert(slices(out@) + split(rest@, c) =~= slices(out@).push(rest@));
                out.push(rest);
                return out;
            },
            Some(k) => {
                let piece = upto(rest, k);
                let tail = from(rest, k + 1);
                assert(slices(out@) + (seq![piece@] + split(tail@, c)) =~= slices(out@).push(piece@)
                    + split(tail@, c));
                out.push(piece);
                rest = tail;
            },
        }
    }
}

/// The length of the run of characters other than white space at the start of `s`.
pub fn word_length(s: &[char]) -> (r: usize)
    ensures
        r == word_len(s@),
        r <= s@.len(),
{
    let mut i: usize = 0;
    assert(s@.skip(0) =~= s@);
    while i < s.len() && !chars::space(s[i])
        invariant
            i <= s.len(),
            word_len(s@) == i + word_len(s@.skip(i as int)),
        decreases s.len() - i,
    {
        assert(s@.skip(i as int).skip(1) =~= s@.skip(i + 1));
        i = i + 1;
    }
    i
}

/// The maximal runs of characters other than white space.
pub fn words_of(s: &[char]) -> (r: Vec<&[char]>)
    ensures
        slices(r@) == words(s@),
{
    broadcast use lemma_slices_push;

    let mut out: Vec<&[char]> = Vec::new();
    let mut rest: &[char] = s;
    assert(slices(out@) + words(rest@) =~= words(s@));
    loop
        invariant
            slices(out@) + words(rest@) == words(s@),
        decreases rest.len(),
    {
        proof {
            lemma_trim_start_len(rest@);
            lemma_word_len(trim_start(rest@));
        }
        let t = trimmed_start(rest);
        if t.len() == 0 {
            assert(slices(out@) + words(rest@) =~= slices(out@));
            return out;
        }
        let n = word_length(t);
        let word = upto(t, n);
        let tail = from(t, n);
        assert(slices(out@) + (seq![word@] + words(tail@)) =~= slices(out@).push(word@) + words(
            tail@,
        ));
        out.push(word);
        rest = tail;
    }
}

/// The strings of `parts` with `sep` between them.
pub fn joined(parts: &Vec<String>, sep: &str) -> (r: String)
    ensures
        r@ == join(texts(parts@), sep@),
{
    let mut out = String::new();
    let mut i: usize = 0;
    let ghost all = texts(parts@);
    while i < parts.len()
        invariant
            i <= parts.len(),
            all == texts(parts@),
            out@ == join(all.take(i as int), sep@),
        decreases parts.len() - i,
    {
        assert(all.take(i + 1).drop_last() =~= all.take(i as int));
        assert(all.take(i + 1).last() == parts@[i as int]@);
        if i > 0 {
            push(&mut out, sep);
        } else {
            assert(out@ + parts@[0]@ =~= parts@[0]@);
        }
        push(&mut out, parts[i].as_str());
        i = i + 1;
    }
    assert(all.take(parts.len() as int) =~= all);
    out
}

/// The slices of `parts` with `sep` between them.
pub fn joined_slices(parts: &Vec<&[char]>, sep: &str) -> (r: String)
    ensures
        r@ == join(slices(parts@), sep@),
{
    let mut out = String::new();
    let mut i: usize = 0;
    let ghost all = slices(parts@);
    while i < parts.len()
        invariant
            i <= parts.len(),
            all == slices(parts@),
            out@ == join(all.take(i as int), sep@),
        decreases parts.len() - i,
    {
        assert(all.take(i + 1).drop_last() =~= all.take(i as int));
        assert(all.take(i + 1).last() == parts@[i as int]@);
        if i > 0 {
            push(&mut out, sep);
        } else {
            assert(out@ + parts@[0]@ =~= parts@[0]@);
        }
        append_chars(&mut out, parts[i]);
        i = i + 1;
    }
    assert(all.take(parts.len() as int) =~= all);
    out
}

/// `s` with every occurrence of `p` replaced by `r`.
pub fn replaced(s: &[char], p: &str, r: &str) -> (out: String)
    ensures
        out@ == replace(s@, p@, r@),
{
    let q = chars_of(p);
    if q.len() == 0 {
        return string_of(s);
    }
    let mut out = String::new();
    let mut rest: &[char] = s;
    assert(out@ + replace(rest@, p@, r@) =~= replace(s@, p@, r@));
    loop
        invariant
            q@ == p@,
            p@.len() > 0,
            out@ + replace(rest@, p@, r@) == replace(s@, p@, r@),
        decreases rest.len(),
    {
        match find_text(rest, q.as_slice()) {
            None => {
                append_chars(&mut out, rest);
                return out;
            },
            Some(k) => {
                let ghost before = out@;
                append_chars(&mut out, upto(rest, k));
                push(&mut out, r);
                let tail = from(rest, k + q.len());
                assert(before + (rest@.take(k as int) + r@ + replace(tail@, p@, r@)) =~= out@
                    + replace(tail@, p@, r@));
                rest = tail;
            },
        }
    }
}

/// The number of occurrences of `p` in `s` that do not overlap.
pub fn count_of(s: &[char], p: &str) -> (n: usize)
    requires
        p@.len() > 0,
    ensures
        n == count(s@, p@),
        n * p@.len() <= s@.len(),
{
    let q = chars_of(p);
    let total: usize = s.len();
    let mut n: usize = 0;
    let mut rest: &[char] = s;
    loop
        invariant
            total == s@.len(),
            q@ == p@,
            p@.len() > 0,
            n + count(rest@, p@) == count(s@, p@),
            n * p@.len() + rest@.len() <= s@.len(),
            n + rest@.len() <= s@.len(),
        decreases rest.len(),
    {
        match find_text(rest, q.as_slice()) {
            None => {
                return n;
            },
            Some(k) => {
                let tail = from(rest, k + q.len());
                assert((n + 1) * p@.len() == n * p@.len() + p@.len()) by (nonlinear_arith);
                n = n + 1;
                rest = tail;
            },
        }
    }
}

/// The number of positions of `s` that hold `c`.
pub fn count_ch(s: &[char], c: char) -> (n: usize)
    ensures
        n == count_char(s@, c),
        n <= s@.len(),
{
    let mut n: usize = 0;
    let mut i: usize = 0;
    while i < s.len()
        invariant
            i <= s.len(),
            n <= i,
            n == count_char(s@.take(i as int), c),
        decreases s.len() - i,
    {
        assert(s@.take(i + 1).drop_last() =~= s@.take(i as int));
        if s[i] == c {
            n = n + 1;
        }
        i = i + 1;
    }
    assert(s@.take(s.len() as int) =~= s@);
    n
}

/// `s` repeated `n` times.
pub fn repeated(s: &str, n: u128) -> (r: String)
    ensures
        r@ == repeat(s@, n as nat),
{
    let mut out = String::new();
    let mut i: u128 = 0;
    while i < n
        invariant
            i <= n,
            out@ == repeat(s@, i as nat),
        decreases n - i,
    {
        push(&mut out, s);
        i = i + 1;
    }
    out
}

/// Whether `x` is one of the strings of `v`.
pub fn listed(v: &Vec<String>, x: &str) -> (r: bool)
    ensures
        r == texts(v@).contains(x@),
{
    let mut i: usize = 0;
    while i < v.len()
        invariant
            i <= v.len(),
            forall|j: int| 0 <= j < i ==> v@[j]@ != x@,
        decreases v.len() - i,
    {
        if same_str(v[i].as_str(), x) {
            assert(texts(v@)[i as int] == x@);
            return true;
        }
        i = i + 1;
    }
    assert forall|j: int| 0 <= j < texts(v@).len() implies texts(v@)[j] != x@ by {
        assert(v@[j]@ != x@);
    }
    false
}

} // verus!
