//! Positions in a text: characters, bytes and lines.

use vstd::prelude::*;

use crate::chars;
use crate::text;

verus! {

/// The number of the line behind `newlines` line feeds, counted from 1. Numbers stop
/// at the largest one that a size can hold.
pub open spec fn line_number(newlines: nat) -> int {
    if newlines < usize::MAX {
        newlines as int + 1
    } else {
        usize::MAX as int
    }
}

/// The number of characters of `s` that begin before byte `b`.
pub open spec fn chars_before(s: Seq<char>, b: int) -> int
    decreases s.len(),
{
    if s.len() == 0 || b <= 0 {
        0
    } else {
        1 + chars_before(s.skip(1), b - chars::utf8_width(s[0]))
    }
}

/// The line of the character at position `i`.
pub open spec fn line_at(s: Seq<char>, i: int) -> int {
    let n = if i <= s.len() {
        i
    } else {
        s.len() as int
    };
    line_number(text::count_char(s.take(n), '\n'))
}

/// The line of byte `b`.
pub open spec fn line_at_byte(s: Seq<char>, b: int) -> int {
    line_number(text::count_char(s.take(chars_before(s, b)), '\n'))
}

/// The byte at which the character at position `i` begins.
pub open spec fn byte_at(s: Seq<char>, i: int) -> int {
    text::byte_len(s.take(i)) as int
}

pub proof fn lemma_byte_len_first(s: Seq<char>)
    requires
        s.len() > 0,
    ensures
        text::byte_len(s) == chars::utf8_width(s[0]) + text::byte_len(s.skip(1)),
    decreases s.len(),
{
    if s.len() == 1 {
        assert(s.drop_last() =~= Seq::<char>::empty());
        assert(s.skip(1) =~= Seq::<char>::empty());
    } else {
        lemma_byte_len_first(s.drop_last());
        assert(s.drop_last().skip(1) =~= s.skip(1).drop_last());
    }
}

pub proof fn lemma_byte_len_join(a: Seq<char>, b: Seq<char>)
    ensures
        text::byte_len(a + b) == text::byte_len(a) + text::byte_len(b),
    decreases b.len(),
{
    if b.len() == 0 {
        assert(a + b =~= a);
    } else {
        assert((a + b).drop_last() =~= a + b.drop_last());
        lemma_byte_len_join(a, b.drop_last());
    }
}

proof fn lemma_encoded_width(c: char)
    ensures
        vstd::utf8::encode_scalar(c as u32).len() == chars::utf8_width(c),
{
    vstd::utf8::char_is_scalar(c);
}

proof fn lemma_encoded_len(s: Seq<char>)
    ensures
        vstd::utf8::encode_utf8(s).len() == text::byte_len(s),
    decreases s.len(),
{
    if s.len() > 0 {
        lemma_encoded_len(s.drop_first());
        lemma_byte_len_first(s);
        assert(s.drop_first() =~= s.skip(1));
        lemma_encoded_width(s[0]);
    }
}

/// The byte at which a character begins has exactly the characters before it.
pub proof fn law_byte_of_char(s: Seq<char>, i: int)
    requires
        0 <= i <= s.len(),
    ensures
        chars_before(s, byte_at(s, i)) == i,
    decreases i,
{
    if i > 0 {
        lemma_byte_len_first(s.take(i));
        assert(s.take(i).skip(1) =~= s.skip(1).take(i - 1));
        law_byte_of_char(s.skip(1), i - 1);
    }
}

/// The line of a character is the line of the byte at which it begins.
pub proof fn law_lines_agree(s: Seq<char>, i: int)
    requires
        0 <= i <= s.len(),
    ensures
        line_at_byte(s, byte_at(s, i)) == line_at(s, i),
{
    law_byte_of_char(s, i);
}

/// The number of bytes of a text in UTF-8.
pub fn byte_length(s: &[char]) -> (r: u128)
    ensures
        r == text::byte_len(s@),
        r <= 4 * s@.len(),
{
    let mut n: u128 = 0;
    let mut i: usize = 0;
    let len: usize = s.len();
    while i < len
        invariant
            len == s@.len(),
            i <= len,
            n == text::byte_len(s@.take(i as int)),
            n <= 4 * i,
        decreases len - i,
    {
        assert(s@.take(i + 1).drop_last() =~= s@.take(i as int));
        n = n + chars::width(s[i]) as u128;
        i = i + 1;
    }
    assert(s@.take(len as int) =~= s@);
    n
}

/// The number of bytes of a string.
pub fn string_length(s: &str) -> (r: usize)
    ensures
        r == text::byte_len(s@),
{
    proof {
        lemma_encoded_len(s@);
    }
    s.as_bytes().len()
}

/// The byte at which each character of a string begins, and behind them the number of
/// its bytes.
pub fn byte_offsets(source: &str) -> (r: Vec<usize>)
    ensures
        r@.len() == source@.len() + 1,
        forall|i: int| 0 <= i <= source@.len() ==> #[trigger] r@[i] == byte_at(source@, i),
{
    let s = text::chars_of(source);
    let total = string_length(source);
    let mut out: Vec<usize> = Vec::new();
    let mut n: usize = 0;
    out.push(0);
    assert(source@.take(0) =~= Seq::<char>::empty());
    let mut i: usize = 0;
    while i < s.len()
        invariant
            i <= s@.len(),
            s@ == source@,
            total == text::byte_len(source@),
            n == byte_at(source@, i as int),
            out@.len() == i + 1,
            forall|k: int| 0 <= k <= i ==> #[trigger] out@[k] == byte_at(source@, k),
        decreases s@.len() - i,
    {
        proof {
            assert(source@.take(i + 1).drop_last() =~= source@.take(i as int));
            lemma_byte_len_join(source@.take(i + 1), source@.skip(i + 1));
            assert(source@.take(i + 1) + source@.skip(i + 1) =~= source@);
        }
        n = n + chars::width(s[i]);
        out.push(n);
        i = i + 1;
    }
    out
}

/// The number of characters of `s` that begin before byte `b`.
pub fn count_before(s: &[char], b: u128) -> (r: usize)
    ensures
        r == chars_before(s@, b as int),
        r <= s@.len(),
{
    let len: usize = s.len();
    let mut left: u128 = b;
    let mut i: usize = 0;
    assert(s@.skip(0) =~= s@);
    while i < len && left > 0
        invariant
            len == s@.len(),
            i <= len,
            chars_before(s@, b as int) == i + chars_before(s@.skip(i as int), left as int),
        decreases len - i,
    {
        assert(s@.skip(i as int).skip(1) =~= s@.skip(i + 1));
        let w: u128 = chars::width(s[i]) as u128;
        if w >= left {
            assert(chars_before(s@.skip(i + 1), left - w) == 0);
            return i + 1;
        }
        left = left - w;
        i = i + 1;
    }
    i
}

/// The number of the line behind `newlines` line feeds.
fn numbered(newlines: usize) -> (r: usize)
    ensures
        r == line_number(newlines as nat),
{
    if newlines < usize::MAX {
        newlines + 1
    } else {
        newlines
    }
}

/// The line of byte `b`.
pub fn line_of_byte(s: &[char], b: u128) -> (r: usize)
    ensures
        r == line_at_byte(s@, b as int),
{
    let n = count_before(s, b);
    numbered(text::count_ch(text::upto(s, n), '\n'))
}

} // verus!
