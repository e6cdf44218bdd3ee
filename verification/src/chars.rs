//! Character classes.

use vstd::prelude::*;

verus! {

/// The Unicode `White_Space` property.
pub open spec fn is_space(c: char) -> bool {
    ||| '\u{9}' <= c <= '\u{d}'
    ||| c == ' '
    ||| c == '\u{85}'
    ||| c == '\u{a0}'
    ||| c == '\u{1680}'
    ||| '\u{2000}' <= c <= '\u{200a}'
    ||| c == '\u{2028}'
    ||| c == '\u{2029}'
    ||| c == '\u{202f}'
    ||| c == '\u{205f}'
    ||| c == '\u{3000}'
}

/// An ASCII decimal digit.
pub open spec fn is_digit(c: char) -> bool {
    '0' <= c <= '9'
}

/// An ASCII letter.
pub open spec fn is_ascii_letter(c: char) -> bool {
    'a' <= c <= 'z' || 'A' <= c <= 'Z'
}

/// The ASCII lowercase form of a character; every other character is kept.
pub open spec fn ascii_lower_char(c: char) -> char {
    if 'A' <= c <= 'Z' {
        ((c as u32) + 32) as char
    } else {
        c
    }
}

/// A text in which every ASCII capital is replaced by its small letter.
pub open spec fn ascii_lower(s: Seq<char>) -> Seq<char> {
    Seq::new(s.len(), |i: int| ascii_lower_char(s[i]))
}

/// A letter beyond ASCII in the Latin blocks, up to U+024F.
pub open spec fn is_latin_letter(c: char) -> bool {
    ||| c == '\u{aa}'
    ||| c == '\u{b5}'
    ||| c == '\u{ba}'
    ||| '\u{c0}' <= c <= '\u{24f}' && c != '\u{d7}' && c != '\u{f7}'
}

/// A number beyond ASCII in the Latin blocks.
pub open spec fn is_latin_number(c: char) -> bool {
    ||| c == '\u{b2}'
    ||| c == '\u{b3}'
    ||| c == '\u{b9}'
    ||| '\u{bc}' <= c <= '\u{be}'
}

/// Whether a character is ASCII, Latin-1 or Latin Extended-A, and its small letter one
/// character. That of U+0130 is two.
pub open spec fn is_latin(c: char) -> bool {
    c <= '\u{17f}' && c != '\u{130}'
}

/// Whether every character of a text is one of these.
pub open spec fn all_latin(s: Seq<char>) -> bool {
    forall|i: int| 0 <= i < s.len() ==> is_latin(#[trigger] s[i])
}

/// The small letter of a Latin capital; every other character is kept. Up to U+00DE
/// capitals and small letters stand in two rows, beyond it side by side.
pub open spec fn latin_lower_char(c: char) -> char {
    if 'A' <= c <= 'Z' || ('\u{c0}' <= c <= '\u{de}' && c != '\u{d7}') {
        ((c as u32) + 32) as char
    } else if ('\u{100}' <= c <= '\u{137}' || '\u{14a}' <= c <= '\u{177}') && (c as u32) % 2 == 0 {
        ((c as u32) + 1) as char
    } else if ('\u{139}' <= c <= '\u{148}' || '\u{179}' <= c <= '\u{17e}') && (c as u32) % 2 == 1 {
        ((c as u32) + 1) as char
    } else if c == '\u{178}' {
        '\u{ff}'
    } else {
        c
    }
}

/// A text in which every Latin capital is replaced by its small letter.
pub open spec fn latin_lower(s: Seq<char>) -> Seq<char> {
    Seq::new(s.len(), |i: int| latin_lower_char(s[i]))
}

/// The number of bytes of a character in UTF-8.
pub open spec fn utf8_width(c: char) -> nat {
    if c <= '\u{7f}' {
        1
    } else if c <= '\u{7ff}' {
        2
    } else if c <= '\u{ffff}' {
        3
    } else {
        4
    }
}

/// What `char::is_alphabetic` answers beyond the Latin blocks.
pub uninterp spec fn wide_alphabetic(c: char) -> bool;

/// What `char::is_alphanumeric` answers beyond the Latin blocks.
pub uninterp spec fn wide_alphanumeric(c: char) -> bool;

/// What `str::to_lowercase` makes of a text that is not all Latin.
pub uninterp spec fn wide_lowercase(s: Seq<char>) -> Seq<char>;

/// The Unicode property `Alphabetic`.
pub open spec fn alphabetic(c: char) -> bool {
    if c <= '\u{24f}' {
        is_ascii_letter(c) || is_latin_letter(c)
    } else {
        wide_alphabetic(c)
    }
}

/// A letter or a number.
pub open spec fn alphanumeric(c: char) -> bool {
    if c <= '\u{24f}' {
        is_ascii_letter(c) || is_digit(c) || is_latin_letter(c) || is_latin_number(c)
    } else {
        wide_alphanumeric(c)
    }
}

/// A text in lower case.
pub open spec fn lowercase(s: Seq<char>) -> Seq<char> {
    if all_latin(s) {
        latin_lower(s)
    } else {
        wide_lowercase(s)
    }
}

/// `char::is_alphabetic` tests the Unicode property `Alphabetic`, which the Unicode
/// Character Database lists. Up to U+024F the listed characters are stated; beyond it the
/// answer depends on the character alone.
pub assume_specification[ char::is_alphabetic ](c: char) -> (r: bool)
    ensures
        c <= '\u{24f}' ==> r == (is_ascii_letter(c) || is_latin_letter(c)),
        c > '\u{24f}' ==> r == wide_alphabetic(c),
;

/// `char::is_alphanumeric` tests for `Alphabetic` or one of the numeric categories, which
/// the Unicode Character Database lists. Up to U+024F the listed characters are stated;
/// beyond it the answer depends on the character alone, and every alphabetic character
/// passes.
pub assume_specification[ char::is_alphanumeric ](c: char) -> (r: bool)
    ensures
        c <= '\u{24f}' ==> r == (is_ascii_letter(c) || is_digit(c) || is_latin_letter(c)
            || is_latin_number(c)),
        c > '\u{24f}' ==> r == wide_alphanumeric(c) && (wide_alphabetic(c) ==> r),
;

/// `str::to_lowercase` maps a text to lowercase by the Unicode Character Database. A text
/// of ASCII, Latin-1 and Latin Extended-A is mapped letter by letter, as stated; of any
/// other the result depends on the text alone. It is not said that lowering such a text
/// twice is lowering it once, nor which of its characters stay as they are.
#[verifier::external_body]
pub(crate) fn to_lowercase(s: &str) -> (r: String)
    ensures
        all_latin(s@) ==> r@ == latin_lower(s@),
        !all_latin(s@) ==> r@ == wide_lowercase(s@),
{
    s.to_lowercase()
}

/// The small letter of a Latin character is Latin and its own small letter. Letters and
/// numbers stay such, and every other character is kept.
pub proof fn lemma_latin_lower_char(c: char)
    requires
        is_latin(c),
    ensures
        is_latin(latin_lower_char(c)),
        latin_lower_char(latin_lower_char(c)) == latin_lower_char(c),
        alphanumeric(c) ==> alphanumeric(latin_lower_char(c)),
        !alphanumeric(c) ==> latin_lower_char(c) == c,
        is_space(latin_lower_char(c)) == is_space(c),
{
}

/// Lowering a Latin text twice is lowering it once.
pub proof fn lemma_latin_lower(s: Seq<char>)
    requires
        all_latin(s),
    ensures
        all_latin(latin_lower(s)),
        latin_lower(latin_lower(s)) == latin_lower(s),
{
    let l = latin_lower(s);
    assert forall|i: int| 0 <= i < l.len() implies is_latin(#[trigger] l[i]) && latin_lower_char(
        l[i],
    ) == l[i] by {
        assert(is_latin(s[i]));
        lemma_latin_lower_char(s[i]);
    }
    assert(latin_lower(l) =~= l);
}

/// `String::push` appends one character.
pub assume_specification[ String::push ](s: &mut String, c: char)
    ensures
        final(s)@ == old(s)@.push(c),
;

/// Whether `c` is white space.
pub fn space(c: char) -> (r: bool)
    ensures
        r == is_space(c),
{
    ('\u{9}' <= c && c <= '\u{d}') || c == ' ' || c == '\u{85}' || c == '\u{a0}' || c == '\u{1680}'
        || ('\u{2000}' <= c && c <= '\u{200a}') || c == '\u{2028}' || c == '\u{2029}' || c
        == '\u{202f}' || c == '\u{205f}' || c == '\u{3000}'
}

/// Whether `c` is an ASCII decimal digit.
pub fn digit(c: char) -> (r: bool)
    ensures
        r == is_digit(c),
{
    '0' <= c && c <= '9'
}

/// Whether `c` is an ASCII letter.
pub fn ascii_letter(c: char) -> (r: bool)
    ensures
        r == is_ascii_letter(c),
{
    ('a' <= c && c <= 'z') || ('A' <= c && c <= 'Z')
}

/// The small letter of an ASCII capital; every other character is returned unchanged.
pub fn ascii_small(c: char) -> (r: char)
    ensures
        r == ascii_lower_char(c),
{
    if 'A' <= c && c <= 'Z' {
        ((c as u8) + 32) as char
    } else {
        c
    }
}

/// The number of bytes that `c` takes in UTF-8.
pub fn width(c: char) -> (r: usize)
    ensures
        r == utf8_width(c),
        1 <= r <= 4,
{
    if c <= '\u{7f}' {
        1
    } else if c <= '\u{7ff}' {
        2
    } else if c <= '\u{ffff}' {
        3
    } else {
        4
    }
}

} // verus!
