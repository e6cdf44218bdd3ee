//! Numbers in decimal notation.

use vstd::prelude::*;

use crate::chars;
use crate::text::{self, chars_of};

verus! {

/// The character of a decimal digit.
pub open spec fn digit_char(d: nat) -> char {
    if d == 0 {
        '0'
    } else if d == 1 {
        '1'
    } else if d == 2 {
        '2'
    } else if d == 3 {
        '3'
    } else if d == 4 {
        '4'
    } else if d == 5 {
        '5'
    } else if d == 6 {
        '6'
    } else if d == 7 {
        '7'
    } else if d == 8 {
        '8'
    } else {
        '9'
    }
}

/// A number in decimal notation.
pub open spec fn decimal(n: nat) -> Seq<char>
    decreases n,
{
    if n < 10 {
        seq![digit_char(n)]
    } else {
        decimal(n / 10).push(digit_char(n % 10))
    }
}

/// Whether every character of a text is a decimal digit.
pub open spec fn all_digits(s: Seq<char>) -> bool {
    forall|i: int| 0 <= i < s.len() ==> chars::is_digit(#[trigger] s[i])
}

/// The number that a row of decimal digits stands for.
pub open spec fn value(s: Seq<char>) -> nat
    decreases s.len(),
{
    if s.len() == 0 {
        0
    } else {
        value(s.drop_last()) * 10 + ((s.last() as int - '0' as int) as nat)
    }
}

/// The number up to `max` that a text stands for: decimal digits, which a plus sign may
/// precede.
pub open spec fn parsed(s: Seq<char>, max: int) -> Option<nat> {
    let d = if s.len() > 0 && s[0] == '+' {
        s.skip(1)
    } else {
        s
    };
    if d.len() > 0 && all_digits(d) && value(d) <= max {
        Some(value(d))
    } else {
        None
    }
}

/// Reading the decimal notation of a number gives the number back.
pub proof fn law_value_of_decimal(n: nat)
    ensures
        value(decimal(n)) == n,
        all_digits(decimal(n)),
        decimal(n).len() > 0,
    decreases n,
{
    if n < 10 {
        assert(decimal(n).drop_last() =~= Seq::<char>::empty());
        assert(value(Seq::<char>::empty()) == 0);
    } else {
        law_value_of_decimal(n / 10);
        assert(decimal(n).drop_last() =~= decimal(n / 10));
        assert forall|i: int| 0 <= i < decimal(n).len() implies chars::is_digit(
            #[trigger] decimal(n)[i],
        ) by {
            if i < decimal(n).len() - 1 {
                assert(decimal(n)[i] == decimal(n / 10)[i]);
            }
        }
    }
}

/// The decimal notation of a number within the bound is parsed to that number.
pub proof fn law_parse_decimal(n: nat, max: int)
    requires
        n <= max,
    ensures
        parsed(decimal(n), max) == Some(n),
{
    law_value_of_decimal(n);
    assert(chars::is_digit(decimal(n)[0]));
}

/// The character of a decimal digit.
fn digit_of(d: u64) -> (c: char)
    requires
        d < 10,
    ensures
        c == digit_char(d as nat),
{
    if d == 0 {
        '0'
    } else if d == 1 {
        '1'
    } else if d == 2 {
        '2'
    } else if d == 3 {
        '3'
    } else if d == 4 {
        '4'
    } else if d == 5 {
        '5'
    } else if d == 6 {
        '6'
    } else if d == 7 {
        '7'
    } else if d == 8 {
        '8'
    } else {
        '9'
    }
}

/// A number in decimal notation.
pub fn show(n: u64) -> (r: String)
    ensures
        r@ == decimal(n as nat),
    decreases n,
{
    if n < 10 {
        let mut out = String::new();
        out.push(digit_of(n));
        assert(out@ =~= seq![digit_char(n as nat)]);
        out
    } else {
        let mut out = show(n / 10);
        out.push(digit_of(n % 10));
        out
    }
}

/// A size in decimal notation.
pub fn show_size(n: usize) -> (r: String)
    ensures
        r@ == decimal(n as nat),
{
    show(n as u64)
}

/// The value of a digit.
fn digit_value(c: char) -> (d: u64)
    requires
        chars::is_digit(c),
    ensures
        d == c as int - '0' as int,
        d < 10,
{
    (c as u64) - ('0' as u64)
}

proof fn lemma_value_prefix(s: Seq<char>, i: int)
    requires
        all_digits(s),
        0 <= i <= s.len(),
    ensures
        value(s.take(i)) <= value(s),
    decreases s.len() - i,
{
    if i < s.len() {
        let t = s.take(i + 1);
        assert(t.drop_last() =~= s.take(i));
        assert(chars::is_digit(s[i]));
        lemma_value_prefix(s, i + 1);
    } else {
        assert(s.take(i) =~= s);
    }
}

/// The number up to `max` that a row of digits stands for.
fn read_digits(s: &[char], max: u64) -> (r: Option<u64>)
    ensures
        match r {
            Some(n) => s@.len() > 0 && all_digits(s@) && value(s@) == n && n <= max,
            None => !(s@.len() > 0 && all_digits(s@) && value(s@) <= max),
        },
{
    if s.len() == 0 {
        return None;
    }
    let mut n: u64 = 0;
    let mut i: usize = 0;
    assert(s@.take(0) =~= Seq::<char>::empty());
    while i < s.len()
        invariant
            i <= s@.len(),
            all_digits(s@.take(i as int)),
            n == value(s@.take(i as int)),
            n <= max,
        decreases s@.len() - i,
    {
        let c = s[i];
        if !chars::digit(c) {
            return None;
        }
        let ghost t = s@.take(i + 1);
        assert(t.drop_last() =~= s@.take(i as int));
        assert(t.last() == c);
        let d = digit_value(c);
        assert(value(t) == n * 10 + d);
        if d > max || n > (max - d) / 10 {
            proof {
                if all_digits(s@) {
                    lemma_value_prefix(s@, i + 1);
                }
            }
            return None;
        }
        n = n * 10 + d;
        i = i + 1;
    }
    assert(s@.take(s@.len() as int) =~= s@);
    Some(n)
}

/// The number up to `max` that a text stands for: decimal digits, which a plus sign may
/// precede.
pub fn parse_upto(s: &[char], max: u64) -> (r: Option<u64>)
    ensures
        match r {
            Some(n) => parsed(s@, max as int) == Some(n as nat),
            None => parsed(s@, max as int) is None,
        },
{
    if s.len() > 0 && s[0] == '+' {
        read_digits(text::from(s, 1), max)
    } else {
        read_digits(s, max)
    }
}

/// The 64-bit number that a text stands for.
pub fn parse_u64(s: &str) -> (r: Option<u64>)
    ensures
        match r {
            Some(n) => parsed(s@, u64::MAX as int) == Some(n as nat),
            None => parsed(s@, u64::MAX as int) is None,
        },
{
    let c = chars_of(s);
    parse_upto(c.as_slice(), u64::MAX)
}

/// The hexadecimal digit of a number below 16.
pub open spec fn hex_char(d: nat) -> char {
    if d < 10 {
        digit_char(d)
    } else if d == 10 {
        'a'
    } else if d == 11 {
        'b'
    } else if d == 12 {
        'c'
    } else if d == 13 {
        'd'
    } else if d == 14 {
        'e'
    } else {
        'f'
    }
}

/// The last `width` hexadecimal digits of a number.
pub open spec fn hex(n: nat, width: nat) -> Seq<char>
    decreases width,
{
    if width == 0 {
        Seq::empty()
    } else {
        hex(n / 16, (width - 1) as nat).push(hex_char(n % 16))
    }
}

fn hex_of(d: u64) -> (c: char)
    requires
        d < 16,
    ensures
        c == hex_char(d as nat),
{
    if d < 10 {
        digit_of(d)
    } else if d == 10 {
        'a'
    } else if d == 11 {
        'b'
    } else if d == 12 {
        'c'
    } else if d == 13 {
        'd'
    } else if d == 14 {
        'e'
    } else {
        'f'
    }
}

fn hex_digits(n: u64, width: u8) -> (r: String)
    ensures
        r@ == hex(n as nat, width as nat),
    decreases width,
{
    if width == 0 {
        return String::new();
    }
    let mut out = hex_digits(n / 16, width - 1);
    out.push(hex_of(n % 16));
    out
}

/// A number in sixteen hexadecimal digits.
pub fn show_hex(n: u64) -> (r: String)
    ensures
        r@ == hex(n as nat, 16),
{
    hex_digits(n, 16)
}

} // verus!
