//! Sizes of files for the reader.
//!
//! A size from 1024 bytes on is shown as a binary floating-point number of 53 significant
//! bits, scaled to the largest fitting unit, with one decimal.

use vstd::prelude::*;

use crate::number;
use crate::text;

verus! {

/// The integer next to a fraction; of two equally near ones the even one.
pub open spec fn half_even(a: nat, b: nat) -> nat {
    let q = a / b;
    let r = a % b;
    if 2 * r > b || (2 * r == b && q % 2 == 1) {
        q + 1
    } else {
        q
    }
}

/// A power of two.
pub open spec fn two_to(e: nat) -> nat
    decreases e,
{
    if e == 0 {
        1
    } else {
        2 * two_to((e - 1) as nat)
    }
}

/// How many bits of a number are beyond 53 significant ones, from `e` on.
pub open spec fn excess(n: nat, e: nat) -> nat
    decreases 64 - e,
{
    if e >= 64 || n / two_to(e) < 9007199254740992 {
        e
    } else {
        excess(n, e + 1)
    }
}

/// A number rounded to 53 significant bits.
pub open spec fn significant(n: nat) -> nat {
    let e = excess(n, 0);
    half_even(n, two_to(e)) * two_to(e)
}

/// The number of bytes of the `u`-th unit.
pub open spec fn unit_size(u: int) -> nat {
    if u <= 0 {
        1
    } else if u == 1 {
        1024
    } else if u == 2 {
        1048576
    } else if u == 3 {
        1073741824
    } else {
        1099511627776
    }
}

/// The name of the `u`-th unit.
pub open spec fn unit_name(u: int) -> Seq<char> {
    if u <= 0 {
        "B"@
    } else if u == 1 {
        "KB"@
    } else if u == 2 {
        "MB"@
    } else if u == 3 {
        "GB"@
    } else {
        "TB"@
    }
}

/// The largest unit that a number of bytes reaches.
pub open spec fn unit_of(m: nat) -> int {
    if m >= unit_size(4) {
        4
    } else if m >= unit_size(3) {
        3
    } else if m >= unit_size(2) {
        2
    } else if m >= unit_size(1) {
        1
    } else {
        0
    }
}

/// A number of bytes for the reader.
pub open spec fn size_text(n: nat) -> Seq<char> {
    if n < 1024 {
        number::decimal(n) + " B"@
    } else {
        let m = significant(n);
        let u = unit_of(m);
        let tenths = half_even(10 * m, unit_size(u));
        number::decimal(tenths / 10) + "."@ + number::decimal(tenths % 10) + " "@ + unit_name(u)
    }
}

fn rounded(a: u128, b: u128) -> (r: u128)
    requires
        b > 0,
        a < 0x1_0000_0000_0000_0000_0000,
        b < 0x1_0000_0000_0000_0000_0000,
    ensures
        r == half_even(a as nat, b as nat),
        r <= a / b + 1,
{
    let q: u128 = a / b;
    let rest: u128 = a % b;
    assert(q <= a) by (nonlinear_arith)
        requires
            q == a / b,
            b > 0,
    ;
    if 2 * rest > b || (2 * rest == b && q % 2 == 1) {
        q + 1
    } else {
        q
    }
}

proof fn lemma_excess(n: nat, e: nat)
    requires
        n < 0x1_0000_0000_0000_0000,
        e <= 11,
    ensures
        excess(n, e) <= 11,
        e <= excess(n, e),
        n / two_to(excess(n, e)) < 9007199254740992,
    decreases 11 - e,
{
    reveal_with_fuel(two_to, 13);
    if e == 11 {
        assert(two_to(11) == 2048);
        assert(n / 2048 < 9007199254740992) by (nonlinear_arith)
            requires
                n < 0x1_0000_0000_0000_0000,
        ;
    } else if !(n / two_to(e) < 9007199254740992) {
        lemma_excess(n, e + 1);
    }
}

proof fn lemma_two_to(e: nat)
    requires
        e <= 11,
    ensures
        1 <= two_to(e) <= 2048,
{
    reveal_with_fuel(two_to, 13);
}

fn to_significant(n: u64) -> (r: u128)
    ensures
        r == significant(n as nat),
        r <= 9007199254740993 * 2048,
{
    let wide: u128 = n as u128;
    let mut e: u8 = 0;
    let mut step: u128 = 1;
    proof {
        lemma_excess(n as nat, 0);
    }
    while wide / step >= 9007199254740992
        invariant
            e <= 11,
            wide == n,
            step == two_to(e as nat),
            1 <= step <= 2048,
            excess(n as nat, 0) == excess(n as nat, e as nat),
            excess(n as nat, 0) <= 11,
        decreases 11 - e,
    {
        proof {
            lemma_excess(n as nat, e as nat);
            assert(excess(n as nat, e as nat) != e);
            lemma_two_to((e + 1) as nat);
        }
        e = e + 1;
        step = step * 2;
    }
    proof {
        lemma_excess(n as nat, e as nat);
    }
    let q = rounded(wide, step);
    assert(wide / step < 9007199254740992);
    assert(q <= 9007199254740992);
    assert(q * step <= 9007199254740993 * 2048) by (nonlinear_arith)
        requires
            q <= 9007199254740992,
            step <= 2048,
    ;
    q * step
}

/// Render a byte count as a human-readable size.
pub fn format_size(bytes: u64) -> (r: String)
    ensures
        r@ == size_text(bytes as nat),
{
    if bytes < 1024 {
        return text::cat2(number::show(bytes).as_str(), " B");
    }
    let m = to_significant(bytes);
    let (scale, name): (u128, &str) = if m >= 1099511627776 {
        (1099511627776, "TB")
    } else if m >= 1073741824 {
        (1073741824, "GB")
    } else if m >= 1048576 {
        (1048576, "MB")
    } else if m >= 1024 {
        (1024, "KB")
    } else {
        (1, "B")
    };
    let tenths = rounded(10 * m, scale);
    assert(tenths <= 0xFFFF_FFFF_FFFF_FFFF) by {
        assert(10 * m / scale as int <= 10 * 9007199254740993 * 2048 / 1099511627776 || 10 * m
            / scale as int <= 10240) by (nonlinear_arith)
            requires
                m <= 9007199254740993 * 2048,
                scale == 1099511627776 || (scale == 1073741824 && m < 1099511627776) || (scale
                    == 1048576 && m < 1073741824) || (scale == 1024 && m < 1048576) || (scale == 1
                    && m < 1024),
        ;
    }
    let t: u64 = tenths as u64;
    let mut out = text::cat3(number::show(t / 10).as_str(), ".", number::show(t % 10).as_str());
    text::push(&mut out, " ");
    text::push(&mut out, name);
    out
}

} // verus!
