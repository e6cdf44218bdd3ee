//! What numbers mean: the sizes of files, and the ink on a page.

use vstd::prelude::*;

use crate::number;
use crate::raster;
use crate::size;

verus! {

// ---------------------------------------------------------------------------
// Sizes
// ---------------------------------------------------------------------------

/// Whether a unit of so many bytes has a name.
pub open spec fn is_unit(unit: nat, name: Seq<char>) -> bool {
    ||| unit == 1024 && name == "KB"@
    ||| unit == 1048576 && name == "MB"@
    ||| unit == 1073741824 && name == "GB"@
    ||| unit == 1099511627776 && name == "TB"@
}

/// A number of tenths of a unit, with one decimal.
pub open spec fn in_tenths(t: nat, name: Seq<char>) -> Seq<char> {
    number::decimal(t / 10) + "."@ + number::decimal(t % 10) + " "@ + name
}

/// Whether `t` is a number of tenths of a unit nearest to a number of bytes.
pub open spec fn is_nearest(n: nat, unit: nat, t: nat) -> bool {
    2 * (t * unit) <= 20 * n + unit && 20 * n <= 2 * (t * unit) + unit
}

proof fn lemma_half_even(a: nat, b: nat)
    requires
        b > 0,
    ensures
        2 * (size::half_even(a, b) * b) <= 2 * a + b,
        2 * a <= 2 * (size::half_even(a, b) * b) + b,
{
    let q = a / b;
    let r = a % b;
    assert(a == q * b + r && r < b) by (nonlinear_arith)
        requires
            b > 0,
            q == a / b,
            r == a % b,
    ;
    assert((q + 1) * b == q * b + b) by (nonlinear_arith);
}

/// A size is shown in the largest unit that it reaches, to the nearest tenth; below a
/// kilobyte it is a number of bytes.
pub proof fn law_sizes_are_rounded(n: nat, unit: nat, name: Seq<char>)
    requires
        n < 9007199254740992,
        is_unit(unit, name),
        unit <= n,
        unit < 1099511627776 ==> n < 1024 * unit,
    ensures
        exists|t: nat| size::size_text(n) == #[trigger] in_tenths(t, name) && is_nearest(n, unit, t),
{
    assert(size::two_to(0) == 1);
    assert(n / 1 == n);
    assert(size::excess(n, 0) == 0);
    assert(size::half_even(n, 1) == n) by {
        assert(n % 1 == 0);
    }
    assert(size::significant(n) == n);
    let u = size::unit_of(n);
    assert(size::unit_size(u) == unit);
    assert(size::unit_name(u) == name);
    let t = size::half_even(10 * n, unit);
    lemma_half_even(10 * n, unit);
    assert(is_nearest(n, unit, t));
    assert(size::size_text(n) == in_tenths(t, name));
}

/// Less than a kilobyte is shown in bytes.
pub proof fn law_small_sizes_are_exact(n: nat)
    requires
        n < 1024,
    ensures
        size::size_text(n) == number::decimal(n) + " B"@,
{
}

// ---------------------------------------------------------------------------
// Ink
// ---------------------------------------------------------------------------

/// The ink of a pixel is how far its three colours are from white, on average: each counts as
/// much as the others, and how solid the pixel is does not count.
pub proof fn law_ink_is_the_mean_of_colours(rgba: Seq<u8>, n: nat)
    requires
        4 * n + 3 < rgba.len(),
    ensures
        ({
            let i: int = 4 * (n as int);
            let ink = raster::ink_of(rgba, n + 1) - raster::ink_of(rgba, n);
            let away = (255 - rgba[i]) + (255 - rgba[i + 1]) + (255 - rgba[i + 2]);
            away <= 3 * ink < away + 3
        }),
{
    let i: int = 4 * (n as int);
    let s: int = rgba[i] + rgba[i + 1] + rgba[i + 2];
    assert(4 * ((n + 1) - 1) == i);
    assert(raster::ink_of(rgba, n + 1) == raster::ink_of(rgba, n) + raster::pixel_ink(rgba, i));
    assert(3 * (s / 3) <= s < 3 * (s / 3) + 3);
}

} // verus!
