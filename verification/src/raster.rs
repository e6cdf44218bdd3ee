//! What is read from the pixels of a drawn page.
//!
//! How much ink a page has tells blank, nearly blank and overfull pages apart.

use vstd::prelude::*;

use crate::number;
use crate::text;

verus! {

/// The pixels of a buffer with all of them solid: each is four bytes, red, green, blue
/// and alpha.
pub open spec fn solid(rgba: Seq<u8>) -> Seq<u8> {
    Seq::new(
        rgba.len(),
        |i: int|
            if i % 4 == 3 {
                255u8
            } else {
                rgba[i]
            },
    )
}

/// Make all pixels solid.
pub fn make_solid(rgba: &mut Vec<u8>)
    ensures
        final(rgba)@ == solid(old(rgba)@),
{
    let ghost before = rgba@;
    let n: usize = rgba.len();
    let mut i: usize = 0;
    while i < n
        invariant
            i <= n == rgba@.len(),
            before.len() == n,
            forall|k: int| 0 <= k < i ==> rgba@[k] == solid(before)[k],
            forall|k: int| i <= k < n ==> rgba@[k] == before[k],
        decreases n - i,
    {
        if i % 4 == 3 {
            rgba.set(i, 255);
        }
        i = i + 1;
    }
    assert(rgba@ =~= solid(before));
}

/// The ink of the pixel that begins at byte `i`: how far it is from white, up to 255 for
/// black.
pub open spec fn pixel_ink(rgba: Seq<u8>, i: int) -> nat {
    (255 - (rgba[i] + rgba[i + 1] + rgba[i + 2]) / 3) as nat
}

/// The ink of the first `n` pixels.
pub open spec fn ink_of(rgba: Seq<u8>, n: nat) -> nat
    decreases n,
{
    if n == 0 {
        0
    } else {
        ink_of(rgba, (n - 1) as nat) + pixel_ink(rgba, 4 * (n - 1))
    }
}

/// How much of a page is covered by ink: `ink` out of `255 * pixels`. White has none,
/// black is covered, and the edges of letters count in proportion.
#[derive(Debug, Clone, Copy, PartialEq, Eq, Structural)]
pub struct InkCoverage {
    pub ink: u128,
    pub pixels: usize,
}

/// How much of a buffer of pixels is covered by ink. Bytes behind the last whole pixel do
/// not count.
pub fn ink_coverage(rgba: &[u8]) -> (r: InkCoverage)
    ensures
        r.pixels == rgba@.len() / 4,
        r.ink == ink_of(rgba@, r.pixels as nat),
{
    let n: usize = rgba.len();
    let pixels: usize = n / 4;
    let mut ink: u128 = 0;
    let mut k: usize = 0;
    while k < pixels
        invariant
            n == rgba@.len(),
            k <= pixels == n / 4,
            ink == ink_of(rgba@, k as nat),
            ink <= 255 * k,
        decreases pixels - k,
    {
        let i: usize = 4 * k;
        let luminance: u32 = (rgba[i] as u32 + rgba[i + 1] as u32 + rgba[i + 2] as u32) / 3;
        ink = ink + (255 - luminance) as u128;
        k = k + 1;
        assert(4 * (k - 1) == i);
    }
    InkCoverage { ink, pixels }
}

/// The refusal of a page that a document does not have.
pub fn out_of_range(index: usize, pages: usize) -> (r: String)
    requires
        index < usize::MAX,
    ensures
        r@ == "page "@ + number::decimal((index + 1) as nat)
            + " does not exist (document has "@ + number::decimal(pages as nat) + " pages)"@,
{
    text::cat5(
        "page ",
        number::show_size(index + 1).as_str(),
        " does not exist (document has ",
        number::show_size(pages).as_str(),
        " pages)",
    )
}

proof fn lemma_ink_bounds(rgba: Seq<u8>, n: nat)
    ensures
        ink_of(rgba, n) <= 255 * n,
    decreases n,
{
    if n > 0 {
        lemma_ink_bounds(rgba, (n - 1) as nat);
    }
}

proof fn lemma_ink_of_white(rgba: Seq<u8>, n: nat)
    requires
        4 * n <= rgba.len(),
        forall|i: int| 0 <= i < rgba.len() ==> rgba[i] == 255,
    ensures
        ink_of(rgba, n) == 0,
    decreases n,
{
    if n > 0 {
        lemma_ink_of_white(rgba, (n - 1) as nat);
    }
}

proof fn lemma_ink_of_black(rgba: Seq<u8>, n: nat)
    requires
        4 * n <= rgba.len(),
        forall|i: int| 0 <= i < rgba.len() && i % 4 != 3 ==> rgba[i] == 0,
    ensures
        ink_of(rgba, n) == 255 * n,
    decreases n,
{
    if n > 0 {
        lemma_ink_of_black(rgba, (n - 1) as nat);
    }
}

/// The coverage of a page is never below nothing nor above everything, whatever its
/// pixels.
pub proof fn law_coverage_is_a_fraction(rgba: Seq<u8>, n: nat)
    ensures
        0 <= ink_of(rgba, n) <= 255 * n,
{
    lemma_ink_bounds(rgba, n);
}

/// A white page has no ink.
pub proof fn law_white_has_no_ink(rgba: Seq<u8>)
    requires
        forall|i: int| 0 <= i < rgba.len() ==> rgba[i] == 255,
    ensures
        ink_of(rgba, rgba.len() / 4) == 0,
{
    lemma_ink_of_white(rgba, rgba.len() / 4);
}

/// A black page is covered by ink.
pub proof fn law_black_is_covered(rgba: Seq<u8>)
    requires
        forall|i: int| 0 <= i < rgba.len() && i % 4 != 3 ==> rgba[i] == 0,
    ensures
        ink_of(rgba, rgba.len() / 4) == 255 * (rgba.len() / 4),
{
    lemma_ink_of_black(rgba, rgba.len() / 4);
}

} // verus!
