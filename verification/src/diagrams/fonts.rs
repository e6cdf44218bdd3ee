//! Which font families stand for the generic ones in diagrams.

use vstd::prelude::*;

use crate::text;

verus! {

/// A generic family.
#[derive(Debug, Clone, Copy, PartialEq, Eq, Structural)]
pub enum Generic {
    SansSerif,
    Serif,
    Monospace,
}

/// The families that are preferred for a generic one, in order.
pub open spec fn preferred(kind: Generic) -> Seq<Seq<char>> {
    match kind {
        Generic::SansSerif => seq![
            "Arial"@,
            "DejaVu Sans"@,
            "Liberation Sans"@,
            "Noto Sans"@,
        ],
        Generic::Serif => seq![
            "Times New Roman"@,
            "DejaVu Serif"@,
            "Liberation Serif"@,
            "Noto Serif"@,
        ],
        Generic::Monospace => seq![
            "Courier New"@,
            "DejaVu Sans Mono"@,
            "Liberation Mono"@,
            "Noto Sans Mono"@,
        ],
    }
}

/// The first of the families from the `k`-th on that is available.
pub open spec fn first_available(
    names: Seq<Seq<char>>,
    available: Seq<Seq<char>>,
    k: int,
) -> Option<Seq<char>>
    decreases names.len() - k,
{
    if k < 0 || k >= names.len() {
        None
    } else if available.contains(names[k]) {
        Some(names[k])
    } else {
        first_available(names, available, k + 1)
    }
}

/// The family that stands for a generic one. Texts without serifs fall back to any family
/// at all, so that no text disappears where there are few fonts.
pub open spec fn family(kind: Generic, available: Seq<Seq<char>>) -> Option<Seq<char>> {
    match first_available(preferred(kind), available, 0) {
        Some(f) => Some(f),
        None => if kind == Generic::SansSerif && available.len() > 0 {
            Some(available[0])
        } else {
            None
        },
    }
}

fn preferred_names(kind: Generic) -> (r: Vec<String>)
    ensures
        text::texts(r@) == preferred(kind),
{
    let mut v: Vec<String> = Vec::new();
    match kind {
        Generic::SansSerif => {
            v.push(text::lit("Arial"));
            v.push(text::lit("DejaVu Sans"));
            v.push(text::lit("Liberation Sans"));
            v.push(text::lit("Noto Sans"));
        },
        Generic::Serif => {
            v.push(text::lit("Times New Roman"));
            v.push(text::lit("DejaVu Serif"));
            v.push(text::lit("Liberation Serif"));
            v.push(text::lit("Noto Serif"));
        },
        Generic::Monospace => {
            v.push(text::lit("Courier New"));
            v.push(text::lit("DejaVu Sans Mono"));
            v.push(text::lit("Liberation Mono"));
            v.push(text::lit("Noto Sans Mono"));
        },
    }
    assert(text::texts(v@) =~= preferred(kind));
    v
}

/// The family that stands for a generic one, given the available families.
pub fn choose_family(kind: Generic, available: &Vec<String>) -> (r: Option<String>)
    ensures
        text::opt_text(r) == family(kind, text::texts(available@)),
{
    let names = preferred_names(kind);
    let ghost all = preferred(kind);
    let ghost av = text::texts(available@);
    let mut k: usize = 0;
    while k < names.len()
        invariant
            k <= names@.len(),
            all == text::texts(names@),
            all == preferred(kind),
            av == text::texts(available@),
            first_available(all, av, 0) == first_available(all, av, k as int),
        decreases names@.len() - k,
    {
        assert(all[k as int] == names@[k as int]@);
        if text::listed(available, names[k].as_str()) {
            return Some(text::lit(names[k].as_str()));
        }
        k = k + 1;
    }
    assert(av.len() == available@.len());
    if kind == Generic::SansSerif && available.len() > 0 {
        assert(av[0] == available@[0]@);
        Some(text::lit(available[0].as_str()))
    } else {
        None
    }
}

/// The warning where a diagram cannot become a vector image.
pub fn fallback_warning(env: &str, cause: &str) -> (r: String)
    ensures
        r@ == "warning: "@ + env@ + " diagram: SVG to PDF conversion failed ("@ + cause@
            + "), falling back to PNG\n"@,
{
    text::cat5(
        "warning: ",
        env,
        " diagram: SVG to PDF conversion failed (",
        cause,
        "), falling back to PNG\n",
    )
}

/// Text without serifs has a font wherever there is any font at all.
pub proof fn law_sans_serif_never_disappears(available: Seq<Seq<char>>)
    requires
        available.len() > 0,
    ensures
        family(Generic::SansSerif, available) is Some,
{
}

proof fn lemma_first_available(names: Seq<Seq<char>>, available: Seq<Seq<char>>, k: int)
    ensures
        first_available(names, available, k) matches Some(f) ==> available.contains(f),
    decreases names.len() - k,
{
    if 0 <= k < names.len() && !available.contains(names[k]) {
        lemma_first_available(names, available, k + 1);
    }
}

/// Whatever is chosen is available.
pub proof fn law_chosen_families_are_available(kind: Generic, available: Seq<Seq<char>>)
    ensures
        family(kind, available) matches Some(f) ==> available.contains(f),
{
    lemma_first_available(preferred(kind), available, 0);
    if available.len() > 0 {
        assert(available.contains(available[0]));
    }
}

} // verus!
