//! The `preview` command: which pages are drawn, and where the images go.

use vstd::prelude::*;

use crate::commands::build;
use crate::number;
use crate::paths;
use crate::text::{self, chars_of};

verus! {

/// Where the images go. A relative directory is taken from the project root.
pub fn out_dir(root: &str, out: Option<&str>) -> (r: String)
    ensures
        r@ == paths::joined(
            root@,
            match out {
                Some(p) => p@,
                None => "preview"@,
            },
        ),
{
    match out {
        Some(p) => paths::join(root, p),
        None => paths::join(root, "preview"),
    }
}

/// Why no page can be drawn, if so: there are none, or not the one that is asked for.
pub open spec fn page_fault(pdf: Seq<char>, page: Option<usize>, pages: usize) -> Option<Seq<char>> {
    if pages == 0 {
        Some(pdf + " has no pages"@)
    } else {
        match page {
            Some(n) => if n == 0 || n > pages {
                Some(build::no_such_page("--page"@, n as nat, pages as nat))
            } else {
                None
            },
            None => None,
        }
    }
}

/// The pages that are drawn, counted from zero: the one that is asked for, or all.
pub open spec fn drawn(page: Option<usize>, pages: usize) -> Seq<usize> {
    match page {
        Some(n) => seq![(n - 1) as usize],
        None => Seq::new(pages as nat, |k: int| k as usize),
    }
}

/// The pages that are drawn, counted from zero.
pub fn page_indexes(pdf: &str, page: Option<usize>, pages: usize) -> (r: Result<
    Vec<usize>,
    String,
>)
    ensures
        match r {
            Ok(v) => page_fault(pdf@, page, pages) is None && v@ == drawn(page, pages),
            Err(m) => page_fault(pdf@, page, pages) == Some(m@),
        },
{
    if pages == 0 {
        return Err(text::cat2(pdf, " has no pages"));
    }
    let mut out: Vec<usize> = Vec::new();
    match page {
        Some(n) => {
            if n == 0 || n > pages {
                return Err(build::out_of_range("--page", n, pages));
            }
            out.push(n - 1);
            assert(out@ =~= drawn(page, pages));
        },
        None => {
            let mut k: usize = 0;
            while k < pages
                invariant
                    k <= pages,
                    out@.len() == k,
                    forall|i: int| 0 <= i < k ==> out@[i] == i,
                decreases pages - k,
            {
                out.push(k);
                k = k + 1;
            }
            assert(out@ =~= drawn(page, pages));
        },
    }
    Ok(out)
}

/// A number with as many digits as `width` at least.
pub open spec fn padded(n: nat, width: nat) -> Seq<char> {
    let d = number::decimal(n);
    text::repeat(
        "0"@,
        if d.len() < width {
            (width - d.len()) as nat
        } else {
            0
        },
    ) + d
}

/// The name of the image of a page, counted from one.
pub open spec fn image_name(page: nat, pages: nat) -> Seq<char> {
    "page-"@ + padded(page, number::decimal(pages).len()) + ".png"@
}

/// The name of the image of the page with an index.
pub fn page_name(index: usize, pages: usize) -> (r: String)
    requires
        index < pages,
    ensures
        r@ == image_name((index + 1) as nat, pages as nat),
{
    let digits = number::show_size(index + 1);
    let d: usize = chars_of(digits.as_str()).len();
    let width: usize = chars_of(number::show_size(pages).as_str()).len();
    let zeros: usize = if d < width {
        width - d
    } else {
        0
    };
    text::cat4(
        "page-",
        text::repeated("0", zeros as u128).as_str(),
        digits.as_str(),
        ".png",
    )
}

proof fn lemma_zeros(n: nat)
    ensures
        text::repeat("0"@, n).len() == n,
    decreases n,
{
    reveal_strlit("0");
    if n > 0 {
        lemma_zeros((n - 1) as nat);
    }
}

proof fn lemma_longer(a: nat, b: nat)
    requires
        a <= b,
    ensures
        number::decimal(a).len() <= number::decimal(b).len(),
    decreases b,
{
    if b >= 10 {
        if a >= 10 {
            lemma_longer(a / 10, b / 10);
        }
    }
}

/// The images of all pages of a document have names of one length.
pub proof fn law_names_are_equally_long(page: nat, pages: nat)
    requires
        page <= pages,
    ensures
        padded(page, number::decimal(pages).len()).len() == number::decimal(pages).len(),
{
    lemma_longer(page, pages);
    lemma_zeros((number::decimal(pages).len() - number::decimal(page).len()) as nat);
}

} // verus!
