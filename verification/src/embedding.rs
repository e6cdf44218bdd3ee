//! Which fonts of a PDF are listed: every one that a page names, with its pages.

use vstd::prelude::*;

use crate::order;
use crate::pdfdoc::{self, DocumentView, ObjectView};
use crate::pdftext::FontView;
use crate::provision;

verus! {

/// Whether fonts list one with a name, for a page where one is given, and as embedded where
/// it is.
pub open spec fn lists(
    fonts: Seq<FontView>,
    name: Seq<char>,
    page: Option<usize>,
    embedded: bool,
) -> bool {
    exists|i: int|
        0 <= i < fonts.len() && (#[trigger] fonts[i]).name == name && (page matches Some(q)
            ==> fonts[i].pages.contains(q)) && (embedded ==> fonts[i].embedded)
}

proof fn lemma_stays(
    all: Seq<FontView>,
    f: FontView,
    page: Option<usize>,
    name: Seq<char>,
    q: Option<usize>,
    e: bool,
)
    requires
        pdfdoc::orderly(all),
        lists(all, name, q, e),
    ensures
        lists(pdfdoc::with_font(all, f, page), name, q, e),
{
    let now = pdfdoc::with_font(all, f, page);
    let names = pdfdoc::font_names(all);
    let p = order::place(names, f.name, all.len() as int);
    order::lemma_ascending_place(names, f.name);
    let i = choose|i: int|
        0 <= i < all.len() && (#[trigger] all[i]).name == name && (q matches Some(x)
            ==> all[i].pages.contains(x)) && (e ==> all[i].embedded);
    if p > 0 && all[p - 1].name == f.name {
        if i == p - 1 {
            if let Some(x) = page {
                provision::lemma_with_page(all[i].pages, x);
            }
            assert(now[i].name == name);
        } else {
            assert(now[i] == all[i]);
        }
    } else if i < p {
        assert(now[i] == all[i]);
    } else {
        assert(now[i + 1] == all[i]);
    }
}

proof fn lemma_added(all: Seq<FontView>, f: FontView, page: Option<usize>)
    requires
        pdfdoc::orderly(all),
        page matches Some(q) ==> f.pages.contains(q),
    ensures
        lists(pdfdoc::with_font(all, f, page), f.name, page, f.embedded),
{
    let now = pdfdoc::with_font(all, f, page);
    let names = pdfdoc::font_names(all);
    let p = order::place(names, f.name, all.len() as int);
    order::lemma_ascending_place(names, f.name);
    if p > 0 && all[p - 1].name == f.name {
        if let Some(x) = page {
            provision::lemma_with_page(all[p - 1].pages, x);
        }
        assert(now[p - 1].name == f.name);
    } else {
        assert(now[p] == f);
    }
}

proof fn lemma_pushed(
    doc: DocumentView,
    font: Seq<(Seq<u8>, ObjectView)>,
    page: Option<usize>,
    fonts: Seq<FontView>,
    depth: nat,
    name: Seq<char>,
    q: Option<usize>,
    e: bool,
)
    requires
        pdfdoc::orderly(fonts),
        lists(fonts, name, q, e),
    ensures
        pdfdoc::pushed(doc, font, page, fonts, depth) matches Some(f) ==> lists(f, name, q, e),
    decreases depth, 0nat,
{
    if let Some(own) = pdfdoc::embedded(doc, font, depth) {
        let entry = pdfdoc::font_entry(font, own, page);
        let more = pdfdoc::with_font(fonts, entry, page);
        lemma_stays(fonts, entry, page, name, q, e);
        pdfdoc::lemma_with_font(fonts, entry, page);
        if let Some(items) = pdfdoc::descendants(doc, font) {
            if depth > 0 {
                lemma_all_pushed(doc, items, 0, more, (depth - 1) as nat, name, q, e);
            }
        }
    }
}

proof fn lemma_all_pushed(
    doc: DocumentView,
    items: Seq<ObjectView>,
    k: int,
    fonts: Seq<FontView>,
    depth: nat,
    name: Seq<char>,
    q: Option<usize>,
    e: bool,
)
    requires
        pdfdoc::orderly(fonts),
        lists(fonts, name, q, e),
    ensures
        pdfdoc::all_pushed(doc, items, k, fonts, depth) matches Some(f) ==> lists(f, name, q, e),
    decreases depth, (items.len() - k + 1) as nat,
{
    if 0 <= k < items.len() {
        match pdfdoc::dict_of(doc, Some(items[k])) {
            Some(d) => {
                lemma_pushed(doc, d, None, fonts, depth, name, q, e);
                pdfdoc::lemma_pushed_orderly(doc, d, None, fonts, depth);
                if let Some(more) = pdfdoc::pushed(doc, d, None, fonts, depth) {
                    lemma_all_pushed(doc, items, k + 1, more, depth, name, q, e);
                }
            },
            None => {
                lemma_all_pushed(doc, items, k + 1, fonts, depth, name, q, e);
            },
        }
    }
}

proof fn lemma_own(
    doc: DocumentView,
    font: Seq<(Seq<u8>, ObjectView)>,
    page: usize,
    fonts: Seq<FontView>,
    depth: nat,
)
    requires
        pdfdoc::orderly(fonts),
    ensures
        pdfdoc::pushed(doc, font, Some(page), fonts, depth) matches Some(f) ==> lists(
            f,
            pdfdoc::text_or(font, "BaseFont"@, "(unnamed)"@),
            Some(page),
            pdfdoc::has_file(doc, font),
        ),
{
    if let Some(own) = pdfdoc::embedded(doc, font, depth) {
        let entry = pdfdoc::font_entry(font, own, Some(page));
        let more = pdfdoc::with_font(fonts, entry, Some(page));
        assert(entry.pages[0] == page);
        lemma_added(fonts, entry, Some(page));
        pdfdoc::lemma_with_font(fonts, entry, Some(page));
        let e = pdfdoc::has_file(doc, font);
        assert(lists(more, entry.name, Some(page), e));
        if let Some(items) = pdfdoc::descendants(doc, font) {
            if depth > 0 {
                lemma_all_pushed(
                    doc,
                    items,
                    0,
                    more,
                    (depth - 1) as nat,
                    entry.name,
                    Some(page),
                    e,
                );
            }
        }
    }
}

proof fn lemma_page(
    doc: DocumentView,
    named: Seq<(Seq<u8>, ObjectView)>,
    k: int,
    page: usize,
    fonts: Seq<FontView>,
    depth: nat,
    name: Seq<char>,
    q: Option<usize>,
    e: bool,
)
    requires
        pdfdoc::orderly(fonts),
        lists(fonts, name, q, e),
    ensures
        pdfdoc::page_pushed(doc, named, k, page, fonts, depth) matches Some(f) ==> lists(
            f,
            name,
            q,
            e,
        ),
    decreases named.len() - k,
{
    if 0 <= k < named.len() {
        match pdfdoc::dict_of(doc, Some(named[k].1)) {
            Some(d) => {
                lemma_pushed(doc, d, Some(page), fonts, depth, name, q, e);
                pdfdoc::lemma_pushed_orderly(doc, d, Some(page), fonts, depth);
                if let Some(more) = pdfdoc::pushed(doc, d, Some(page), fonts, depth) {
                    lemma_page(doc, named, k + 1, page, more, depth, name, q, e);
                }
            },
            None => {
                lemma_page(doc, named, k + 1, page, fonts, depth, name, q, e);
            },
        }
    }
}

proof fn lemma_page_own(
    doc: DocumentView,
    named: Seq<(Seq<u8>, ObjectView)>,
    k: int,
    page: usize,
    fonts: Seq<FontView>,
    depth: nat,
    i: int,
    d: Seq<(Seq<u8>, ObjectView)>,
)
    requires
        pdfdoc::orderly(fonts),
        0 <= k <= i < named.len(),
        pdfdoc::dict_of(doc, Some(named[i].1)) == Some(d),
    ensures
        pdfdoc::page_pushed(doc, named, k, page, fonts, depth) matches Some(f) ==> lists(
            f,
            pdfdoc::text_or(d, "BaseFont"@, "(unnamed)"@),
            Some(page),
            pdfdoc::has_file(doc, d),
        ),
    decreases i - k,
{
    let name = pdfdoc::text_or(d, "BaseFont"@, "(unnamed)"@);
    let e = pdfdoc::has_file(doc, d);
    match pdfdoc::dict_of(doc, Some(named[k].1)) {
        Some(own) => {
            pdfdoc::lemma_pushed_orderly(doc, own, Some(page), fonts, depth);
            lemma_own(doc, own, page, fonts, depth);
            if let Some(more) = pdfdoc::pushed(doc, own, Some(page), fonts, depth) {
                if k < i {
                    lemma_page_own(doc, named, k + 1, page, more, depth, i, d);
                } else {
                    lemma_page(doc, named, k + 1, page, more, depth, name, Some(page), e);
                }
            }
        },
        None => {
            lemma_page_own(doc, named, k + 1, page, fonts, depth, i, d);
        },
    }
}

/// Every font that the resources of a page name is listed with that page, under its base
/// name, and as embedded where its descriptor names a font file.
pub proof fn law_fonts_of_pages_are_listed(
    doc: DocumentView,
    n: int,
    depth: nat,
    k: int,
    i: int,
    d: Seq<(Seq<u8>, ObjectView)>,
)
    requires
        0 <= k < n <= doc.pages.len() <= usize::MAX,
        0 <= i < pdfdoc::page_fonts(doc, doc.pages[k]).len(),
        pdfdoc::dict_of(doc, Some(pdfdoc::page_fonts(doc, doc.pages[k])[i].1)) == Some(d),
    ensures
        pdfdoc::collected(doc, n, depth) matches Some(f) ==> lists(
            f,
            pdfdoc::text_or(d, "BaseFont"@, "(unnamed)"@),
            Some((k + 1) as usize),
            pdfdoc::has_file(doc, d),
        ),
    decreases n,
{
    let name = pdfdoc::text_or(d, "BaseFont"@, "(unnamed)"@);
    let e = pdfdoc::has_file(doc, d);
    let page = (k + 1) as usize;
    pdfdoc::law_fonts_are_orderly(doc, n - 1, depth);
    if let Some(before) = pdfdoc::collected(doc, n - 1, depth) {
        let named = pdfdoc::page_fonts(doc, doc.pages[n - 1]);
        if k < n - 1 {
            law_fonts_of_pages_are_listed(doc, n - 1, depth, k, i, d);
            lemma_page(doc, named, 0, n as usize, before, depth, name, Some(page), e);
        } else {
            lemma_page_own(doc, named, 0, page, before, depth, i, d);
        }
    }
}

} // verus!
