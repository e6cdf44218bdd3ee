//! What a project is provided with: the files of a template, the engine, fonts; and what of
//! it is looked at first.

use vstd::prelude::*;

use crate::archives::{self, EntryView};
use crate::chars;
use crate::commands::doctor;
use crate::commands::init::{self, FoundFile};
use crate::commands::outline::{self, OutlineView};
use crate::commands::stats::{self, ByMode};
use crate::compiler;
use crate::diagrams::fonts;
use crate::diagrams::style::{self, DiagramStyle};
use crate::number;
use crate::order;
use crate::paths;
use crate::pdfdoc;
use crate::pdftext::FontView;
use crate::templates;
use crate::text;
use crate::utils;
use crate::wordcount::StatView;

verus! {

// ---------------------------------------------------------------------------
// Templates
// ---------------------------------------------------------------------------

/// Whether a path of an archive is a path in a template: behind a directory at the top and
/// the directory of the template.
pub open spec fn lies_in(path: Seq<char>, top: Seq<char>, name: Seq<char>, rel: Seq<char>) -> bool {
    &&& path == top + seq!['/'] + name + seq!['/'] + rel
    &&& !top.contains('/')
    &&& rel.len() > 0
}

proof fn lemma_first(s: Seq<char>, c: char, i: int, k: int)
    requires
        0 <= i <= k < s.len(),
        s[k] == c,
        forall|j: int| i <= j < k ==> #[trigger] s[j] != c,
    ensures
        text::find_char_from(s, c, i) == Some(k),
    decreases k - i,
{
    if i < k {
        assert(s[i] != c);
        lemma_first(s, c, i + 1, k);
    }
}

/// The files of a template are those that lie in its directory, below the one at the top of
/// the archive, each by its path in there; directories are none.
pub proof fn law_paths_in_a_template(path: Seq<char>, is_dir: bool, name: Seq<char>, rel: Seq<char>)
    ensures
        templates::path_in_template(path, is_dir, name) == Some(rel) <==> !is_dir && exists|
            top: Seq<char>,
        | #[trigger] lies_in(path, top, name, rel),
{
    reveal_strlit("/");
    assert("/"@ =~= seq!['/']);
    let prefix = name + "/"@;
    if exists|top: Seq<char>| #[trigger] lies_in(path, top, name, rel) {
        let top = choose|top: Seq<char>| #[trigger] lies_in(path, top, name, rel);
        let n = top.len() as int;
        assert(path[n] == '/');
        assert forall|j: int| 0 <= j < n implies #[trigger] path[j] != '/' by {
            assert(path[j] == top[j]);
            assert(top.contains(top[j]));
        }
        lemma_first(path, '/', 0, n);
        let inner = path.skip(n + 1);
        assert(inner =~= prefix + rel);
        assert(inner.subrange(0, prefix.len() as int) =~= prefix);
        assert(inner.skip(prefix.len() as int) =~= rel);
    }
    if templates::path_in_template(path, is_dir, name) == Some(rel) {
        text::lemma_find_char_bounds(path, '/', 0);
        let k = text::find_char(path, '/')->0;
        let top = path.take(k);
        let inner = path.skip(k + 1);
        assert(inner =~= prefix + rel) by {
            assert(inner.subrange(0, prefix.len() as int) == prefix);
            assert(inner =~= inner.subrange(0, prefix.len() as int) + inner.skip(
                prefix.len() as int,
            ));
        }
        assert(path =~= top + seq!['/'] + inner);
        assert(path =~= top + seq!['/'] + name + seq!['/'] + rel);
        assert(lies_in(path, top, name, rel));
    }
}

/// Whether the `i`-th entry is a file of a template.
pub open spec fn is_file_of(entries: Seq<EntryView>, name: Seq<char>, i: int, rel: Seq<char>) -> bool {
    entries[i].tag != archives::DIRECTORY && exists|top: Seq<char>| #[trigger]
        lies_in(entries[i].path, top, name, rel)
}

proof fn lemma_taken(
    entries: Seq<EntryView>,
    contents: spec_fn(int) -> Result<Seq<u8>, Seq<char>>,
    name: Seq<char>,
    k: int,
)
    requires
        0 <= k <= entries.len(),
        forall|j: int| 0 <= j < k ==> #[trigger] contents(j) is Ok,
    ensures
        templates::taken(entries, contents, name, k).fault is None,
        templates::distinct_files(templates::taken(entries, contents, name, k).files),
    decreases k,
{
    if k > 0 {
        lemma_taken(entries, contents, name, k - 1);
        let before = templates::taken(entries, contents, name, k - 1);
        assert(contents(k - 1) is Ok);
        match templates::path_in_template(
            entries[k - 1].path,
            entries[k - 1].tag == archives::DIRECTORY,
            name,
        ) {
            Some(rel) => {
                templates::law_insert_then_get(
                    before.files,
                    rel,
                    contents(k - 1)->Ok_0,
                    Seq::empty(),
                );
            },
            None => {},
        }
    }
}

/// Every file of a template in an archive is taken, with what it holds; of two with one path,
/// the later.
pub proof fn law_files_of_a_template_are_taken(
    entries: Seq<EntryView>,
    contents: spec_fn(int) -> Result<Seq<u8>, Seq<char>>,
    name: Seq<char>,
    k: int,
    i: int,
    rel: Seq<char>,
)
    requires
        0 <= i < k <= entries.len(),
        forall|j: int| 0 <= j < k ==> #[trigger] contents(j) is Ok,
        is_file_of(entries, name, i, rel),
        forall|j: int| i < j < k ==> !#[trigger] is_file_of(entries, name, j, rel),
    ensures
        templates::content_of(templates::taken(entries, contents, name, k).files, rel) == Some(
            contents(i)->Ok_0,
        ),
    decreases k,
{
    let e = entries[k - 1];
    let before = templates::taken(entries, contents, name, k - 1);
    lemma_taken(entries, contents, name, k - 1);
    assert(contents(k - 1) is Ok);
    let own = templates::path_in_template(e.path, e.tag == archives::DIRECTORY, name);
    law_paths_in_a_template(e.path, e.tag == archives::DIRECTORY, name, rel);
    if i < k - 1 {
        law_files_of_a_template_are_taken(entries, contents, name, k - 1, i, rel);
        assert(!is_file_of(entries, name, k - 1, rel));
        if let Some(other) = own {
            assert(other != rel);
            templates::law_insert_then_get(before.files, other, contents(k - 1)->Ok_0, rel);
        }
    } else {
        templates::law_insert_then_get(before.files, rel, contents(k - 1)->Ok_0, rel);
    }
}

/// A cached template is fresh for a day, and one that was fetched later than now is fresh
/// too.
pub proof fn law_templates_are_fresh_for_a_day(fetched: u64, now: u64)
    ensures
        templates::stale(Some(fetched), now) <==> fetched + 24 * 60 * 60 < now,
        templates::stale(None, now),
{
}

/// An asset is mirrored exactly where it lies under the root and is no source, and lies in the
/// build directory as it lies in the root.
pub proof fn law_assets_are_mirrored(path: Seq<char>, root: Seq<char>, build: Seq<char>)
    ensures
        utils::mirrored(path, root, build) is Some <==> paths::is_under(path, root)
            && paths::extension(path) != Some("tex"@),
        utils::mirrored(path, root, build) matches Some(to) ==> (paths::relative(path, root)
            matches Some(rel) && to == paths::joined(build, rel)),
{
}

// ---------------------------------------------------------------------------
// What comes first
// ---------------------------------------------------------------------------

/// The engine is the first of the known places that exists.
pub proof fn law_first_place_is_taken(all: Seq<Seq<char>>, exists: Seq<bool>, k: int, i: int)
    requires
        0 <= k <= i < all.len(),
        i < exists.len(),
        exists[i],
        forall|j: int| k <= j < i ==> !#[trigger] exists[j],
    ensures
        compiler::first_existing(all, exists, k) == Some(all[i]),
    decreases i - k,
{
    if k < i {
        assert(!exists[k]);
        law_first_place_is_taken(all, exists, k + 1, i);
    }
}

/// Where no known place exists, there is no engine.
pub proof fn law_no_place_no_engine(all: Seq<Seq<char>>, exists: Seq<bool>, k: int)
    requires
        0 <= k,
        forall|j: int| k <= j < exists.len() ==> !#[trigger] exists[j],
    ensures
        compiler::first_existing(all, exists, k) is None,
    decreases all.len() - k,
{
    if k < all.len() {
        if k < exists.len() {
            assert(!exists[k]);
        }
        law_no_place_no_engine(all, exists, k + 1);
    }
}

/// Whether a file begins a document: a `.tex` file not deeper than in a directory of the
/// root, with a `\documentclass`.
pub open spec fn begins(f: FoundFile) -> bool {
    &&& f.depth <= 2
    &&& paths::extension(f.path@) == Some("tex"@)
    &&& f.content matches Some(c) && text::contains(c@, "\\documentclass"@)
}

/// The entry point of a directory of sources is the first file that begins a document.
pub proof fn law_first_document_is_the_entry(
    files: Seq<FoundFile>,
    root: Seq<char>,
    k: int,
    i: int,
)
    requires
        0 <= k <= i < files.len(),
        begins(files[i]),
        forall|j: int| k <= j < i ==> !begins(#[trigger] files[j]),
    ensures
        init::first_of(files, false, root, k) == paths::relative(files[i].path@, root),
    decreases i - k,
{
    if k < i {
        assert(!begins(files[k]));
        law_first_document_is_the_entry(files, root, k + 1, i);
    }
}

/// The bibliography of a directory of sources is the first `.bib` file, not deeper than two
/// directories below the root.
pub proof fn law_first_bibliography_is_taken(
    files: Seq<FoundFile>,
    root: Seq<char>,
    k: int,
    i: int,
)
    requires
        0 <= k <= i < files.len(),
        files[i].depth <= 3,
        paths::extension(files[i].path@) == Some("bib"@),
        forall|j: int|
            k <= j < i ==> (#[trigger] files[j]).depth > 3 || paths::extension(files[j].path@)
                != Some("bib"@),
    ensures
        init::first_of(files, true, root, k) == paths::relative(files[i].path@, root),
    decreases i - k,
{
    if k < i {
        assert(files[k].depth > 3 || paths::extension(files[k].path@) != Some("bib"@));
        law_first_bibliography_is_taken(files, root, k + 1, i);
    }
}

/// Of the preferred families the first that is available is chosen.
pub proof fn law_first_family_is_chosen(
    names: Seq<Seq<char>>,
    available: Seq<Seq<char>>,
    k: int,
    i: int,
)
    requires
        0 <= k <= i < names.len(),
        available.contains(names[i]),
        forall|j: int| k <= j < i ==> !available.contains(#[trigger] names[j]),
    ensures
        fonts::first_available(names, available, k) == Some(names[i]),
    decreases i - k,
{
    if k < i {
        assert(!available.contains(names[k]));
        law_first_family_is_chosen(names, available, k + 1, i);
    }
}

// ---------------------------------------------------------------------------
// Fonts
// ---------------------------------------------------------------------------

/// Whether a text is the extension of a font program, in small letters.
pub open spec fn is_program(ext: Seq<char>) -> bool {
    ext == "otf"@ || ext == "ttf"@ || ext == "ttc"@ || ext == "otc"@ || ext == "pfb"@
}

/// A line of a manifest whose first word has the extension of a font program, in whatever
/// case, names a font; a line of another file names none.
pub proof fn law_fonts_of_a_manifest(
    line: Seq<char>,
    base: Seq<char>,
    ext: Seq<char>,
)
    requires
        text::words(line).len() > 0,
        text::words(line)[0] == base + seq!['.'] + ext,
        !ext.contains('.'),
    ensures
        doctor::font_in(line) == if is_program(chars::ascii_lower(ext)) {
            Some(text::words(line)[0])
        } else {
            None
        },
{
    let w = text::words(line)[0];
    let n = base.len() as int;
    assert(w[n] == '.');
    assert forall|j: int| n < j < w.len() implies #[trigger] w[j] != '.' by {
        assert(w[j] == ext[j - n - 1]);
        assert(ext.contains(ext[j - n - 1]));
    }
    crate::messages::lemma_rfound(w, '.', w.len() as int, n);
    assert(w.skip(n + 1) =~= ext);
}

/// The fonts of a manifest are those that its lines name.
pub proof fn law_fonts_are_listed(ls: Seq<Seq<char>>, k: int, f: Seq<char>)
    requires
        0 <= k,
    ensures
        doctor::fonts_in(ls, k).contains(f) <==> exists|i: int|
            k <= i < ls.len() && doctor::font_in(#[trigger] ls[i]) == Some(f),
    decreases ls.len() - k,
{
    if k < ls.len() {
        law_fonts_are_listed(ls, k + 1, f);
        if let Some(own) = doctor::font_in(ls[k]) {
            crate::linter::references::lemma_words_in_two(
                seq![own],
                doctor::fonts_in(ls, k + 1),
                f,
            );
            assert(seq![own].contains(f) <==> own == f) by {
                assert(seq![own][0] == own);
            }
        }
        if doctor::font_in(ls[k]) == Some(f) {
            let l = ls[k];
            assert(doctor::font_in(l) == Some(f));
        }
    }
}

/// A font that a page refers to is listed with that page, and as embedded where it is; every
/// other font stays as it is.
pub proof fn law_references_add_to_fonts(
    all: Seq<FontView>,
    f: FontView,
    page: usize,
    j: int,
)
    requires
        pdfdoc::orderly(all),
        f.pages == seq![page],
    ensures
        ({
            let now = pdfdoc::with_font(all, f, Some(page));
            &&& exists|i: int|
                0 <= i < now.len() && (#[trigger] now[i]).name == f.name && now[i].pages.contains(
                    page,
                ) && (f.embedded ==> now[i].embedded)
            &&& 0 <= j < all.len() && all[j].name != f.name ==> now.contains(all[j])
            &&& 0 <= j < all.len() && all[j].name == f.name ==> exists|i: int|
                0 <= i < now.len() && (#[trigger] now[i]).name == f.name && (all[j].embedded
                    ==> now[i].embedded) && (forall|q: usize| #[trigger]
                    all[j].pages.contains(q) ==> now[i].pages.contains(q))
        }),
{
    let names = pdfdoc::font_names(all);
    let now = pdfdoc::with_font(all, f, Some(page));
    let p = order::place(names, f.name, all.len() as int);
    order::lemma_ascending_place(names, f.name);
    if p > 0 && all[p - 1].name == f.name {
        let own = now[p - 1];
        let old = all[p - 1];
        assert(own == pdfdoc::seen_again(old, f.embedded, Some(page)));
        lemma_with_page(old.pages, page);
        if 0 <= j < all.len() {
            if all[j].name == f.name {
                assert(names[j] == f.name);
                order::lemma_ascending_at(names, j);
                assert(j == p - 1);
            } else {
                assert(now[j] == all[j]);
            }
        }
    } else {
        assert(now[p] == f);
        assert(f.pages[0] == page);
        if 0 <= j < all.len() {
            if all[j].name == f.name {
                assert(names[j] == f.name);
                order::lemma_ascending_at(names, j);
                assert(false);
            } else if j < p {
                assert(now[j] == all[j]);
            } else {
                assert(now[j + 1] == all[j]);
            }
        }
    }
}

pub proof fn lemma_with_page(pages: Seq<usize>, p: usize)
    ensures
        pdfdoc::with_page(pages, p).contains(p),
        forall|q: usize| #[trigger]
            pages.contains(q) ==> pdfdoc::with_page(pages, p).contains(q),
{
    let now = pdfdoc::with_page(pages, p);
    if !pages.contains(p) {
        pdfdoc::lemma_page_place(pages, p, pages.len() as int);
        let k = pdfdoc::page_place(pages, p, pages.len() as int);
        assert(now[k] == p);
        assert forall|q: usize| #[trigger] pages.contains(q) implies now.contains(q) by {
            let j = choose|j: int| 0 <= j < pages.len() && pages[j] == q;
            if j < k {
                assert(now[j] == q);
            } else {
                assert(now[j + 1] == q);
            }
        }
    }
}

// ---------------------------------------------------------------------------
// Styles
// ---------------------------------------------------------------------------

/// The statements of a style stand behind the first brace of a Graphviz source, so that they
/// hold for all that follows; the default style adds none.
pub proof fn law_style_stands_behind_the_brace(a: Seq<char>, b: Seq<char>, style: DiagramStyle)
    requires
        !a.contains('{'),
    ensures
        ({
            let src = a + seq!['{'] + b;
            let out = style::dot_styled(src, style);
            match style::palette_of(style) {
                Some(p) => out == a + seq!['{', '\n'] + style::dot_statements(p) + b,
                None => out == src,
            }
        }),
{
    let src = a + seq!['{'] + b;
    let n = a.len() as int;
    assert forall|j: int| 0 <= j < n implies #[trigger] src[j] != '{' by {
        assert(src[j] == a[j]);
        assert(a.contains(a[j]));
    }
    assert(src[n] == '{');
    lemma_first(src, '{', 0, n);
    reveal_strlit("\n");
    assert("\n"@ =~= seq!['\n']);
    if let Some(p) = style::palette_of(style) {
        assert(src.take(n + 1) =~= a + seq!['{']);
        assert(src.skip(n + 1) =~= b);
        assert(style::dot_styled(src, style) =~= a + seq!['{', '\n'] + style::dot_statements(p)
            + b);
    }
}

// ---------------------------------------------------------------------------
// Reports
// ---------------------------------------------------------------------------

/// A line of the breakdown: two spaces, a label, dots and a number.
pub open spec fn counted(label: Seq<char>, dots: nat, words: nat) -> Seq<char> {
    seq![' ', ' '] + label + Seq::new(dots, |i: int| '.') + number::decimal(words) + seq!['\n']
}

proof fn lemma_dots(n: nat)
    ensures
        text::repeat("."@, n) == Seq::new(n, |i: int| '.'),
    decreases n,
{
    reveal_strlit(".");
    if n > 0 {
        lemma_dots((n - 1) as nat);
    }
    assert(text::repeat("."@, n) =~= Seq::new(n, |i: int| '.'));
}

proof fn lemma_counted(label: Seq<char>, words: nat)
    ensures
        exists|dots: nat| stats::stat_line(label, words) == #[trigger] counted(label, dots, words),
{
    reveal_strlit("  ");
    reveal_strlit("\n");
    assert("  "@ =~= seq![' ', ' ']);
    assert("\n"@ =~= seq!['\n']);
    let n = label.len() + number::decimal(words).len();
    let dots: nat = if n < stats::WIDTH {
        (stats::WIDTH - n) as nat
    } else {
        0
    };
    lemma_dots(dots);
    assert(stats::stat_line(label, words) =~= counted(label, dots, words));
}

proof fn lemma_stat_lines(s: Seq<StatView>, by: ByMode, k: int, i: int)
    requires
        0 <= i < k <= s.len(),
    ensures
        exists|x: Seq<char>, y: Seq<char>|
            stats::stat_lines(s, by, k) == #[trigger] (x + stats::stat_line(
                stats::stat_label(s[i], by),
                s[i].words,
            ) + y),
    decreases k,
{
    let before = stats::stat_lines(s, by, k - 1);
    let own = stats::stat_line(stats::stat_label(s[i], by), s[i].words);
    if i < k - 1 {
        lemma_stat_lines(s, by, k - 1, i);
        let (x, y) = choose|x: Seq<char>, y: Seq<char>| before == #[trigger] (x + own + y);
        let z = y + stats::stat_line(stats::stat_label(s[k - 1], by), s[k - 1].words);
        assert(stats::stat_lines(s, by, k) =~= x + own + z);
    } else {
        assert(stats::stat_lines(s, by, k) =~= before + own + Seq::<char>::empty());
    }
}

/// The breakdown of words has a line for every section or file, with its number of words.
pub proof fn law_every_section_is_counted(
    document: Seq<char>,
    preamble: nat,
    s: Seq<StatView>,
    total: nat,
    by: ByMode,
    i: int,
)
    requires
        0 <= i < s.len(),
    ensures
        exists|x: Seq<char>, dots: nat, y: Seq<char>|
            stats::report_text(document, preamble, s, total, by) == #[trigger] (x + counted(
                stats::stat_label(s[i], by),
                dots,
                s[i].words,
            ) + y),
{
    let label = stats::stat_label(s[i], by);
    lemma_counted(label, s[i].words);
    let dots = choose|dots: nat|
        stats::stat_line(label, s[i].words) == #[trigger] counted(label, dots, s[i].words);
    let own = counted(label, dots, s[i].words);
    lemma_stat_lines(s, by, s.len() as int, i);
    let all = stats::stat_lines(s, by, s.len() as int);
    let (x, y) = choose|x: Seq<char>, y: Seq<char>| all == #[trigger] (x + own + y);
    let head = document + "\n"@ + (if preamble > 0 {
        stats::stat_line("preamble"@, preamble)
    } else {
        Seq::empty()
    });
    let tail = stats::stat_line("Total"@, total);
    assert(stats::report_text(document, preamble, s, total, by) == head + all + tail);
    crate::commands::outcomes::lemma_around(head, x, own, y, tail);
}

/// Every section of an outline has its line, indented by its level.
pub proof fn law_every_section_is_shown(s: Seq<OutlineView>, k: int, i: int)
    requires
        0 <= i < k <= s.len(),
    ensures
        exists|x: Seq<char>, y: Seq<char>|
            outline::section_lines(s, k) == #[trigger] (x + indented(s[i]) + y),
    decreases k,
{
    let before = outline::section_lines(s, k - 1);
    let own = indented(s[i]);
    if i < k - 1 {
        law_every_section_is_shown(s, k - 1, i);
        let (x, y) = choose|x: Seq<char>, y: Seq<char>| before == #[trigger] (x + own + y);
        let z = y + outline::section_line(s[k - 1]);
        assert(outline::section_lines(s, k) =~= x + own + z);
    } else {
        reveal_strlit("  ");
        reveal_strlit("\n");
        assert("  "@ =~= seq![' ', ' ']);
        assert("\n"@ =~= seq!['\n']);
        lemma_indent(s[i].level as nat);
        assert(outline::section_line(s[i]) =~= own);
        assert(outline::section_lines(s, k) =~= before + own + Seq::<char>::empty());
    }
}

/// A section: two spaces for each level, its number, two spaces and its title.
pub open spec fn indented(s: OutlineView) -> Seq<char> {
    Seq::new(2 * s.level as nat, |i: int| ' ') + s.number + seq![' ', ' '] + s.title + seq!['\n']
}

proof fn lemma_indent(n: nat)
    ensures
        text::repeat("  "@, n) == Seq::new(2 * n, |i: int| ' '),
    decreases n,
{
    reveal_strlit("  ");
    if n > 0 {
        lemma_indent((n - 1) as nat);
    }
    assert(text::repeat("  "@, n) =~= Seq::new(2 * n, |i: int| ' '));
}

} // verus!
