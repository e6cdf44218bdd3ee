//! The `pdf` command: what a compiled document says to its readers.

use vstd::prelude::*;

use crate::commands::build;
use crate::commands::outline::{self, OutlineSection, OutlineView};
use crate::linter::{self, FindingView, LintFinding, Severity};
use crate::number;
use crate::paths;
use crate::pdftext::{self, FontView, InfoView, PdfFontInfo, PdfInfo};
use crate::text::{self, chars_of};

verus! {

/// What is asked of a compiled document.
#[derive(Debug, Clone, Copy, PartialEq, Eq, Structural)]
pub enum PdfAction {
    /// Its text; `raw` keeps ligatures.
    Text { raw: bool },
    /// Pages, fonts and metadata.
    Info,
    /// Which section opens each page.
    Pages,
    /// Whether the words of the source appear.
    Check,
}

/// Where the compiled document of a project is.
pub fn compiled_pdf_path(root: &str, title: &str) -> (r: String)
    ensures
        r@ == paths::joined(root@, build::pdf_file(title@)),
{
    build::pdf_path(root, title)
}

/// The refusal where there is no compiled document.
pub open spec fn no_pdf(path: Seq<char>) -> Seq<char> {
    "No compiled PDF at "@ + path + " — run `texforge build` first"@
}

/// The path of the compiled document, given whether it exists.
pub fn require_pdf(root: &str, title: &str, exists: bool) -> (r: Result<String, String>)
    ensures
        match r {
            Ok(p) => exists && p@ == paths::joined(root@, build::pdf_file(title@)),
            Err(m) => !exists && m@ == no_pdf(paths::joined(root@, build::pdf_file(title@))),
        },
{
    let path = build::pdf_path(root, title);
    if exists {
        Ok(path)
    } else {
        Err(text::cat3("No compiled PDF at ", path.as_str(), " — run `texforge build` first"))
    }
}

/// The text of a document, given what was extracted from it. It always ends a line.
pub open spec fn shown_text(extracted: Seq<char>, raw: bool) -> Seq<char> {
    let t = if raw {
        extracted
    } else {
        pdftext::normalized(extracted)
    };
    if t.len() > 0 && t.last() == '\n' {
        t
    } else {
        t + "\n"@
    }
}

/// The text of a document, given what was extracted from it. It always ends a line.
pub fn text_report(extracted: &str, raw: bool) -> (r: String)
    ensures
        r@ == shown_text(extracted@, raw),
{
    let t = if raw {
        text::lit(extracted)
    } else {
        pdftext::normalize_pdf_text(extracted)
    };
    let c = chars_of(t.as_str());
    let n: usize = c.len();
    if n > 0 && c[n - 1] == '\n' {
        t
    } else {
        text::cat2(t.as_str(), "\n")
    }
}

// ---------------------------------------------------------------------------
// Pages, fonts and metadata
// ---------------------------------------------------------------------------

/// The line on a font.
pub open spec fn font_line(f: FontView) -> Seq<char> {
    "  name="@ + f.name + " subtype="@ + f.subtype + " embedded="@ + (if f.embedded {
        "true"@
    } else {
        "false"@
    }) + "\n"@
}

/// The lines on the first `k` fonts.
pub open spec fn font_lines(fonts: Seq<FontView>, k: int) -> Seq<char>
    decreases k,
{
    if k <= 0 || k > fonts.len() {
        Seq::empty()
    } else {
        font_lines(fonts, k - 1) + font_line(fonts[k - 1])
    }
}

/// The line on an entry of the metadata.
pub open spec fn meta_line(key: Seq<char>, value: Option<Seq<char>>) -> Seq<char> {
    "  "@ + key + "="@ + (match value {
        Some(v) => v,
        None => Seq::empty(),
    }) + "\n"@
}

/// The report on pages, fonts and metadata.
pub open spec fn info_text(info: InfoView) -> Seq<char> {
    "pages: "@ + number::decimal(info.pages) + "\nfonts: "@ + number::decimal(info.fonts.len())
        + "\n"@ + font_lines(info.fonts, info.fonts.len() as int) + "metadata:\n"@ + meta_line(
        "title"@,
        info.metadata.title,
    ) + meta_line("author"@, info.metadata.author) + meta_line("subject"@, info.metadata.subject)
        + meta_line("keywords"@, info.metadata.keywords) + meta_line(
        "creator"@,
        info.metadata.creator,
    ) + meta_line("producer"@, info.metadata.producer) + meta_line(
        "creation_date"@,
        info.metadata.creation_date,
    ) + meta_line("mod_date"@, info.metadata.mod_date)
}

fn describe_font(f: &PdfFontInfo) -> (r: String)
    ensures
        r@ == font_line(f@),
{
    let mut out = text::cat5(
        "  name=",
        f.name.as_str(),
        " subtype=",
        f.subtype.as_str(),
        " embedded=",
    );
    text::push(
        &mut out,
        if f.embedded {
            "true"
        } else {
            "false"
        },
    );
    text::push(&mut out, "\n");
    out
}

fn describe_fonts(fonts: &Vec<PdfFontInfo>) -> (r: String)
    ensures
        r@ == font_lines(pdftext::font_views(fonts@), fonts@.len() as int),
{
    let ghost all = pdftext::font_views(fonts@);
    let mut out = String::new();
    let mut k: usize = 0;
    assert(out@ =~= font_lines(all, 0));
    while k < fonts.len()
        invariant
            k <= fonts@.len(),
            all == pdftext::font_views(fonts@),
            out@ == font_lines(all, k as int),
        decreases fonts@.len() - k,
    {
        assert(all[k as int] == fonts@[k as int]@);
        text::push(&mut out, describe_font(&fonts[k]).as_str());
        k = k + 1;
    }
    out
}

fn push_meta(out: &mut String, key: &str, value: &Option<String>)
    ensures
        final(out)@ == old(out)@ + meta_line(key@, text::opt_text(*value)),
{
    let head = text::cat3("  ", key, "=");
    let line = match value {
        Some(v) => text::cat3(head.as_str(), v.as_str(), "\n"),
        None => {
            assert(head@ + Seq::<char>::empty() =~= head@);
            text::cat2(head.as_str(), "\n")
        },
    };
    text::push(out, line.as_str());
}

/// The report on pages, fonts and metadata.
pub fn info_report(info: &PdfInfo) -> (r: String)
    ensures
        r@ == info_text(info@),
{
    assert(pdftext::font_views(info.fonts@).len() == info.fonts@.len());
    let mut out = text::cat5(
        "pages: ",
        number::show_size(info.pages).as_str(),
        "\nfonts: ",
        number::show_size(info.fonts.len()).as_str(),
        "\n",
    );
    text::push(&mut out, describe_fonts(&info.fonts).as_str());
    text::push(&mut out, "metadata:\n");
    let m = &info.metadata;
    push_meta(&mut out, "title", &m.title);
    push_meta(&mut out, "author", &m.author);
    push_meta(&mut out, "subject", &m.subject);
    push_meta(&mut out, "keywords", &m.keywords);
    push_meta(&mut out, "creator", &m.creator);
    push_meta(&mut out, "producer", &m.producer);
    push_meta(&mut out, "creation_date", &m.creation_date);
    push_meta(&mut out, "mod_date", &m.mod_date);
    out
}

// ---------------------------------------------------------------------------
// Sections
// ---------------------------------------------------------------------------

/// The numbers and titles of sections.
pub open spec fn numbered(s: Seq<OutlineView>) -> Seq<(Seq<char>, Seq<char>)> {
    Seq::new(s.len(), |k: int| (s[k].number, s[k].title))
}

/// The numbers and titles of sections, for which the pages are searched.
pub fn section_titles(sections: &Vec<OutlineSection>) -> (r: Vec<(String, String)>)
    ensures
        pdftext::section_views(r@) == numbered(outline::outline_views(sections@)),
{
    let ghost all = numbered(outline::outline_views(sections@));
    let mut out: Vec<(String, String)> = Vec::new();
    let mut k: usize = 0;
    while k < sections.len()
        invariant
            k <= sections@.len(),
            all == numbered(outline::outline_views(sections@)),
            out@.len() == k,
            pdftext::section_views(out@) == all.take(k as int),
        decreases sections@.len() - k,
    {
        let s = &sections[k];
        let ghost before = pdftext::section_views(out@);
        out.push((text::lit(s.number.as_str()), text::lit(s.title.as_str())));
        assert(pdftext::section_views(out@) =~= before.push(all[k as int]));
        assert(all.take(k + 1) =~= all.take(k as int).push(all[k as int]));
        k = k + 1;
    }
    assert(all.take(k as int) =~= all);
    out
}

// ---------------------------------------------------------------------------
// The check
// ---------------------------------------------------------------------------

/// The lines on a warning.
pub open spec fn warning_text(f: FindingView) -> Seq<char> {
    "  WARNING ["@ + f.file + "]\n    "@ + f.message + "\n"@ + (match f.suggestion {
        Some(s) => "    suggestion: "@ + s + "\n"@,
        None => Seq::empty(),
    }) + "\n"@
}

/// The lines on the warnings among the first `k` findings.
pub open spec fn warning_texts(findings: Seq<FindingView>, k: int) -> Seq<char>
    decreases k,
{
    if k <= 0 || k > findings.len() {
        Seq::empty()
    } else if findings[k - 1].severity == Severity::Warning {
        warning_texts(findings, k - 1) + warning_text(findings[k - 1])
    } else {
        warning_texts(findings, k - 1)
    }
}

/// The report of the check.
pub open spec fn check_text(findings: Seq<FindingView>) -> Seq<char> {
    let n = findings.len() as int;
    if n == 0 {
        "  ◇ PDF check: fidelity, fonts, and metadata look good\n"@
    } else {
        "WARNINGS ("@ + number::decimal(
            crate::commands::check::count_of(findings, Severity::Warning, n),
        ) + ")\n"@ + warning_texts(findings, n)
    }
}

fn describe_warning(f: &LintFinding) -> (r: String)
    ensures
        r@ == warning_text(f@),
{
    let mut out = text::cat5("  WARNING [", f.file.as_str(), "]\n    ", f.message.as_str(), "\n");
    let ghost head = out@;
    match &f.suggestion {
        Some(s) => {
            text::push(&mut out, "    suggestion: ");
            text::push(&mut out, s.as_str());
            text::push(&mut out, "\n");
            assert(out@ =~= head + ("    suggestion: "@ + s@ + "\n"@));
        },
        None => {
            assert(out@ =~= head + Seq::<char>::empty());
        },
    }
    text::push(&mut out, "\n");
    out
}

/// The report of the check.
pub fn check_report(findings: &Vec<LintFinding>) -> (r: String)
    ensures
        r@ == check_text(linter::findings_view(findings@)),
{
    if findings.len() == 0 {
        return text::lit("  ◇ PDF check: fidelity, fonts, and metadata look good\n");
    }
    let ghost all = linter::findings_view(findings@);
    let n = crate::commands::check::count(findings, Severity::Warning);
    let head = text::cat3("WARNINGS (", number::show_size(n).as_str(), ")\n");
    let mut out = text::lit(head.as_str());
    let mut k: usize = 0;
    assert(head@ + warning_texts(all, 0) =~= head@);
    while k < findings.len()
        invariant
            k <= findings@.len(),
            all == linter::findings_view(findings@),
            out@ == head@ + warning_texts(all, k as int),
        decreases findings@.len() - k,
    {
        assert(all[k as int] == findings@[k as int]@);
        if findings[k].severity == Severity::Warning {
            let one = describe_warning(&findings[k]);
            text::push(&mut out, one.as_str());
            assert(out@ =~= head@ + (warning_texts(all, k as int) + one@));
        }
        k = k + 1;
    }
    out
}

} // verus!
