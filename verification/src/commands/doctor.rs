//! The `doctor` command: the state of everything the tool manages.
//!
//! It reports, and never installs, repairs or cleans anything.

use vstd::prelude::*;

use crate::chars;
use crate::linter::dictionary::{InstalledDictionary, InstalledView};
use crate::number;
use crate::paths;
use crate::size;
use crate::text::{self, chars_of, string_of};
use crate::wordset;

verus! {

broadcast use text::lemma_texts_push;

// ---------------------------------------------------------------------------
// The engine
// ---------------------------------------------------------------------------

/// The lines on the engine, given where it is and its version.
pub open spec fn tectonic_status(path: Option<Seq<char>>, version: Option<Seq<char>>) -> Seq<char> {
    match path {
        Some(p) => "  \u{2713} present: "@ + p + "\n    version: "@ + (match version {
            Some(v) => v,
            None => "(could not determine)"@,
        }) + "\n"@,
        None => "  \u{2717} not found\n"@,
    }
}

/// The lines on the engine, given where it is and its version, as far as they are known.
pub fn format_tectonic_status(found: Option<(&str, Option<&str>)>) -> (r: String)
    ensures
        r@ == match found {
            Some((p, v)) => tectonic_status(Some(p@), text::opt_str(v)),
            None => tectonic_status(None, None),
        },
{
    match found {
        Some((path, version)) => {
            let shown = match version {
                Some(v) => v,
                None => "(could not determine)",
            };
            text::cat5("  \u{2713} present: ", path, "\n    version: ", shown, "\n")
        },
        None => text::lit("  \u{2717} not found\n"),
    }
}

/// Whether a character can stand in a version number.
pub open spec fn in_version(c: char) -> bool {
    chars::is_digit(c) || c == '.'
}

/// Where the run of characters of a version number that stands at `i` ends.
pub open spec fn run_end(s: Seq<char>, i: int) -> int
    decreases s.len() - i,
{
    if 0 <= i < s.len() && in_version(s[i]) {
        run_end(s, i + 1)
    } else {
        i
    }
}

/// Whether a run is a version: it begins with a digit and has two dots at least.
pub open spec fn is_version(t: Seq<char>) -> bool {
    t.len() > 0 && chars::is_digit(t[0]) && text::count_char(t, '.') >= 2
}

/// The first version among the maximal runs of a text from `i` on.
pub open spec fn version_from(s: Seq<char>, i: int) -> Option<Seq<char>>
    decreases s.len() - i,
    via version_from_decreases
{
    if i < 0 || i >= s.len() {
        None
    } else if !in_version(s[i]) {
        version_from(s, i + 1)
    } else if is_version(s.subrange(i, run_end(s, i))) {
        Some(s.subrange(i, run_end(s, i)))
    } else {
        version_from(s, run_end(s, i))
    }
}

#[via_fn]
proof fn version_from_decreases(s: Seq<char>, i: int) {
    lemma_run_end(s, i);
}

proof fn lemma_run_end(s: Seq<char>, i: int)
    ensures
        run_end(s, i) >= i,
        0 <= i < s.len() && in_version(s[i]) ==> run_end(s, i) > i,
        i <= s.len() ==> run_end(s, i) <= s.len(),
    decreases s.len() - i,
{
    if 0 <= i < s.len() && in_version(s[i]) {
        lemma_run_end(s, i + 1);
    }
}

/// Pull the first `X.Y.Z`-shaped token out of arbitrary output.
pub fn parse_version(raw: &str) -> (r: Option<String>)
    ensures
        text::opt_text(r) == version_from(raw@, 0),
{
    let c = chars_of(raw);
    let n: usize = c.len();
    let mut i: usize = 0;
    while i < n
        invariant
            i <= n == c@.len(),
            c@ == raw@,
            version_from(raw@, 0) == version_from(raw@, i as int),
        decreases n - i,
    {
        if !(chars::digit(c[i]) || c[i] == '.') {
            i = i + 1;
            continue;
        }
        let mut j: usize = i;
        while j < n && (chars::digit(c[j]) || c[j] == '.')
            invariant
                i <= j <= n == c@.len(),
                run_end(c@, i as int) == run_end(c@, j as int),
            decreases n - j,
        {
            j = j + 1;
        }
        proof {
            lemma_run_end(c@, i as int);
        }
        let run = text::part(c.as_slice(), i, j);
        if chars::digit(run[0]) && text::count_ch(run, '.') >= 2 {
            return Some(string_of(run));
        }
        i = j;
    }
    None
}

/// The cache of the engine: where the engine is told to put it, else its own place in the
/// cache directory.
pub fn tectonic_cache_dir(set: Option<&str>, cache: Option<&str>) -> (r: Option<String>)
    ensures
        text::opt_text(r) == match (set, cache) {
            (Some(d), _) => Some(d@),
            (None, Some(c)) => Some(paths::joined(c@, "Tectonic"@)),
            (None, None) => None,
        },
{
    match (set, cache) {
        (Some(d), _) => Some(text::lit(d)),
        (None, Some(c)) => Some(paths::join(c, "Tectonic")),
        (None, None) => None,
    }
}

// ---------------------------------------------------------------------------
// The cache
// ---------------------------------------------------------------------------

/// The line where the place of the cache is not known.
pub const NO_CACHE: &'static str =
    "  \u{2717} could not determine cache location (no home directory)\n";

/// What lies in the cache of the engine: its bytes and its files.
#[derive(Debug, Clone, Copy)]
pub struct CacheStats {
    pub size: u64,
    pub count: usize,
}

/// The report on the cache.
pub open spec fn cache_report(dir: Option<Seq<char>>, stats: Option<CacheStats>) -> Seq<char> {
    "Cache\n"@ + match dir {
        None => NO_CACHE@,
        Some(d) => "  location: "@ + d + "\n"@ + match stats {
            None =>
                "  size: 0 B\n  entries: 0 (not created yet — run a build to populate it)\n"@,
            Some(s) => "  size: "@ + size::size_text(s.size as nat) + "\n  entries: "@
                + number::decimal(s.count as nat) + "\n"@,
        },
    }
}

/// The report on the cache, given what lies in it where it exists.
pub fn report_cache(dir: Option<&str>, stats: Option<CacheStats>) -> (r: String)
    ensures
        r@ == cache_report(text::opt_str(dir), stats),
{
    let d = match dir {
        None => {
            return text::cat2("Cache\n", NO_CACHE);
        },
        Some(d) => d,
    };
    let place = text::cat3("  location: ", d, "\n");
    let rest = match stats {
        None => text::lit(
            "  size: 0 B\n  entries: 0 (not created yet — run a build to populate it)\n",
        ),
        Some(s) => text::cat5(
            "  size: ",
            size::format_size(s.size).as_str(),
            "\n  entries: ",
            number::show_size(s.count).as_str(),
            "\n",
        ),
    };
    let body = text::cat2(place.as_str(), rest.as_str());
    text::cat2("Cache\n", body.as_str())
}

// ---------------------------------------------------------------------------
// Fonts
// ---------------------------------------------------------------------------

/// Whether an extension is that of a font program, in whatever case. Files that describe
/// spacing only are none.
pub open spec fn is_font_extension(ext: Seq<char>) -> bool {
    let e = chars::ascii_lower(ext);
    e == "otf"@ || e == "ttf"@ || e == "ttc"@ || e == "otc"@ || e == "pfb"@
}

/// What follows the last dot of a name; the name itself where it has none.
pub open spec fn behind_last_dot(name: Seq<char>) -> Seq<char> {
    match text::rfind_char(name, '.') {
        Some(k) => name.skip(k + 1),
        None => name,
    }
}

/// The font that a line of a manifest names first, if it is one.
pub open spec fn font_in(line: Seq<char>) -> Option<Seq<char>> {
    let words = text::words(line);
    if words.len() > 0 && is_font_extension(behind_last_dot(words[0])) {
        Some(words[0])
    } else {
        None
    }
}

/// The fonts that the lines of a manifest, from the `k`-th on, name.
pub open spec fn fonts_in(ls: Seq<Seq<char>>, k: int) -> Seq<Seq<char>>
    decreases ls.len() - k,
{
    if k < 0 || k >= ls.len() {
        Seq::empty()
    } else {
        match font_in(ls[k]) {
            Some(f) => seq![f] + fonts_in(ls, k + 1),
            None => fonts_in(ls, k + 1),
        }
    }
}

fn font_extension(ext: &[char]) -> (r: bool)
    ensures
        r == is_font_extension(ext@),
{
    let mut lower: Vec<char> = Vec::new();
    let mut i: usize = 0;
    while i < ext.len()
        invariant
            i <= ext@.len(),
            lower@ == chars::ascii_lower(ext@).take(i as int),
        decreases ext@.len() - i,
    {
        lower.push(chars::ascii_small(ext[i]));
        assert(lower@ =~= chars::ascii_lower(ext@).take(i + 1));
        i = i + 1;
    }
    assert(lower@ =~= chars::ascii_lower(ext@));
    let e = lower.as_slice();
    text::is_lit(e, "otf") || text::is_lit(e, "ttf") || text::is_lit(e, "ttc") || text::is_lit(
        e,
        "otc",
    ) || text::is_lit(e, "pfb")
}

fn first_font(line: &[char]) -> (r: Option<String>)
    ensures
        text::opt_text(r) == font_in(line@),
{
    let words = text::words_of(line);
    if words.len() == 0 {
        return None;
    }
    let name = words[0];
    assert(text::slices(words@)[0] == name@);
    let n: usize = name.len();
    proof {
        text::lemma_rfind_char_bounds(name@, '.', name@.len() as int);
    }
    let ext = match text::rfind_ch(name, '.') {
        Some(k) => text::from(name, k + 1),
        None => name,
    };
    if font_extension(ext) {
        Some(string_of(name))
    } else {
        None
    }
}

/// The fonts that a manifest names, in order, and each once. Each line is a file name, its
/// size and its hash.
pub fn extract_font_names(manifest: &str) -> (r: Vec<String>)
    ensures
        text::texts(r@) == wordset::sorted_distinct(fonts_in(text::lines(manifest@), 0)),
{
    let mut all: Vec<String> = Vec::new();
    collect_fonts(manifest, &mut all);
    assert(Seq::<Seq<char>>::empty() + fonts_in(text::lines(manifest@), 0) =~= fonts_in(
        text::lines(manifest@),
        0,
    ));
    wordset::distinct_sorted(&all)
}

fn collect_fonts(manifest: &str, out: &mut Vec<String>)
    ensures
        text::texts(final(out)@) == text::texts(old(out)@) + fonts_in(text::lines(manifest@), 0),
{
    let c = chars_of(manifest);
    let ls = text::lines_of(c.as_slice());
    let ghost all = text::slices(ls@);
    let ghost start = text::texts(out@);
    let mut k: usize = 0;
    while k < ls.len()
        invariant
            k <= ls@.len(),
            all == text::slices(ls@),
            text::texts(out@) + fonts_in(all, k as int) == start + fonts_in(all, 0),
        decreases ls@.len() - k,
    {
        assert(all[k as int] == ls@[k as int]@);
        if let Some(f) = first_font(ls[k]) {
            let ghost done = text::texts(out@);
            let ghost name = f@;
            out.push(f);
            assert(done + (seq![name] + fonts_in(all, k + 1)) =~= text::texts(out@) + fonts_in(
                all,
                k + 1,
            ));
        }
        k = k + 1;
    }
    assert(text::texts(out@) + fonts_in(all, k as int) =~= text::texts(out@));
}

/// The fonts that the first `k` manifests name.
pub open spec fn fonts_of(manifests: Seq<Seq<char>>, k: int) -> Seq<Seq<char>>
    decreases k,
{
    if k <= 0 || k > manifests.len() {
        Seq::empty()
    } else {
        fonts_of(manifests, k - 1) + fonts_in(text::lines(manifests[k - 1]), 0)
    }
}

/// The fonts that manifests name, in order, and each once.
pub fn fonts_from_cache(manifests: &Vec<String>) -> (r: Vec<String>)
    ensures
        text::texts(r@) == wordset::sorted_distinct(
            fonts_of(text::texts(manifests@), manifests@.len() as int),
        ),
{
    let ghost all = text::texts(manifests@);
    let mut out: Vec<String> = Vec::new();
    let mut k: usize = 0;
    assert(text::texts(out@) =~= fonts_of(all, 0));
    while k < manifests.len()
        invariant
            k <= manifests@.len(),
            all == text::texts(manifests@),
            text::texts(out@) == fonts_of(all, k as int),
        decreases manifests@.len() - k,
    {
        assert(all[k as int] == manifests@[k as int]@);
        collect_fonts(manifests[k].as_str(), &mut out);
        k = k + 1;
    }
    wordset::distinct_sorted(&out)
}

/// How many fonts are shown by name.
pub const SHOWN_FONTS: usize = 20;

/// The first `k` fonts, each on a line.
pub open spec fn font_lines(fonts: Seq<Seq<char>>, k: int) -> Seq<char>
    decreases k,
{
    if k <= 0 || k > fonts.len() {
        Seq::empty()
    } else {
        font_lines(fonts, k - 1) + "    "@ + fonts[k - 1] + "\n"@
    }
}

/// The report on fonts: how many there are, and the first ones by name.
pub open spec fn fonts_report(known: bool, fonts: Seq<Seq<char>>) -> Seq<char> {
    if !known {
        "Fonts\n"@ + NO_CACHE@
    } else if fonts.len() == 0 {
        "Fonts\n  0 fonts available (no cached bundle manifest — build once to populate)\n"@
    } else {
        let shown = if fonts.len() > SHOWN_FONTS {
            SHOWN_FONTS as int
        } else {
            fonts.len() as int
        };
        "Fonts\n  "@ + number::decimal(fonts.len()) + " font file(s) available\n"@ + font_lines(
            fonts,
            shown,
        ) + if fonts.len() > SHOWN_FONTS {
            "    ... and "@ + number::decimal((fonts.len() - SHOWN_FONTS) as nat) + " more\n"@
        } else {
            Seq::empty()
        }
    }
}

/// The report on fonts, given those of the cache where its place is known.
pub fn report_fonts(known: bool, fonts: &Vec<String>) -> (r: String)
    ensures
        r@ == fonts_report(known, text::texts(fonts@)),
{
    if !known {
        return text::cat2("Fonts\n", NO_CACHE);
    }
    if fonts.len() == 0 {
        return text::lit(
            "Fonts\n  0 fonts available (no cached bundle manifest — build once to populate)\n",
        );
    }
    let ghost all = text::texts(fonts@);
    let n: usize = fonts.len();
    let shown: usize = if n > SHOWN_FONTS {
        SHOWN_FONTS
    } else {
        n
    };
    let head = text::cat3("Fonts\n  ", number::show_size(n).as_str(), " font file(s) available\n");
    let mut out = text::lit(head.as_str());
    let mut k: usize = 0;
    assert(head@ + font_lines(all, 0) =~= head@);
    while k < shown
        invariant
            k <= shown <= n == fonts@.len(),
            all == text::texts(fonts@),
            out@ == head@ + font_lines(all, k as int),
        decreases shown - k,
    {
        assert(all[k as int] == fonts@[k as int]@);
        let ghost before = font_lines(all, k as int);
        text::push(&mut out, "    ");
        text::push(&mut out, fonts[k].as_str());
        text::push(&mut out, "\n");
        assert(out@ =~= head@ + (before + "    "@ + all[k as int] + "\n"@));
        k = k + 1;
    }
    if n > SHOWN_FONTS {
        text::push(&mut out, "    ... and ");
        text::push(&mut out, number::show_size(n - SHOWN_FONTS).as_str());
        text::push(&mut out, " more\n");
        assert(out@ =~= fonts_report(known, all));
    } else {
        assert(out@ + Seq::<char>::empty() =~= out@);
    }
    out
}

// ---------------------------------------------------------------------------
// Dictionaries
// ---------------------------------------------------------------------------

/// A dictionary with what came of reading it.
#[derive(Debug)]
pub struct ReadDictionary {
    pub dictionary: InstalledDictionary,
    /// The word list, or why it cannot be read. Nothing is read of a Hunspell pair.
    pub content: Result<String, String>,
}

/// How many of the lines from the `k`-th on are not blank.
pub open spec fn filled_lines(ls: Seq<Seq<char>>, k: int) -> nat
    decreases ls.len() - k,
{
    if k < 0 || k >= ls.len() {
        0
    } else if text::trim(ls[k]).len() > 0 {
        1 + filled_lines(ls, k + 1)
    } else {
        filled_lines(ls, k + 1)
    }
}

/// The line on a dictionary.
pub open spec fn dictionary_line(d: InstalledView, content: Result<Seq<char>, Seq<char>>) -> Seq<
    char,
> {
    match d {
        InstalledView::Wordlist { lang, path } => match content {
            Ok(c) => "  "@ + lang + ": "@ + path + " ("@ + number::decimal(
                filled_lines(text::lines(c), 0),
            ) + " words)\n"@,
            Err(e) => "  "@ + lang + ": "@ + path + " (unreadable: "@ + e + ")\n"@,
        },
        InstalledView::Hunspell { lang, dic_path, aff_path } => "  "@ + lang
            + ": hunspell dictionary ("@ + dic_path + ", "@ + aff_path + ")\n"@,
    }
}

/// What came of reading a file.
pub open spec fn reading(r: Result<String, String>) -> Result<Seq<char>, Seq<char>> {
    match r {
        Ok(c) => Ok(c@),
        Err(e) => Err(e@),
    }
}

/// The lines on the first `k` dictionaries.
pub open spec fn dictionary_lines(v: Seq<ReadDictionary>, k: int) -> Seq<char>
    decreases k,
{
    if k <= 0 || k > v.len() {
        Seq::empty()
    } else {
        dictionary_lines(v, k - 1) + dictionary_line(v[k - 1].dictionary@, reading(v[k - 1].content))
    }
}

/// The report on dictionaries.
pub open spec fn dictionaries_report(v: Seq<ReadDictionary>) -> Seq<char> {
    if v.len() == 0 {
        "Dictionaries\n  none installed\n"@
    } else {
        "Dictionaries\n"@ + dictionary_lines(v, v.len() as int)
    }
}

fn count_filled(content: &str) -> (r: usize)
    ensures
        r == filled_lines(text::lines(content@), 0),
{
    let c = chars_of(content);
    let ls = text::lines_of(c.as_slice());
    let ghost all = text::slices(ls@);
    let size: usize = ls.len();
    let mut n: usize = 0;
    let mut k: usize = size;
    while k > 0
        invariant
            k <= size == ls@.len(),
            all == text::slices(ls@),
            n == filled_lines(all, k as int),
            n <= size - k,
        decreases k,
    {
        k = k - 1;
        assert(all[k as int] == ls@[k as int]@);
        if text::trimmed(ls[k]).len() > 0 {
            n = n + 1;
        }
    }
    n
}

fn describe_dictionary(d: &ReadDictionary) -> (r: String)
    ensures
        r@ == dictionary_line(d.dictionary@, reading(d.content)),
{
    match &d.dictionary {
        InstalledDictionary::Wordlist { lang, path } => {
            let mut out = text::cat4("  ", lang.as_str(), ": ", path.as_str());
            match &d.content {
                Ok(c) => {
                    text::push(&mut out, " (");
                    text::push(&mut out, number::show_size(count_filled(c.as_str())).as_str());
                    text::push(&mut out, " words)\n");
                },
                Err(e) => {
                    text::push(&mut out, " (unreadable: ");
                    text::push(&mut out, e.as_str());
                    text::push(&mut out, ")\n");
                },
            }
            out
        },
        InstalledDictionary::Hunspell { lang, dic_path, aff_path } => {
            let mut out = text::cat5(
                "  ",
                lang.as_str(),
                ": hunspell dictionary (",
                dic_path.as_str(),
                ", ",
            );
            text::push(&mut out, aff_path.as_str());
            text::push(&mut out, ")\n");
            out
        },
    }
}

/// The report on dictionaries.
pub fn report_dictionaries(dicts: &Vec<ReadDictionary>) -> (r: String)
    ensures
        r@ == dictionaries_report(dicts@),
{
    if dicts.len() == 0 {
        return text::lit("Dictionaries\n  none installed\n");
    }
    let head = text::lit("Dictionaries\n");
    let mut out = text::lit(head.as_str());
    let mut k: usize = 0;
    assert(head@ + dictionary_lines(dicts@, 0) =~= head@);
    while k < dicts.len()
        invariant
            k <= dicts@.len(),
            out@ == head@ + dictionary_lines(dicts@, k as int),
        decreases dicts@.len() - k,
    {
        let line = describe_dictionary(&dicts[k]);
        text::push(&mut out, line.as_str());
        assert(out@ =~= head@ + (dictionary_lines(dicts@, k as int) + line@));
        k = k + 1;
    }
    out
}

// ---------------------------------------------------------------------------
// The project
// ---------------------------------------------------------------------------

/// What the current directory holds.
#[derive(Debug)]
pub enum FoundProject {
    /// The current directory cannot be told.
    NoDirectory { fault: String },
    /// There is no configuration.
    Missing { dir: String },
    /// The configuration cannot be read.
    Broken { dir: String, fault: String },
    /// The project was loaded.
    Loaded { dir: String, title: String, entry: String },
}

/// The report on the project.
pub open spec fn project_report(found: FoundProject) -> Seq<char> {
    "Project\n"@ + match found {
        FoundProject::NoDirectory { fault } => "  \u{2717} could not determine current directory: "@
            + fault@ + "\n"@,
        FoundProject::Missing { dir } => "  \u{2717} not a texforge project (no project.toml in "@
            + dir@ + ")\n"@,
        FoundProject::Broken { dir, fault } => "  \u{2717} "@ + paths::joined(
            dir@,
            "project.toml"@,
        ) + " exists but failed to parse: "@ + fault@ + "\n"@,
        FoundProject::Loaded { dir, title, entry } => "  \u{2713} "@ + paths::joined(
            dir@,
            "project.toml"@,
        ) + "\n    title: "@ + title@ + "\n    entry: "@ + entry@ + "\n"@,
    }
}

/// The report on the project.
pub fn report_project(found: &FoundProject) -> (r: String)
    ensures
        r@ == project_report(*found),
{
    let body = match found {
        FoundProject::NoDirectory { fault } => text::cat3(
            "  \u{2717} could not determine current directory: ",
            fault.as_str(),
            "\n",
        ),
        FoundProject::Missing { dir } => text::cat3(
            "  \u{2717} not a texforge project (no project.toml in ",
            dir.as_str(),
            ")\n",
        ),
        FoundProject::Broken { dir, fault } => text::cat5(
            "  \u{2717} ",
            paths::join(dir.as_str(), "project.toml").as_str(),
            " exists but failed to parse: ",
            fault.as_str(),
            "\n",
        ),
        FoundProject::Loaded { dir, title, entry } => {
            let mut out = text::cat5(
                "  \u{2713} ",
                paths::join(dir.as_str(), "project.toml").as_str(),
                "\n    title: ",
                title.as_str(),
                "\n    entry: ",
            );
            text::push(&mut out, entry.as_str());
            text::push(&mut out, "\n");
            out
        },
    };
    text::cat2("Project\n", body.as_str())
}

/// Whether the command succeeds: without the engine no build can run.
pub fn verdict(found: bool) -> (r: Result<(), String>)
    ensures
        found ==> r is Ok,
        !found ==> r is Err && r->Err_0@ == "Tectonic is not present — builds cannot run"@,
{
    if found {
        Ok(())
    } else {
        Err(text::lit("Tectonic is not present — builds cannot run"))
    }
}

// ---------------------------------------------------------------------------
// Laws
// ---------------------------------------------------------------------------

proof fn lemma_version_from(s: Seq<char>, i: int)
    requires
        0 <= i,
        version_from(s, i) is Some,
    ensures
        is_version(version_from(s, i)->0),
    decreases s.len() - i,
{
    if i < s.len() {
        lemma_run_end(s, i);
        if !in_version(s[i]) {
            lemma_version_from(s, i + 1);
        } else if !is_version(s.subrange(i, run_end(s, i))) {
            lemma_version_from(s, run_end(s, i));
        }
    }
}

/// Whatever is taken for a version begins with a digit and has two dots at least.
pub proof fn law_versions_are_shaped(raw: Seq<char>)
    requires
        version_from(raw, 0) is Some,
    ensures
        is_version(version_from(raw, 0)->0),
{
    lemma_version_from(raw, 0);
}

} // verus!
