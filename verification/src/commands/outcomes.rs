//! What commands come to: when a check fails and what it reports, what is removed, which
//! names are refused, what a template becomes.

use vstd::prelude::*;

use super::check;
use super::doctor;
use super::new;
use super::spell;
use super::uninstall::{self, DataEntry, ItemView};
use crate::chars;
use crate::linter::{FindingView, Severity};
use crate::number;
use crate::paths;
use crate::pdfdoc;
use crate::text;
use crate::utils;
use crate::version::{self, VersionView};
use crate::version_checker::{self, ReleaseView};

verus! {

// ---------------------------------------------------------------------------
// Checking
// ---------------------------------------------------------------------------

proof fn lemma_count(findings: Seq<FindingView>, s: Severity, k: int)
    requires
        0 <= k <= findings.len(),
    ensures
        check::count_of(findings, s, k) > 0 <==> exists|i: int|
            0 <= i < k && (#[trigger] findings[i]).severity == s,
        check::count_of(findings, s, k) <= k,
    decreases k,
{
    if k > 0 {
        lemma_count(findings, s, k - 1);
        if findings[k - 1].severity == s {
            let f = findings[k - 1];
            assert(f.severity == s);
        }
    }
}

/// A check fails exactly where there is an error, or any finding at all and warnings are
/// denied. What is told as the number of issues is then not nothing.
pub proof fn law_a_check_fails_on_errors(findings: Seq<FindingView>, deny: bool)
    ensures
        check::fails(findings, deny) <==> exists|i: int|
            0 <= i < findings.len() && ((#[trigger] findings[i]).severity == Severity::Error
                || deny),
        check::fails(findings, deny) <==> check::issues(findings, deny) > 0,
{
    let n = findings.len() as int;
    lemma_count(findings, Severity::Error, n);
    lemma_count(findings, Severity::Warning, n);
    if deny && n > 0 {
        let f = findings[0];
        assert(f.severity == Severity::Error || f.severity == Severity::Warning);
    }
}

/// A finding in a report: its place, its message on a line of its own, and on another what is
/// suggested, if anything.
pub open spec fn reported(f: FindingView) -> Seq<char> {
    let place = seq!['['] + f.file + seq![':'] + number::decimal(f.line as nat) + seq![']'];
    place + "\n    "@ + f.message + "\n"@ + match f.suggestion {
        Some(s) => "    suggestion: "@ + s + "\n"@,
        None => Seq::empty(),
    }
}

proof fn lemma_finding_texts(findings: Seq<FindingView>, s: Severity, k: int, i: int)
    requires
        0 <= i < k <= findings.len(),
        findings[i].severity == s,
    ensures
        exists|x: Seq<char>, y: Seq<char>|
            check::finding_texts(findings, s, k) == #[trigger] (x + reported(findings[i]) + y),
    decreases k,
{
    let before = check::finding_texts(findings, s, k - 1);
    let f = findings[i];
    if i < k - 1 {
        lemma_finding_texts(findings, s, k - 1, i);
        let (x, y) = choose|x: Seq<char>, y: Seq<char>| before == #[trigger] (x + reported(f) + y);
        let z = if findings[k - 1].severity == s {
            y + check::finding_text(findings[k - 1])
        } else {
            y
        };
        assert(check::finding_texts(findings, s, k) =~= x + reported(f) + z);
    } else {
        reveal_strlit(" [");
        reveal_strlit(":");
        reveal_strlit("]\n    ");
        reveal_strlit("\n    ");
        assert(" ["@ =~= seq![' ', '[']);
        assert(":"@ =~= seq![':']);
        assert("]\n    "@ =~= seq![']'] + "\n    "@);
        let x = "  "@ + s.name() + seq![' '];
        assert(check::finding_text(f) =~= x + reported(f) + "\n"@);
        assert(check::finding_texts(findings, s, k) =~= (before + x) + reported(f) + "\n"@);
    }
}

pub proof fn lemma_around(
    a: Seq<char>,
    x: Seq<char>,
    m: Seq<char>,
    y: Seq<char>,
    b: Seq<char>,
)
    ensures
        a + (x + m + y) + b == (a + x) + m + (y + b),
{
    assert(a + (x + m + y) + b =~= (a + x) + m + (y + b));
}

proof fn lemma_severity_text(findings: Seq<FindingView>, i: int)
    requires
        0 <= i < findings.len(),
    ensures
        exists|x: Seq<char>, y: Seq<char>|
            check::severity_text(findings, findings[i].severity) == #[trigger] (x + reported(
                findings[i],
            ) + y),
{
    let n = findings.len() as int;
    let f = findings[i];
    let s = f.severity;
    lemma_count(findings, s, n);
    lemma_finding_texts(findings, s, n, i);
    let m = reported(f);
    let own = check::finding_texts(findings, s, n);
    let (x, y) = choose|x: Seq<char>, y: Seq<char>| own == #[trigger] (x + m + y);
    let head = s.name() + "S ("@ + number::decimal(check::count_of(findings, s, n)) + ")\n"@;
    lemma_around(head, x, m, y, Seq::empty());
    assert(head + own + Seq::<char>::empty() =~= head + own);
    assert(check::severity_text(findings, s) == (head + x) + m + (y + Seq::<char>::empty()));
}

/// The report on findings holds every one of them: errors and warnings, with place, message
/// and suggestion.
pub proof fn law_every_finding_is_reported(findings: Seq<FindingView>, i: int)
    requires
        0 <= i < findings.len(),
    ensures
        exists|x: Seq<char>, y: Seq<char>|
            check::findings_text(findings) == #[trigger] (x + reported(findings[i]) + y),
{
    lemma_severity_text(findings, i);
    let s = findings[i].severity;
    let m = reported(findings[i]);
    let own = check::severity_text(findings, s);
    let (x, y) = choose|x: Seq<char>, y: Seq<char>| own == #[trigger] (x + m + y);
    let errors = check::severity_text(findings, Severity::Error);
    let warnings = check::severity_text(findings, Severity::Warning);
    if s == Severity::Error {
        lemma_around("\n"@, x, m, y, warnings);
        assert(check::findings_text(findings) == ("\n"@ + x) + m + (y + warnings));
    } else {
        lemma_around("\n"@ + errors, x, m, y, Seq::empty());
        let all = "\n"@ + errors + warnings;
        assert(all + Seq::<char>::empty() =~= all);
        assert(check::findings_text(findings) == (("\n"@ + errors) + x) + m + (y
            + Seq::<char>::empty()));
    }
}

// ---------------------------------------------------------------------------
// Removing
// ---------------------------------------------------------------------------

proof fn lemma_removals(items: Seq<ItemView>, with: bool, k: int, j: int)
    requires
        0 <= k,
    ensures
        uninstall::removals(items, with, k).contains(j) <==> k <= j < items.len()
            && items[j].exists && (with || !items[j].is_spell_words),
    decreases items.len() - k,
{
    if k < items.len() {
        lemma_removals(items, with, k + 1, j);
        let rest = uninstall::removals(items, with, k + 1);
        let all = uninstall::removals(items, with, k);
        if uninstall::is_removable(items[k], with) {
            if rest.contains(j) {
                let m = choose|m: int| 0 <= m < rest.len() && rest[m] == j;
                assert(all[m + 1] == j);
            }
            if j == k {
                assert(all[0] == j);
            }
            if all.contains(j) {
                let m = choose|m: int| 0 <= m < all.len() && all[m] == j;
                if m > 0 {
                    assert(rest[m - 1] == j);
                }
            }
        }
    }
}

/// Everything of a plan that is there is removed, but for the personal dictionary where it is
/// not asked for.
pub proof fn law_all_that_is_there_is_removed(items: Seq<ItemView>, with: bool, j: int)
    ensures
        uninstall::removals(items, with, 0).contains(j) <==> 0 <= j < items.len()
            && items[j].exists && (with || !items[j].is_spell_words),
{
    lemma_removals(items, with, 0, j);
}

/// Everything that lies in the data directory is in the plan: what is not known by its name is
/// listed with its own name, its size and as there.
pub proof fn law_everything_is_planned(dir: Seq<char>, entries: Seq<DataEntry>, k: int, i: int)
    requires
        0 <= k <= i < entries.len(),
        entries[i].name@ != "bin"@,
        entries[i].name@ != "templates"@,
        entries[i].name@ != "dicts"@,
        entries[i].name@ != "spell-words"@,
    ensures
        exists|j: int|
            0 <= j < uninstall::other_items(dir, entries, k).len() && is_item_of(
                #[trigger] uninstall::other_items(dir, entries, k)[j],
                dir,
                entries[i],
            ),
    decreases i - k,
{
    let all = uninstall::other_items(dir, entries, k);
    let rest = uninstall::other_items(dir, entries, k + 1);
    if k < i {
        law_everything_is_planned(dir, entries, k + 1, i);
        let j = choose|j: int|
            0 <= j < rest.len() && is_item_of(#[trigger] rest[j], dir, entries[i]);
        if uninstall::is_known_name(entries[k].name@) {
            assert(is_item_of(all[j], dir, entries[i]));
        } else {
            assert(all[j + 1] == rest[j]);
        }
    } else {
        assert(is_item_of(all[0], dir, entries[i]));
    }
}

/// Whether an item of a plan is an entry of the data directory.
pub open spec fn is_item_of(x: ItemView, dir: Seq<char>, e: DataEntry) -> bool {
    &&& x.path == paths::joined(dir, e.name@)
    &&& x.exists
    &&& x.is_dir == e.is_dir
    &&& x.size == e.size
    &&& !x.is_spell_words
}

/// Whether a line of a whitelist holds one of the words, in whatever case; a comment holds
/// none.
pub open spec fn holds_one(line: Seq<char>, words: Seq<Seq<char>>) -> bool {
    let t = text::trim(line);
    &&& t.len() > 0
    &&& t[0] != '#'
    &&& exists|i: int|
        0 <= i < words.len() && chars::lowercase(#[trigger] words[i]) == chars::lowercase(t)
}

proof fn lemma_hit(line: Seq<char>, words: Seq<Seq<char>>)
    ensures
        spell::is_hit(line, spell::lowered(words)) == holds_one(line, words),
{
    let low = spell::lowered(words);
    let t = chars::lowercase(text::trim(line));
    if low.contains(t) {
        let i = choose|i: int| 0 <= i < low.len() && low[i] == t;
        assert(chars::lowercase(words[i]) == t);
    }
    if exists|i: int| 0 <= i < words.len() && chars::lowercase(#[trigger] words[i]) == t {
        let i = choose|i: int| 0 <= i < words.len() && chars::lowercase(#[trigger] words[i]) == t;
        assert(low[i] == t);
    }
}

/// The lines that hold none of the words.
pub open spec fn without(ls: Seq<Seq<char>>, words: Seq<Seq<char>>) -> Seq<Seq<char>>
    decreases ls.len(),
{
    if ls.len() == 0 {
        Seq::empty()
    } else if holds_one(ls.last(), words) {
        without(ls.drop_last(), words)
    } else {
        without(ls.drop_last(), words).push(ls.last())
    }
}

proof fn lemma_without_front(ls: Seq<Seq<char>>, words: Seq<Seq<char>>)
    requires
        ls.len() > 0,
    ensures
        without(ls, words) == (if holds_one(ls[0], words) {
            Seq::<Seq<char>>::empty()
        } else {
            seq![ls[0]]
        }) + without(ls.skip(1), words),
    decreases ls.len(),
{
    let own = if holds_one(ls[0], words) {
        Seq::<Seq<char>>::empty()
    } else {
        seq![ls[0]]
    };
    if ls.len() == 1 {
        assert(ls.drop_last() =~= Seq::<Seq<char>>::empty());
        assert(ls.skip(1) =~= Seq::<Seq<char>>::empty());
        assert(without(ls.drop_last(), words) =~= Seq::<Seq<char>>::empty());
        assert(without(ls.skip(1), words) =~= Seq::<Seq<char>>::empty());
        assert(without(ls, words) =~= own + without(ls.skip(1), words));
    } else {
        lemma_without_front(ls.drop_last(), words);
        assert(ls.drop_last().skip(1) =~= ls.skip(1).drop_last());
        assert(ls.skip(1).last() == ls.last());
        assert(without(ls, words) =~= own + without(ls.skip(1), words));
    }
}

proof fn lemma_kept(ls: Seq<Seq<char>>, words: Seq<Seq<char>>, k: int)
    requires
        0 <= k <= ls.len(),
    ensures
        spell::kept(ls, spell::lowered(words), k) == without(ls.skip(k), words),
    decreases ls.len() - k,
{
    if k < ls.len() {
        lemma_kept(ls, words, k + 1);
        lemma_without_front(ls.skip(k), words);
        assert(ls.skip(k).skip(1) =~= ls.skip(k + 1));
        lemma_hit(ls[k], words);
        assert(spell::kept(ls, spell::lowered(words), k) =~= without(ls.skip(k), words));
    } else {
        assert(ls.skip(k) =~= Seq::<Seq<char>>::empty());
    }
}

/// Removing words from a whitelist takes their lines out and leaves all other lines, comments
/// among them, as they are and in order.
pub proof fn law_other_lines_stay(content: Seq<char>, words: Seq<Seq<char>>)
    ensures
        ({
            let ls = text::lines(content);
            let rest = without(ls, words);
            &&& rest.len() == ls.len() ==> spell::after_remove(content, words) == content
            &&& rest.len() != ls.len() ==> spell::after_remove(content, words) == text::join(
                rest,
                "\n"@,
            ) || spell::after_remove(content, words) == text::join(rest, "\n"@) + "\n"@
        }),
{
    let ls = text::lines(content);
    lemma_kept(ls, words, 0);
    assert(ls.skip(0) =~= ls);
}

// ---------------------------------------------------------------------------
// Making
// ---------------------------------------------------------------------------

/// Whether a character cannot stand in the name of a project.
pub open spec fn is_barred(c: char) -> bool {
    "/\\ @#$!&|;`\"'*?"@.contains(c)
}

proof fn lemma_barred(c: char)
    ensures
        is_barred(c) <==> c == '/' || c == '\\' || c == ' ' || new::is_refused(c),
{
    let all = "/\\ @#$!&|;`\"'*?"@;
    reveal_strlit("/\\ @#$!&|;`\"'*?");
    assert(all[0] == '/' && all[1] == '\\' && all[2] == ' ' && all[3] == '@' && all[4] == '#'
        && all[5] == '$' && all[6] == '!' && all[7] == '&' && all[8] == '|' && all[9] == ';'
        && all[10] == '`' && all[11] == '"' && all[12] == '\'' && all[13] == '*' && all[14] == '?');
    if all.contains(c) {
        let i = choose|i: int| 0 <= i < all.len() && all[i] == c;
        assert(0 <= i < 15);
    }
}

proof fn lemma_first_refused(name: Seq<char>, k: int)
    requires
        0 <= k,
    ensures
        new::first_refused(name, k) is Some <==> exists|i: int|
            k <= i < name.len() && new::is_refused(#[trigger] name[i]),
    decreases name.len() - k,
{
    if k < name.len() {
        lemma_first_refused(name, k + 1);
        if new::is_refused(name[k]) {
            let c = name[k];
            assert(new::is_refused(c));
        }
    }
}

proof fn lemma_one_component(name: Seq<char>)
    requires
        !name.contains('/'),
        name.len() > 0,
    ensures
        paths::has_parent(name) <==> name == seq!['.', '.'],
{
    reveal_strlit(".");
    reveal_strlit("..");
    assert(".."@ =~= seq!['.', '.']);
    let ps = paths::pieces(name);
    text::lemma_find_char_bounds(name, '/', 0);
    assert(ps =~= seq![name]);
    assert(!paths::is_absolute(name));
    let rest = paths::components_from(false, ps, 1);
    assert(rest =~= Seq::<paths::Component>::empty());
    let all = paths::components(name);
    match paths::component(false, 0, name) {
        Some(c) => {
            assert(all =~= seq![c]);
            assert(all[0] == c);
        },
        None => {
            assert(all =~= Seq::<paths::Component>::empty());
        },
    }
}

/// A name of a project is taken exactly where it is not blank, not `..`, and holds no
/// separator, no space and no sign that a shell or TeX gives a meaning.
pub proof fn law_names_of_projects(name: Seq<char>)
    ensures
        new::name_fault(name) is None <==> {
            &&& text::trim(name).len() > 0
            &&& name != seq!['.', '.']
            &&& forall|i: int| 0 <= i < name.len() ==> !is_barred(#[trigger] name[i])
        },
{
    lemma_first_refused(name, 0);
    assert forall|i: int| 0 <= i < name.len() implies (is_barred(#[trigger] name[i]) <==> name[i]
        == '/' || name[i] == '\\' || name[i] == ' ' || new::is_refused(name[i])) by {
        lemma_barred(name[i]);
    }
    text::lemma_trim_len(name);
    if new::name_fault(name) is None {
        lemma_one_component(name);
        assert forall|i: int| 0 <= i < name.len() implies !is_barred(#[trigger] name[i]) by {
            assert(name.contains(name[i]));
        }
    }
    if text::trim(name).len() > 0 && name != seq!['.', '.'] && forall|i: int|
        0 <= i < name.len() ==> !is_barred(#[trigger] name[i]) {
        assert(!name.contains('/') && !name.contains('\\') && !name.contains(' '));
        assert(name[0] != '/');
        lemma_one_component(name);
    }
}

/// The first placeholder of a value gives way to the value, and the rest is filled in the
/// same way.
pub proof fn law_placeholders_are_filled(
    a: Seq<char>,
    key: Seq<char>,
    value: Seq<char>,
    b: Seq<char>,
)
    requires
        forall|j: int|
            0 <= j < a.len() ==> !#[trigger] text::matches_at(
                a + ("{{"@ + key + "}}"@) + b,
                j,
                "{{"@ + key + "}}"@,
            ),
    ensures
        new::substituted(a + ("{{"@ + key + "}}"@) + b, seq![(key, value)], 1) == a + value
            + new::substituted(b, seq![(key, value)], 1),
{
    let p = "{{"@ + key + "}}"@;
    let t = a + p + b;
    let k = a.len() as int;
    reveal_strlit("{{");
    assert(p.len() > 0);
    assert(t.subrange(k, k + p.len()) =~= p);
    crate::messages::lemma_found(t, p, 0, k);
    assert(t.take(k) =~= a);
    assert(t.skip(k + p.len()) =~= b);
    let values = seq![(key, value)];
    assert(values[0] == (key, value));
    assert(new::substituted(t, values, 0) == t);
    assert(new::substituted(b, values, 0) == b);
}

/// Every file of a template but its manifest is made in the project, under its path: a
/// `.tex` file with the values put in, any other as it is.
pub proof fn law_files_of_a_template_are_made(
    files: Seq<(Seq<char>, Seq<u8>)>,
    values: Seq<(Seq<char>, Seq<char>)>,
    k: int,
    i: int,
)
    requires
        0 <= k <= i < files.len(),
        files[i].0 != "template.toml"@,
    ensures
        exists|j: int|
            0 <= j < new::project_files_from(files, values, k).len() && is_made_of(
                #[trigger] new::project_files_from(files, values, k)[j],
                files[i],
                values,
            ),
    decreases i - k,
{
    let all = new::project_files_from(files, values, k);
    let rest = new::project_files_from(files, values, k + 1);
    if k < i {
        law_files_of_a_template_are_made(files, values, k + 1, i);
        let j = choose|j: int|
            0 <= j < rest.len() && is_made_of(#[trigger] rest[j], files[i], values);
        if files[k].0 == "template.toml"@ {
            assert(is_made_of(all[j], files[i], values));
        } else {
            assert(all[j + 1] == rest[j]);
        }
    } else {
        assert(is_made_of(all[0], files[i], values));
    }
}

/// Whether a file of a project is what one of a template becomes.
pub open spec fn is_made_of(
    f: (Seq<char>, Seq<u8>),
    from: (Seq<char>, Seq<u8>),
    values: Seq<(Seq<char>, Seq<char>)>,
) -> bool {
    &&& f.0 == from.0
    &&& !text::ends_with(from.0, ".tex"@) ==> f.1 == from.1
    &&& text::ends_with(from.0, ".tex"@) ==> f.1 == vstd::utf8::encode_utf8(
        new::substituted(pdfdoc::utf8_lossy(from.1), values, values.len() as int),
    )
}

// ---------------------------------------------------------------------------
// Finding
// ---------------------------------------------------------------------------

/// The sources of a kind are the files with its extension that do not lie in the directory
/// `build` of the root.
pub proof fn law_sources_are_found(
    files: Seq<Seq<char>>,
    root: Seq<char>,
    ext: Seq<char>,
    k: int,
    f: Seq<char>,
)
    requires
        0 <= k,
    ensures
        utils::source_files(files, root, ext, k).contains(f) <==> (exists|i: int|
            k <= i < files.len() && #[trigger] files[i] == f) && paths::extension(f) == Some(ext)
            && !paths::is_under(f, paths::joined(root, "build"@)),
    decreases files.len() - k,
{
    if k < files.len() {
        law_sources_are_found(files, root, ext, k + 1, f);
        let all = utils::source_files(files, root, ext, k);
        let rest = utils::source_files(files, root, ext, k + 1);
        if utils::is_source_file(files[k], root, ext) {
            if rest.contains(f) {
                let j = choose|j: int| 0 <= j < rest.len() && rest[j] == f;
                assert(all[j + 1] == f);
            }
            if files[k] == f {
                assert(all[0] == f);
            }
            if all.contains(f) {
                let j = choose|j: int| 0 <= j < all.len() && all[j] == f;
                if j > 0 {
                    assert(rest[j - 1] == f);
                }
            }
        }
    }
}

/// Whether a release is stable and its tag, without the leading `v`, names a version.
pub open spec fn is_stable(r: ReleaseView, v: VersionView) -> bool {
    &&& !r.draft
    &&& !r.prerelease
    &&& version::parsed_version(text::trim_start_char(r.tag_name, 'v')) == Some(v)
}

/// The latest stable release is the first of the list that is neither a draft nor a
/// prerelease and names a version.
pub proof fn law_latest_release(rs: Seq<ReleaseView>, k: int, i: int, v: VersionView)
    requires
        0 <= k <= i < rs.len(),
        is_stable(rs[i], v),
        forall|j: int, u: VersionView| k <= j < i ==> !#[trigger] is_stable(rs[j], u),
    ensures
        version_checker::first_published(rs, k) == Some(v),
    decreases i - k,
{
    if k < i {
        if let Some(u) = version_checker::published(rs[k]) {
            assert(!is_stable(rs[k], u));
        }
        law_latest_release(rs, k + 1, i, v);
    }
}

/// Where no release is stable, there is no latest one.
pub proof fn law_no_release(rs: Seq<ReleaseView>, k: int)
    requires
        0 <= k,
        forall|j: int, u: VersionView| k <= j < rs.len() ==> !#[trigger] is_stable(rs[j], u),
    ensures
        version_checker::first_published(rs, k) is None,
    decreases rs.len() - k,
{
    if k < rs.len() {
        if let Some(u) = version_checker::published(rs[k]) {
            assert(!is_stable(rs[k], u));
        }
        law_no_release(rs, k + 1);
    }
}

proof fn lemma_run(s: Seq<char>, i: int, e: int)
    requires
        0 <= i <= e <= s.len(),
        forall|j: int| i <= j < e ==> doctor::in_version(#[trigger] s[j]),
        e < s.len() ==> !doctor::in_version(s[e]),
    ensures
        doctor::run_end(s, i) == e,
    decreases e - i,
{
    if i < e {
        lemma_run(s, i + 1, e);
    }
}

/// The version in what a tool prints is the first row of digits and dots, where that begins
/// with a digit and has two dots.
pub proof fn law_version_is_found(s: Seq<char>, i: int, a: int, e: int)
    requires
        0 <= i <= a < e <= s.len(),
        forall|j: int| i <= j < a ==> !chars::is_digit(#[trigger] s[j]) && s[j] != '.',
        forall|j: int| a <= j < e ==> chars::is_digit(#[trigger] s[j]) || s[j] == '.',
        e < s.len() ==> !chars::is_digit(s[e]) && s[e] != '.',
        chars::is_digit(s[a]),
        text::count_char(s.subrange(a, e), '.') >= 2,
    ensures
        doctor::version_from(s, i) == Some(s.subrange(a, e)),
    decreases a - i,
{
    if i < a {
        assert(!chars::is_digit(s[i]));
        law_version_is_found(s, i + 1, a, e);
    } else {
        lemma_run(s, a, e);
        assert(s.subrange(a, e)[0] == s[a]);
    }
}

} // verus!
