//! References, environments and diagram blocks.

use vstd::prelude::*;

use super::{FindingView, LintFinding, Severity};
use crate::paths;
use crate::text::{self, chars_of, string_of};
use crate::texutil::{self, Source, SourceFile};
use crate::wordset::WordSet;

verus! {

broadcast use super::lemma_findings_push;

/// Whether there is something at a path.
pub open spec fn exists_at(tree: Seq<(Seq<char>, Option<Seq<char>>)>, p: Seq<char>) -> bool {
    !(texutil::source_at(tree, p) is Missing)
}

/// Whether there is something at a path.
pub fn there_is(tree: &Vec<SourceFile>, p: &str) -> (r: bool)
    ensures
        r == exists_at(texutil::tree_view(tree@), p@),
{
    match texutil::find_source(tree, p) {
        Source::Missing => false,
        _ => true,
    }
}

// ---------------------------------------------------------------------------
// References to files
// ---------------------------------------------------------------------------

/// `\command{arg} — file not found`.
pub open spec fn not_found(command: Seq<char>, arg: Seq<char>) -> Seq<char> {
    "\\"@ + command + "{"@ + arg + "} — file not found"@
}

fn say_not_found(command: &str, arg: &str) -> (r: String)
    ensures
        r@ == not_found(command@, arg@),
{
    text::cat5("\\", command, "{", arg, "} — file not found")
}

/// The findings about the `\input` targets from the `k`-th on that do not exist.
pub open spec fn input_findings(
    tree: Seq<(Seq<char>, Option<Seq<char>>)>,
    root: Seq<char>,
    rel: Seq<char>,
    line: int,
    args: Seq<Seq<char>>,
    k: int,
) -> Seq<FindingView>
    decreases args.len() - k,
{
    if k < 0 || k >= args.len() {
        Seq::empty()
    } else {
        let path = texutil::tex_path(root, args[k]);
        let rest = input_findings(tree, root, rel, line, args, k + 1);
        if exists_at(tree, path) {
            rest
        } else {
            seq![
                super::advice(
                    rel,
                    line,
                    Severity::Error,
                    not_found("input"@, args[k]),
                    "Create "@ + path,
                ),
            ] + rest
        }
    }
}

/// The findings about the files that a command names, from the `k`-th on, that do not
/// exist.
pub open spec fn file_findings(
    tree: Seq<(Seq<char>, Option<Seq<char>>)>,
    root: Seq<char>,
    rel: Seq<char>,
    line: int,
    command: Seq<char>,
    args: Seq<Seq<char>>,
    k: int,
) -> Seq<FindingView>
    decreases args.len() - k,
{
    if k < 0 || k >= args.len() {
        Seq::empty()
    } else {
        let rest = file_findings(tree, root, rel, line, command, args, k + 1);
        if exists_at(tree, paths::joined(root, args[k])) {
            rest
        } else {
            seq![super::remark(rel, line, Severity::Error, not_found(command, args[k]))] + rest
        }
    }
}

fn check_input_references(
    tree: &Vec<SourceFile>,
    root: &str,
    rel: &str,
    line: usize,
    content: &[char],
    out: &mut Vec<LintFinding>,
)
    ensures
        super::findings_view(final(out)@) == super::findings_view(old(out)@) + input_findings(
            texutil::tree_view(tree@),
            root@,
            rel@,
            line as int,
            texutil::commands_in(content@, "input"@),
            0,
        ),
{
    let ghost t = texutil::tree_view(tree@);
    let found = texutil::command_arguments(content, "input");
    let ghost args = text::slices(found@);
    let ghost before = super::findings_view(out@);
    let ghost whole = input_findings(t, root@, rel@, line as int, args, 0);
    let mut k: usize = 0;
    assert(super::findings_view(out@) + whole =~= before + whole);
    while k < found.len()
        invariant
            k <= found@.len(),
            args == text::slices(found@),
            t == texutil::tree_view(tree@),
            super::findings_view(out@) + input_findings(
                t,
                root@,
                rel@,
                line as int,
                args,
                k as int,
            ) == before + whole,
        decreases found@.len() - k,
    {
        let ghost done = super::findings_view(out@);
        assert(args[k as int] == found@[k as int]@);
        let arg = string_of(found[k]);
        let path = texutil::resolve_tex_path(root, arg.as_str());
        if !there_is(tree, path.as_str()) {
            let f = super::advise(
                rel,
                line,
                Severity::Error,
                say_not_found("input", arg.as_str()),
                text::cat2("Create ", path.as_str()),
            );
            let ghost rest = input_findings(t, root@, rel@, line as int, args, k + 1);
            assert(done + (seq![f@] + rest) =~= done.push(f@) + rest);
            out.push(f);
        }
        k = k + 1;
    }
    assert(super::findings_view(out@) + Seq::<FindingView>::empty() =~= super::findings_view(out@));
}

fn check_files(
    tree: &Vec<SourceFile>,
    root: &str,
    rel: &str,
    line: usize,
    command: &str,
    found: &Vec<&[char]>,
    out: &mut Vec<LintFinding>,
)
    ensures
        super::findings_view(final(out)@) == super::findings_view(old(out)@) + file_findings(
            texutil::tree_view(tree@),
            root@,
            rel@,
            line as int,
            command@,
            text::slices(found@),
            0,
        ),
{
    let ghost t = texutil::tree_view(tree@);
    let ghost args = text::slices(found@);
    let ghost before = super::findings_view(out@);
    let ghost whole = file_findings(t, root@, rel@, line as int, command@, args, 0);
    let mut k: usize = 0;
    assert(super::findings_view(out@) + whole =~= before + whole);
    while k < found.len()
        invariant
            k <= found@.len(),
            args == text::slices(found@),
            t == texutil::tree_view(tree@),
            super::findings_view(out@) + file_findings(
                t,
                root@,
                rel@,
                line as int,
                command@,
                args,
                k as int,
            ) == before + whole,
        decreases found@.len() - k,
    {
        let ghost done = super::findings_view(out@);
        assert(args[k as int] == found@[k as int]@);
        let arg = string_of(found[k]);
        let path = paths::join(root, arg.as_str());
        if !there_is(tree, path.as_str()) {
            let f = super::note(
                rel,
                line,
                Severity::Error,
                say_not_found(command, arg.as_str()),
            );
            let ghost rest = file_findings(t, root@, rel@, line as int, command@, args, k + 1);
            assert(done + (seq![f@] + rest) =~= done.push(f@) + rest);
            out.push(f);
        }
        k = k + 1;
    }
    assert(super::findings_view(out@) + Seq::<FindingView>::empty() =~= super::findings_view(out@));
}

/// What follows the braced group at the start of `s`, or nothing where there is none.
pub open spec fn after_brace(s: Seq<char>) -> Option<Seq<char>> {
    if s.len() > 0 && s[0] == '{' {
        match text::find_char(s, '}') {
            Some(k) => Some(s.skip(k + 1)),
            None => None,
        }
    } else {
        None
    }
}

/// The file arguments of `\inputminted{lang}{file}`, trimmed and not empty. An
/// occurrence that is not of this form ends the search.
pub open spec fn minted_files(s: Seq<char>) -> Seq<Seq<char>>
    decreases s.len(),
    via minted_files_decreases
{
    match text::find(s, "\\inputminted"@) {
        None => Seq::empty(),
        Some(k) => match texutil::after_option(s.skip(k + "\\inputminted"@.len())) {
            None => Seq::empty(),
            Some(lang) => match after_brace(lang) {
                None => Seq::empty(),
                Some(file) => match after_brace(file) {
                    None => Seq::empty(),
                    Some(rest) => {
                        let arg = text::trim(
                            file.subrange(1, text::find_char(file, '}')->0),
                        );
                        if arg.len() > 0 {
                            seq![arg] + minted_files(rest)
                        } else {
                            minted_files(rest)
                        }
                    },
                },
            },
        },
    }
}

proof fn lemma_after_brace(s: Seq<char>)
    ensures
        match after_brace(s) {
            Some(t) => t.len() < s.len() && 1 <= text::find_char(s, '}')->0 < s.len(),
            None => true,
        },
{
    text::lemma_find_char_bounds(s, '}', 0);
}

#[via_fn]
proof fn minted_files_decreases(s: Seq<char>) {
    text::lemma_find_bounds(s, "\\inputminted"@, 0);
    if let Some(k) = text::find(s, "\\inputminted"@) {
        let t = s.skip(k + "\\inputminted"@.len());
        text::lemma_find_char_bounds(t, ']', 0);
        if let Some(lang) = texutil::after_option(t) {
            assert(lang.len() <= t.len());
            lemma_after_brace(lang);
            if let Some(file) = after_brace(lang) {
                lemma_after_brace(file);
            }
        }
    }
}

fn skip_brace(s: &[char]) -> (r: Option<&[char]>)
    ensures
        match r {
            Some(t) => after_brace(s@) == Some(t@) && t@.len() < s@.len(),
            None => after_brace(s@) is None,
        },
{
    let n: usize = s.len();
    if n == 0 || s[0] != '{' {
        return None;
    }
    match text::find_ch(s, '}') {
        Some(k) => Some(text::from(s, k + 1)),
        None => None,
    }
}

/// The file arguments of `\inputminted{lang}{file}` in a line.
pub fn extract_inputminted_files<'a>(line: &'a [char]) -> (r: Vec<&'a [char]>)
    ensures
        text::slices(r@) == minted_files(line@),
{
    broadcast use text::lemma_slices_push;

    let pattern = chars_of("\\inputminted");
    let ghost all = minted_files(line@);
    let mut out: Vec<&[char]> = Vec::new();
    let mut search: &[char] = line;
    assert(text::slices(out@) + minted_files(search@) =~= all);
    loop
        invariant
            pattern@ == "\\inputminted"@,
            all == minted_files(line@),
            text::slices(out@) + minted_files(search@) == all,
        decreases search@.len(),
    {
        let ghost done = text::slices(out@);
        let n: usize = search.len();
        assert(n == search@.len());
        let k = match text::find_text(search, pattern.as_slice()) {
            Some(k) => k,
            None => {
                assert(done + minted_files(search@) =~= done);
                return out;
            },
        };
        let mut after: &[char] = text::from(search, k + pattern.len());
        if after.len() > 0 && after[0] == '[' {
            match text::find_ch(after, ']') {
                None => {
                    assert(done + minted_files(search@) =~= done);
                    return out;
                },
                Some(e) => {
                    after = text::from(after, e + 1);
                },
            }
        }
        assert(texutil::after_option(search@.skip(k + pattern@.len())) == Some(after@));
        let file = match skip_brace(after) {
            Some(f) => f,
            None => {
                assert(done + minted_files(search@) =~= done);
                return out;
            },
        };
        let rest = match skip_brace(file) {
            Some(r) => r,
            None => {
                assert(done + minted_files(search@) =~= done);
                return out;
            },
        };
        proof {
            lemma_after_brace(file@);
        }
        if let Some(end) = text::find_ch(file, '}') {
            let arg = text::trimmed(text::part(file, 1, end));
            if arg.len() > 0 {
                assert(done + (seq![arg@] + minted_files(rest@)) =~= done.push(arg@)
                    + minted_files(rest@));
                out.push(arg);
            }
        }
        search = rest;
    }
}

// ---------------------------------------------------------------------------
// Citations and labels
// ---------------------------------------------------------------------------

/// The keys of a comma-separated list from its `k`-th item on, trimmed and not empty.
pub open spec fn list_keys(items: Seq<Seq<char>>, k: int) -> Seq<Seq<char>>
    decreases items.len() - k,
{
    if k < 0 || k >= items.len() {
        Seq::empty()
    } else {
        let key = text::trim(items[k]);
        if key.len() > 0 {
            seq![key] + list_keys(items, k + 1)
        } else {
            list_keys(items, k + 1)
        }
    }
}

/// The keys of the arguments from the `k`-th on.
pub open spec fn keys_of(args: Seq<Seq<char>>, k: int) -> Seq<Seq<char>>
    decreases args.len() - k,
{
    if k < 0 || k >= args.len() {
        Seq::empty()
    } else {
        list_keys(text::split(args[k], ','), 0) + keys_of(args, k + 1)
    }
}

fn push_list_keys<'a>(arg: &'a [char], out: &mut Vec<&'a [char]>)
    ensures
        text::slices(final(out)@) == text::slices(old(out)@) + list_keys(
            text::split(arg@, ','),
            0,
        ),
{
    broadcast use text::lemma_slices_push;

    let items = text::split_on(arg, ',');
    let ghost all = text::split(arg@, ',');
    let ghost before = text::slices(out@);
    let mut k: usize = 0;
    while k < items.len()
        invariant
            k <= items@.len(),
            all == text::slices(items@),
            text::slices(out@) + list_keys(all, k as int) == before + list_keys(all, 0),
        decreases items@.len() - k,
    {
        assert(all[k as int] == items@[k as int]@);
        let ghost done = text::slices(out@);
        let key = text::trimmed(items[k]);
        if key.len() > 0 {
            assert(done + (seq![key@] + list_keys(all, k + 1)) =~= done.push(key@) + list_keys(
                all,
                k + 1,
            ));
            out.push(key);
        }
        k = k + 1;
    }
    assert(text::slices(out@) + Seq::<Seq<char>>::empty() =~= text::slices(out@));
}

/// The keys of comma-separated arguments, trimmed and not empty.
pub fn all_keys<'a>(args: &Vec<&'a [char]>) -> (r: Vec<&'a [char]>)
    ensures
        text::slices(r@) == keys_of(text::slices(args@), 0),
{
    let ghost all = text::slices(args@);
    let mut out: Vec<&'a [char]> = Vec::new();
    let mut k: usize = 0;
    assert(text::slices(out@) + keys_of(all, 0) =~= keys_of(all, 0));
    while k < args.len()
        invariant
            k <= args@.len(),
            all == text::slices(args@),
            text::slices(out@) + keys_of(all, k as int) == keys_of(all, 0),
        decreases args@.len() - k,
    {
        assert(all[k as int] == args@[k as int]@);
        let ghost done = text::slices(out@);
        let ghost here = list_keys(text::split(all[k as int], ','), 0);
        assert(done + (here + keys_of(all, k + 1)) =~= (done + here) + keys_of(all, k + 1));
        push_list_keys(args[k], &mut out);
        k = k + 1;
    }
    assert(text::slices(out@) + Seq::<Seq<char>>::empty() =~= text::slices(out@));
    out
}

/// The findings about the keys from the `k`-th on that are in no bibliography.
pub open spec fn cite_findings(
    rel: Seq<char>,
    line: int,
    keys: Seq<Seq<char>>,
    bib: Seq<Seq<char>>,
    k: int,
) -> Seq<FindingView>
    decreases keys.len() - k,
{
    if k < 0 || k >= keys.len() {
        Seq::empty()
    } else {
        let rest = cite_findings(rel, line, keys, bib, k + 1);
        if bib.contains(keys[k]) {
            rest
        } else {
            seq![
                super::remark(
                    rel,
                    line,
                    Severity::Error,
                    "\\cite{"@ + keys[k] + "} — key not found in .bib"@,
                ),
            ] + rest
        }
    }
}

fn check_cite_references(
    rel: &str,
    line: usize,
    content: &[char],
    bib: &WordSet,
    out: &mut Vec<LintFinding>,
)
    requires
        bib.wf(),
    ensures
        super::findings_view(final(out)@) == super::findings_view(old(out)@) + cite_findings(
            rel@,
            line as int,
            keys_of(texutil::commands_in(content@, "cite"@), 0),
            bib@,
            0,
        ),
{
    let found = texutil::command_arguments(content, "cite");
    let list = all_keys(&found);
    let ghost keys = text::slices(list@);
    let ghost before = super::findings_view(out@);
    let ghost whole = cite_findings(rel@, line as int, keys, bib@, 0);
    let mut k: usize = 0;
    assert(super::findings_view(out@) + whole =~= before + whole);
    while k < list.len()
        invariant
            k <= list@.len(),
            keys == text::slices(list@),
            bib.wf(),
            super::findings_view(out@) + cite_findings(rel@, line as int, keys, bib@, k as int)
                == before + whole,
        decreases list@.len() - k,
    {
        let ghost done = super::findings_view(out@);
        assert(keys[k as int] == list@[k as int]@);
        if !bib.has(list[k]) {
            let key = string_of(list[k]);
            let f = super::note(
                rel,
                line,
                Severity::Error,
                text::cat3("\\cite{", key.as_str(), "} — key not found in .bib"),
            );
            let ghost rest = cite_findings(rel@, line as int, keys, bib@, k + 1);
            assert(done + (seq![f@] + rest) =~= done.push(f@) + rest);
            out.push(f);
        }
        k = k + 1;
    }
    assert(super::findings_view(out@) + Seq::<FindingView>::empty() =~= super::findings_view(out@));
}

/// The findings about the references from the `k`-th on that name no label.
pub open spec fn ref_findings(
    rel: Seq<char>,
    line: int,
    args: Seq<Seq<char>>,
    labels: Seq<Seq<char>>,
    k: int,
) -> Seq<FindingView>
    decreases args.len() - k,
{
    if k < 0 || k >= args.len() {
        Seq::empty()
    } else {
        let rest = ref_findings(rel, line, args, labels, k + 1);
        if labels.contains(args[k]) {
            rest
        } else {
            seq![
                super::remark(
                    rel,
                    line,
                    Severity::Error,
                    "\\ref{"@ + args[k] + "} — no matching \\label found"@,
                ),
            ] + rest
        }
    }
}

fn check_ref_references(
    rel: &str,
    line: usize,
    content: &[char],
    labels: &WordSet,
    out: &mut Vec<LintFinding>,
)
    requires
        labels.wf(),
    ensures
        super::findings_view(final(out)@) == super::findings_view(old(out)@) + ref_findings(
            rel@,
            line as int,
            texutil::commands_in(content@, "ref"@),
            labels@,
            0,
        ),
{
    let found = texutil::command_arguments(content, "ref");
    let ghost args = text::slices(found@);
    let ghost before = super::findings_view(out@);
    let ghost whole = ref_findings(rel@, line as int, args, labels@, 0);
    let mut k: usize = 0;
    assert(super::findings_view(out@) + whole =~= before + whole);
    while k < found.len()
        invariant
            k <= found@.len(),
            args == text::slices(found@),
            labels.wf(),
            super::findings_view(out@) + ref_findings(rel@, line as int, args, labels@, k as int)
                == before + whole,
        decreases found@.len() - k,
    {
        let ghost done = super::findings_view(out@);
        assert(args[k as int] == found@[k as int]@);
        if !labels.has(found[k]) {
            let arg = string_of(found[k]);
            let f = super::note(
                rel,
                line,
                Severity::Error,
                text::cat3("\\ref{", arg.as_str(), "} — no matching \\label found"),
            );
            let ghost rest = ref_findings(rel@, line as int, args, labels@, k + 1);
            assert(done + (seq![f@] + rest) =~= done.push(f@) + rest);
            out.push(f);
        }
        k = k + 1;
    }
    assert(super::findings_view(out@) + Seq::<FindingView>::empty() =~= super::findings_view(out@));
}

/// What references are checked against.
pub struct Known {
    pub tree: Seq<(Seq<char>, Option<Seq<char>>)>,
    pub root: Seq<char>,
    /// The keys of the bibliography, where there is one.
    pub bib: Option<Seq<Seq<char>>>,
    pub labels: Seq<Seq<char>>,
}

/// The findings about the references in a line without its comment.
pub open spec fn line_findings(known: Known, rel: Seq<char>, n: int, line: Seq<char>) -> Seq<
    FindingView,
> {
    input_findings(known.tree, known.root, rel, n, texutil::commands_in(line, "input"@), 0)
        + file_findings(
        known.tree,
        known.root,
        rel,
        n,
        "includegraphics"@,
        texutil::commands_in(line, "includegraphics"@),
        0,
    ) + (match known.bib {
        Some(bib) => cite_findings(
            rel,
            n,
            keys_of(texutil::commands_in(line, "cite"@), 0),
            bib,
            0,
        ),
        None => Seq::empty(),
    }) + ref_findings(rel, n, texutil::commands_in(line, "ref"@), known.labels, 0) + file_findings(
        known.tree,
        known.root,
        rel,
        n,
        "lstinputlisting"@,
        texutil::commands_in(line, "lstinputlisting"@),
        0,
    ) + file_findings(
        known.tree,
        known.root,
        rel,
        n,
        "inputminted"@,
        minted_files(line),
        0,
    )
}

/// The findings about the references in the lines from the `k`-th on.
pub open spec fn reference_findings(
    known: Known,
    rel: Seq<char>,
    ls: Seq<Seq<char>>,
    k: int,
) -> Seq<FindingView>
    decreases ls.len() - k,
{
    if k < 0 || k >= ls.len() {
        Seq::empty()
    } else {
        line_findings(known, rel, k + 1, texutil::uncommented(ls[k])) + reference_findings(
            known,
            rel,
            ls,
            k + 1,
        )
    }
}

/// What references are checked against.
pub open spec fn known(
    tree: Seq<SourceFile>,
    root: Seq<char>,
    bib: Option<&WordSet>,
    labels: WordSet,
) -> Known {
    Known {
        tree: texutil::tree_view(tree),
        root,
        bib: match bib {
            Some(b) => Some(b@),
            None => None,
        },
        labels: labels@,
    }
}

fn check_line(
    tree: &Vec<SourceFile>,
    root: &str,
    rel: &str,
    n: usize,
    line: &[char],
    bib: Option<&WordSet>,
    labels: &WordSet,
    out: &mut Vec<LintFinding>,
)
    requires
        labels.wf(),
        bib matches Some(b) ==> b.wf(),
    ensures
        super::findings_view(final(out)@) == super::findings_view(old(out)@) + line_findings(
            known(tree@, root@, bib, *labels),
            rel@,
            n as int,
            line@,
        ),
{
    let ghost f0 = super::findings_view(out@);
    check_input_references(tree, root, rel, n, line, out);
    let ghost f1 = super::findings_view(out@);
    let graphics = texutil::command_arguments(line, "includegraphics");
    check_files(tree, root, rel, n, "includegraphics", &graphics, out);
    let ghost f2 = super::findings_view(out@);
    if let Some(b) = bib {
        check_cite_references(rel, n, line, b, out);
    }
    let ghost f3 = super::findings_view(out@);
    check_ref_references(rel, n, line, labels, out);
    let ghost f4 = super::findings_view(out@);
    let listings = texutil::command_arguments(line, "lstinputlisting");
    check_files(tree, root, rel, n, "lstinputlisting", &listings, out);
    let ghost f5 = super::findings_view(out@);
    let minted = extract_inputminted_files(line);
    check_files(tree, root, rel, n, "inputminted", &minted, out);
    proof {
        let k = known(tree@, root@, bib, *labels);
        let a = input_findings(
            k.tree,
            root@,
            rel@,
            n as int,
            texutil::commands_in(line@, "input"@),
            0,
        );
        let b = file_findings(
            k.tree,
            root@,
            rel@,
            n as int,
            "includegraphics"@,
            texutil::commands_in(line@, "includegraphics"@),
            0,
        );
        let c = match k.bib {
            Some(bib) => cite_findings(
                rel@,
                n as int,
                keys_of(texutil::commands_in(line@, "cite"@), 0),
                bib,
                0,
            ),
            None => Seq::empty(),
        };
        let d = ref_findings(rel@, n as int, texutil::commands_in(line@, "ref"@), k.labels, 0);
        let e = file_findings(
            k.tree,
            root@,
            rel@,
            n as int,
            "lstinputlisting"@,
            texutil::commands_in(line@, "lstinputlisting"@),
            0,
        );
        let f = file_findings(
            k.tree,
            root@,
            rel@,
            n as int,
            "inputminted"@,
            minted_files(line@),
            0,
        );
        assert(f1 == f0 + a);
        assert(f2 == f1 + b);
        assert(f3 =~= f2 + c);
        assert(f4 == f3 + d);
        assert(f5 == f4 + e);
        assert(f0 + a + b + c + d + e + f =~= f0 + (a + b + c + d + e + f));
    }
}

/// Check `\input`, `\includegraphics`, `\cite`, `\ref`, `\lstinputlisting` and
/// `\inputminted`. Citations are checked only where there is a bibliography.
pub fn check_references(
    tree: &Vec<SourceFile>,
    root: &str,
    rel: &str,
    content: &str,
    bib: Option<&WordSet>,
    labels: &WordSet,
    out: &mut Vec<LintFinding>,
)
    requires
        labels.wf(),
        bib matches Some(b) ==> b.wf(),
    ensures
        super::findings_view(final(out)@) == super::findings_view(old(out)@) + reference_findings(
            known(tree@, root@, bib, *labels),
            rel@,
            text::lines(content@),
            0,
        ),
{
    let c = chars_of(content);
    let ls = text::lines_of(c.as_slice());
    let ghost all = text::lines(content@);
    let ghost k0 = known(tree@, root@, bib, *labels);
    let ghost before = super::findings_view(out@);
    let ghost whole = reference_findings(k0, rel@, all, 0);
    let mut k: usize = 0;
    assert(super::findings_view(out@) + whole =~= before + whole);
    while k < ls.len()
        invariant
            k <= ls@.len(),
            all == text::slices(ls@),
            labels.wf(),
            bib matches Some(b) ==> b.wf(),
            k0 == known(tree@, root@, bib, *labels),
            super::findings_view(out@) + reference_findings(k0, rel@, all, k as int) == before
                + whole,
        decreases ls@.len() - k,
    {
        let ghost done = super::findings_view(out@);
        assert(all[k as int] == ls@[k as int]@);
        let line = texutil::without_comment(ls[k]);
        check_line(tree, root, rel, k + 1, line, bib, labels, out);
        let ghost here = line_findings(k0, rel@, k + 1, line@);
        let ghost rest = reference_findings(k0, rel@, all, k + 1);
        assert(done + (here + rest) =~= (done + here) + rest);
        k = k + 1;
    }
    assert(super::findings_view(out@) + Seq::<FindingView>::empty() =~= super::findings_view(out@));
}

// ---------------------------------------------------------------------------
// Environments
// ---------------------------------------------------------------------------

/// The environments that are open, each with the line where it begins, and the findings
/// so far.
#[verifier::ext_equal]
pub struct Nesting {
    pub open: Seq<(Seq<char>, int)>,
    pub findings: Seq<FindingView>,
}

/// The state after the `\end` of an environment: it must be the one opened last.
pub open spec fn after_end(s: Nesting, rel: Seq<char>, line: int, env: Seq<char>) -> Nesting {
    if s.open.len() == 0 {
        Nesting {
            findings: s.findings.push(
                super::remark(
                    rel,
                    line,
                    Severity::Error,
                    "\\end{"@ + env + "} without matching \\begin"@,
                ),
            ),
            ..s
        }
    } else if s.open.last().0 == env {
        Nesting { open: s.open.drop_last(), ..s }
    } else {
        Nesting {
            findings: s.findings.push(
                super::advice(
                    rel,
                    line,
                    Severity::Error,
                    "\\end{"@ + env + "} does not match \\begin{"@ + s.open.last().0 + "}"@,
                    "Expected \\end{"@ + s.open.last().0 + "}"@,
                ),
            ),
            ..s
        }
    }
}

/// The state after the `\end`s from the `k`-th on.
pub open spec fn after_ends(
    s: Nesting,
    rel: Seq<char>,
    line: int,
    ends: Seq<Seq<char>>,
    k: int,
) -> Nesting
    decreases ends.len() - k,
{
    if k < 0 || k >= ends.len() {
        s
    } else {
        after_ends(after_end(s, rel, line, ends[k]), rel, line, ends, k + 1)
    }
}

/// Environments that begin on one line.
pub open spec fn opened(envs: Seq<Seq<char>>, line: int) -> Seq<(Seq<char>, int)> {
    Seq::new(envs.len(), |k: int| (envs[k], line))
}

/// The state after a line: its `\begin`s, then its `\end`s. A comment line counts for
/// nothing.
pub open spec fn after_line(s: Nesting, rel: Seq<char>, n: int, line: Seq<char>) -> Nesting {
    let t = text::trim(line);
    if t.len() > 0 && t[0] == '%' {
        s
    } else {
        after_ends(
            Nesting { open: s.open + opened(texutil::commands_in(t, "begin"@), n), ..s },
            rel,
            n,
            texutil::commands_in(t, "end"@),
            0,
        )
    }
}

/// The state after the lines from the `k`-th on.
pub open spec fn after_lines(s: Nesting, rel: Seq<char>, ls: Seq<Seq<char>>, k: int) -> Nesting
    decreases ls.len() - k,
{
    if k < 0 || k >= ls.len() {
        s
    } else {
        after_lines(after_line(s, rel, k + 1, ls[k]), rel, ls, k + 1)
    }
}

/// The finding about an environment that is never closed.
pub open spec fn never_closed(rel: Seq<char>, open: (Seq<char>, int)) -> FindingView {
    super::advice(
        rel,
        open.1,
        Severity::Error,
        "\\begin{"@ + open.0 + "} never closed"@,
        "Add \\end{"@ + open.0 + "}"@,
    )
}

/// The findings about the environments of a file.
pub open spec fn environment_findings(rel: Seq<char>, content: Seq<char>) -> Seq<FindingView> {
    let s = after_lines(
        Nesting { open: Seq::empty(), findings: Seq::empty() },
        rel,
        text::lines(content),
        0,
    );
    s.findings + Seq::new(s.open.len(), |k: int| never_closed(rel, s.open[k]))
}

/// What open environments say.
spec fn open_views(v: Seq<(String, usize)>) -> Seq<(Seq<char>, int)> {
    Seq::new(v.len(), |k: int| (v[k].0@, v[k].1 as int))
}

fn close_environment(
    open: &mut Vec<(String, usize)>,
    out: &mut Vec<LintFinding>,
    rel: &str,
    line: usize,
    env: &str,
)
    ensures
        (Nesting {
            open: open_views(final(open)@),
            findings: super::findings_view(final(out)@),
        }) == after_end(
            Nesting { open: open_views(old(open)@), findings: super::findings_view(old(out)@) },
            rel@,
            line as int,
            env@,
        ),
{
    let ghost before = open_views(open@);
    let n: usize = open.len();
    if n == 0 {
        out.push(
            super::note(
                rel,
                line,
                Severity::Error,
                text::cat3("\\end{", env, "} without matching \\begin"),
            ),
        );
        return;
    }
    assert(before.last() == (open@[n - 1].0@, open@[n - 1].1 as int));
    if text::same_str(open[n - 1].0.as_str(), env) {
        let closed = open.pop();
        assert(open_views(open@) =~= before.drop_last());
    } else {
        let name = open[n - 1].0.as_str();
        out.push(
            super::advise(
                rel,
                line,
                Severity::Error,
                text::cat5("\\end{", env, "} does not match \\begin{", name, "}"),
                text::cat3("Expected \\end{", name, "}"),
            ),
        );
    }
}

/// Check for environments that do not match or are never closed.
pub fn check_environments(rel: &str, content: &str, out: &mut Vec<LintFinding>)
    ensures
        super::findings_view(final(out)@) == super::findings_view(old(out)@)
            + environment_findings(rel@, content@),
{
    let ghost before = super::findings_view(out@);
    let c = chars_of(content);
    let ls = text::lines_of(c.as_slice());
    let ghost all = text::lines(content@);
    let ghost start = Nesting { open: Seq::empty(), findings: Seq::empty() };
    let ghost last = after_lines(start, rel@, all, 0);
    let mut found: Vec<LintFinding> = Vec::new();
    let mut open: Vec<(String, usize)> = Vec::new();
    let mut k: usize = 0;
    assert((Nesting { open: open_views(open@), findings: super::findings_view(found@) }) =~= start);
    while k < ls.len()
        invariant
            k <= ls@.len(),
            all == text::slices(ls@),
            after_lines(
                Nesting { open: open_views(open@), findings: super::findings_view(found@) },
                rel@,
                all,
                k as int,
            ) == last,
        decreases ls@.len() - k,
    {
        assert(all[k as int] == ls@[k as int]@);
        let ghost s = Nesting { open: open_views(open@), findings: super::findings_view(found@) };
        let n: usize = k + 1;
        let t = text::trimmed(ls[k]);
        if !(t.len() > 0 && t[0] == '%') {
            let begins = texutil::command_arguments(t, "begin");
            let ghost bs = text::slices(begins@);
            let mut i: usize = 0;
            assert(s.open + opened(bs, n as int).take(0) =~= s.open);
            while i < begins.len()
                invariant
                    i <= begins@.len(),
                    bs == text::slices(begins@),
                    open_views(open@) == s.open + opened(bs, n as int).take(i as int),
                decreases begins@.len() - i,
            {
                let ghost prior = open_views(open@);
                open.push((string_of(begins[i]), n));
                assert(open_views(open@) =~= prior.push((begins@[i as int]@, n as int)));
                assert(s.open + opened(bs, n as int).take(i + 1) =~= (s.open + opened(
                    bs,
                    n as int,
                ).take(i as int)).push((bs[i as int], n as int)));
                i = i + 1;
            }
            assert(opened(bs, n as int).take(i as int) =~= opened(bs, n as int));
            let ends = texutil::command_arguments(t, "end");
            let ghost es = text::slices(ends@);
            let ghost target = after_line(s, rel@, n as int, all[k as int]);
            let mut j: usize = 0;
            while j < ends.len()
                invariant
                    j <= ends@.len(),
                    es == text::slices(ends@),
                    after_ends(
                        Nesting {
                            open: open_views(open@),
                            findings: super::findings_view(found@),
                        },
                        rel@,
                        n as int,
                        es,
                        j as int,
                    ) == target,
                decreases ends@.len() - j,
            {
                assert(es[j as int] == ends@[j as int]@);
                let env = string_of(ends[j]);
                close_environment(&mut open, &mut found, rel, n, env.as_str());
                j = j + 1;
            }
        }
        k = k + 1;
    }
    let ghost reports = Seq::new(last.open.len(), |i: int| never_closed(rel@, last.open[i]));
    let mut i: usize = 0;
    assert(last.findings + reports.take(0) =~= last.findings);
    while i < open.len()
        invariant
            i <= open@.len(),
            open_views(open@) == last.open,
            reports == Seq::new(last.open.len(), |m: int| never_closed(rel@, last.open[m])),
            super::findings_view(found@) == last.findings + reports.take(i as int),
        decreases open@.len() - i,
    {
        assert(last.open[i as int] == (open@[i as int].0@, open@[i as int].1 as int));
        assert(last.findings + reports.take(i + 1) =~= (last.findings + reports.take(
            i as int,
        )).push(reports[i as int]));
        let env = open[i].0.as_str();
        found.push(
            super::advise(
                rel,
                open[i].1,
                Severity::Error,
                text::cat3("\\begin{", env, "} never closed"),
                text::cat3("Add \\end{", env, "}"),
            ),
        );
        i = i + 1;
    }
    assert(reports.take(i as int) =~= reports);
    super::append(out, found);
}

// ---------------------------------------------------------------------------
// Diagram blocks
// ---------------------------------------------------------------------------

/// A text behind its first `k` line feeds: what begins with its `k`-th line.
pub open spec fn from_line(content: Seq<char>, k: int) -> Seq<char>
    decreases k,
{
    if k <= 0 {
        content
    } else {
        let before = from_line(content, k - 1);
        match text::find_char(before, '\n') {
            Some(i) => before.skip(i + 1),
            None => Seq::empty(),
        }
    }
}

/// Whether a diagram that begins on the `k`-th line is closed there or in what follows.
pub open spec fn is_closed(content: Seq<char>, env: Seq<char>, k: int) -> bool {
    text::contains(from_line(content, k), "\\end{"@ + env + "}"@)
}

/// The option text of a line: between its first `[` and its first `]`.
pub open spec fn option_text(line: Seq<char>) -> Option<Seq<char>> {
    match (text::find_char(line, '['), text::find_char(line, ']')) {
        (Some(a), Some(b)) => if a < b {
            Some(line.subrange(a + 1, b))
        } else {
            None
        },
        _ => None,
    }
}

/// The value of a `key=value` part whose key is `pos`.
pub open spec fn pos_value(part: Seq<char>) -> Option<Seq<char>> {
    match text::find_char(part, '=') {
        Some(k) => if text::trim(part.take(k)) == "pos"@ {
            Some(text::trim(part.skip(k + 1)))
        } else {
            None
        },
        None => None,
    }
}

/// A valid value of the option `pos`.
pub open spec fn is_valid_pos(v: Seq<char>) -> bool {
    v == "H"@ || v == "t"@ || v == "b"@ || v == "h"@ || v == "p"@
}

/// The findings about the option parts from the `k`-th on that set `pos` to a value that
/// is not valid.
pub open spec fn pos_findings(
    rel: Seq<char>,
    line: int,
    env: Seq<char>,
    parts: Seq<Seq<char>>,
    k: int,
) -> Seq<FindingView>
    decreases parts.len() - k,
{
    if k < 0 || k >= parts.len() {
        Seq::empty()
    } else {
        let rest = pos_findings(rel, line, env, parts, k + 1);
        match pos_value(parts[k]) {
            Some(v) => if is_valid_pos(v) {
                rest
            } else {
                seq![
                    super::advice(
                        rel,
                        line,
                        Severity::Error,
                        "\\begin{"@ + env + "} invalid pos='"@ + v
                            + "' — valid values: H, t, b, h, p"@,
                        "Use pos=H, pos=t, pos=b, pos=h, or pos=p"@,
                    ),
                ] + rest
            },
            None => rest,
        }
    }
}

/// The findings about a diagram that begins on the `k`-th line.
pub open spec fn block_findings(
    rel: Seq<char>,
    content: Seq<char>,
    env: Seq<char>,
    line: Seq<char>,
    k: int,
) -> Seq<FindingView> {
    (if is_closed(content, env, k) {
        Seq::empty()
    } else {
        seq![
            super::advice(
                rel,
                k + 1,
                Severity::Error,
                "\\begin{"@ + env + "} without matching \\end{"@ + env + "}"@,
                "Add \\end{"@ + env + "}"@,
            ),
        ]
    }) + match option_text(line) {
        Some(opts) => pos_findings(rel, k + 1, env, text::split(opts, ','), 0),
        None => Seq::empty(),
    }
}

/// The findings about the diagrams of one kind that begin on the lines from the `k`-th
/// on.
pub open spec fn diagram_findings(
    rel: Seq<char>,
    content: Seq<char>,
    env: Seq<char>,
    k: int,
) -> Seq<FindingView>
    decreases text::lines(content).len() - k,
{
    let ls = text::lines(content);
    if k < 0 || k >= ls.len() {
        Seq::empty()
    } else {
        let t = text::trim(ls[k]);
        let rest = diagram_findings(rel, content, env, k + 1);
        if text::starts_with(t, "\\begin{"@ + env + "}"@) {
            block_findings(rel, content, env, t, k) + rest
        } else {
            rest
        }
    }
}

fn valid_pos(v: &[char]) -> (r: bool)
    ensures
        r == is_valid_pos(v@),
{
    text::is_lit(v, "H") || text::is_lit(v, "t") || text::is_lit(v, "b") || text::is_lit(v, "h")
        || text::is_lit(v, "p")
}

fn read_pos(part: &[char]) -> (r: Option<&[char]>)
    ensures
        match r {
            Some(v) => pos_value(part@) == Some(v@),
            None => pos_value(part@) is None,
        },
{
    let n: usize = part.len();
    match text::find_ch(part, '=') {
        Some(k) => {
            let key = text::trimmed(text::upto(part, k));
            if text::is_lit(key, "pos") {
                Some(text::trimmed(text::from(part, k + 1)))
            } else {
                None
            }
        },
        None => None,
    }
}

/// Check whether the `pos` option of a diagram block is valid.
fn check_diagram_pos_option(
    rel: &str,
    line: &[char],
    env: &str,
    n: usize,
    out: &mut Vec<LintFinding>,
)
    ensures
        super::findings_view(final(out)@) == super::findings_view(old(out)@) + match option_text(
            line@,
        ) {
            Some(opts) => pos_findings(rel@, n as int, env@, text::split(opts, ','), 0),
            None => Seq::empty(),
        },
{
    let ghost before = super::findings_view(out@);
    assert(before + Seq::<FindingView>::empty() =~= before);
    let a = match text::find_ch(line, '[') {
        Some(a) => a,
        None => {
            return;
        },
    };
    let b = match text::find_ch(line, ']') {
        Some(b) => b,
        None => {
            return;
        },
    };
    if a >= b {
        return;
    }
    let opts = text::part(line, a + 1, b);
    let parts = text::split_on(opts, ',');
    let ghost all = text::split(opts@, ',');
    let ghost whole = pos_findings(rel@, n as int, env@, all, 0);
    let mut k: usize = 0;
    assert(super::findings_view(out@) + whole =~= before + whole);
    while k < parts.len()
        invariant
            k <= parts@.len(),
            all == text::slices(parts@),
            super::findings_view(out@) + pos_findings(rel@, n as int, env@, all, k as int)
                == before + whole,
        decreases parts@.len() - k,
    {
        assert(all[k as int] == parts@[k as int]@);
        let ghost done = super::findings_view(out@);
        if let Some(v) = read_pos(parts[k]) {
            if !valid_pos(v) {
                let value = string_of(v);
                let f = super::advise(
                    rel,
                    n,
                    Severity::Error,
                    text::cat5(
                        "\\begin{",
                        env,
                        "} invalid pos='",
                        value.as_str(),
                        "' — valid values: H, t, b, h, p",
                    ),
                    text::lit("Use pos=H, pos=t, pos=b, pos=h, or pos=p"),
                );
                let ghost rest = pos_findings(rel@, n as int, env@, all, k + 1);
                assert(done + (seq![f@] + rest) =~= done.push(f@) + rest);
                out.push(f);
            }
        }
        k = k + 1;
    }
    assert(super::findings_view(out@) + Seq::<FindingView>::empty() =~= super::findings_view(out@));
}

/// Check diagram blocks of one kind: those never closed, and invalid `pos` options.
pub fn check_diagram_blocks(rel: &str, content: &str, env: &str, out: &mut Vec<LintFinding>)
    ensures
        super::findings_view(final(out)@) == super::findings_view(old(out)@) + diagram_findings(
            rel@,
            content@,
            env@,
            0,
        ),
{
    let c = chars_of(content);
    let total: usize = c.len();
    let ls = text::lines_of(c.as_slice());
    let ghost all = text::lines(content@);
    let begin_tag = text::cat3("\\begin{", env, "}");
    let end_tag = text::cat3("\\end{", env, "}");
    let ghost before = super::findings_view(out@);
    let ghost whole = diagram_findings(rel@, content@, env@, 0);
    let mut start: usize = 0;
    let mut k: usize = 0;
    assert(super::findings_view(out@) + whole =~= before + whole);
    assert(content@.skip(0) =~= content@);
    while k < ls.len()
        invariant
            k <= ls@.len(),
            c@ == content@,
            all == text::slices(ls@),
            all == text::lines(content@),
            begin_tag@ == "\\begin{"@ + env@ + "}"@,
            end_tag@ == "\\end{"@ + env@ + "}"@,
            total == content@.len(),
            start <= total,
            from_line(content@, k as int) == content@.skip(start as int),
            super::findings_view(out@) + diagram_findings(rel@, content@, env@, k as int)
                == before + whole,
        decreases ls@.len() - k,
    {
        assert(all[k as int] == ls@[k as int]@);
        let ghost done = super::findings_view(out@);
        let t = text::trimmed(ls[k]);
        if text::begins(t, begin_tag.as_str()) {
            let ghost rest = diagram_findings(rel@, content@, env@, k + 1);
            let ghost here = block_findings(rel@, content@, env@, t@, k as int);
            if !text::has(text::from(c.as_slice(), start), end_tag.as_str()) {
                let f = super::advise(
                    rel,
                    k + 1,
                    Severity::Error,
                    text::cat5("\\begin{", env, "} without matching \\end{", env, "}"),
                    text::cat3("Add \\end{", env, "}"),
                );
                out.push(f);
            }
            check_diagram_pos_option(rel, t, env, k + 1, out);
            assert(super::findings_view(out@) =~= done + here);
            assert(done + (here + rest) =~= (done + here) + rest);
        }
        start = match text::find_ch(text::from(c.as_slice(), start), '\n') {
            Some(i) => {
                assert(content@.skip(start as int).skip(i + 1) =~= content@.skip(start + i + 1));
                start + i + 1
            },
            None => {
                assert(content@.skip(total as int) =~= Seq::<char>::empty());
                total
            },
        };
        k = k + 1;
    }
    assert(super::findings_view(out@) + Seq::<FindingView>::empty() =~= super::findings_view(out@));
}

// ---------------------------------------------------------------------------
// Laws
// ---------------------------------------------------------------------------

/// Files that are there are not reported.
pub proof fn law_existing_files_are_silent(
    tree: Seq<(Seq<char>, Option<Seq<char>>)>,
    root: Seq<char>,
    rel: Seq<char>,
    line: int,
    command: Seq<char>,
    args: Seq<Seq<char>>,
    k: int,
)
    requires
        0 <= k,
        forall|i: int|
            k <= i < args.len() ==> exists_at(tree, paths::joined(root, #[trigger] args[i])),
    ensures
        file_findings(tree, root, rel, line, command, args, k).len() == 0,
    decreases args.len() - k,
{
    if k < args.len() {
        assert(exists_at(tree, paths::joined(root, args[k])));
        law_existing_files_are_silent(tree, root, rel, line, command, args, k + 1);
    }
}

/// Sources that are there are not reported.
pub proof fn law_existing_inputs_are_silent(
    tree: Seq<(Seq<char>, Option<Seq<char>>)>,
    root: Seq<char>,
    rel: Seq<char>,
    line: int,
    args: Seq<Seq<char>>,
    k: int,
)
    requires
        0 <= k,
        forall|i: int|
            k <= i < args.len() ==> exists_at(tree, texutil::tex_path(root, #[trigger] args[i])),
    ensures
        input_findings(tree, root, rel, line, args, k).len() == 0,
    decreases args.len() - k,
{
    if k < args.len() {
        assert(exists_at(tree, texutil::tex_path(root, args[k])));
        law_existing_inputs_are_silent(tree, root, rel, line, args, k + 1);
    }
}

/// Citations are reported exactly where a key is not in the bibliography.
pub proof fn law_known_keys_are_silent(
    rel: Seq<char>,
    line: int,
    keys: Seq<Seq<char>>,
    bib: Seq<Seq<char>>,
    k: int,
)
    requires
        0 <= k,
    ensures
        cite_findings(rel, line, keys, bib, k).len() == 0 <==> forall|i: int|
            k <= i < keys.len() ==> bib.contains(#[trigger] keys[i]),
    decreases keys.len() - k,
{
    if k < keys.len() {
        law_known_keys_are_silent(rel, line, keys, bib, k + 1);
        if cite_findings(rel, line, keys, bib, k).len() == 0 {
            assert forall|i: int| k <= i < keys.len() implies bib.contains(#[trigger] keys[i]) by {
                if i == k {
                    assert(bib.contains(keys[k]));
                }
            }
        }
    }
}

/// References are reported exactly where a label is not defined.
pub proof fn law_known_labels_are_silent(
    rel: Seq<char>,
    line: int,
    args: Seq<Seq<char>>,
    labels: Seq<Seq<char>>,
    k: int,
)
    requires
        0 <= k,
    ensures
        ref_findings(rel, line, args, labels, k).len() == 0 <==> forall|i: int|
            k <= i < args.len() ==> labels.contains(#[trigger] args[i]),
    decreases args.len() - k,
{
    if k < args.len() {
        law_known_labels_are_silent(rel, line, args, labels, k + 1);
        if ref_findings(rel, line, args, labels, k).len() == 0 {
            assert forall|i: int| k <= i < args.len() implies labels.contains(
                #[trigger] args[i],
            ) by {
                if i == k {
                    assert(labels.contains(args[k]));
                }
            }
        }
    }
}

} // verus!
