//! What linting a project tells: which references lead nowhere, and that every check is made
//! of every file.

use vstd::prelude::*;

use super::checks::{self, Known};
use super::{bib, engine, glyphs, spell, FindingView, Severity, SpellSetup};
use crate::paths;
use crate::text;
use crate::texutil;
use crate::wordset;

verus! {

/// An error.
pub open spec fn error(
    rel: Seq<char>,
    line: int,
    message: Seq<char>,
    suggestion: Option<Seq<char>>,
) -> FindingView {
    FindingView { file: rel, line, severity: Severity::Error, message, suggestion }
}

/// Whether no file lies at a path.
pub open spec fn is_missing(tree: Seq<(Seq<char>, Option<Seq<char>>)>, p: Seq<char>) -> bool {
    forall|k: int| 0 <= k < tree.len() ==> !paths::same((#[trigger] tree[k]).0, p)
}

/// Whether a line cites a key, alone or in a list.
pub open spec fn cites(line: Seq<char>, key: Seq<char>) -> bool {
    key.len() > 0 && exists|a: Seq<char>, j: int|
        texutil::commands_in(line, "cite"@).contains(a) && 0 <= j < text::split(a, ',').len()
            && text::trim(#[trigger] text::split(a, ',')[j]) == key
}

/// Whether a finding is about a file that a command of a line names and that is missing.
pub open spec fn is_about_missing_file(
    known: Known,
    rel: Seq<char>,
    n: int,
    command: Seq<char>,
    args: Seq<Seq<char>>,
    x: FindingView,
) -> bool {
    exists|a: Seq<char>| #[trigger]
        args.contains(a) && is_missing(known.tree, paths::joined(known.root, a)) && x == error(
            rel,
            n,
            "\\"@ + command + "{"@ + a + "} — file not found"@,
            None,
        )
}

/// Whether a finding is about a reference of a line that leads nowhere: an `\input` or
/// another file that is missing, a key that is not in the bibliography, a label that is not
/// defined.
pub open spec fn is_dangling(
    known: Known,
    rel: Seq<char>,
    n: int,
    line: Seq<char>,
    x: FindingView,
) -> bool {
    ||| exists|a: Seq<char>| #[trigger]
        texutil::commands_in(line, "input"@).contains(a) && is_missing(
            known.tree,
            texutil::tex_path(known.root, a),
        ) && x == error(
            rel,
            n,
            "\\"@ + "input"@ + "{"@ + a + "} — file not found"@,
            Some("Create "@ + texutil::tex_path(known.root, a)),
        )
    ||| is_about_missing_file(
        known,
        rel,
        n,
        "includegraphics"@,
        texutil::commands_in(line, "includegraphics"@),
        x,
    )
    ||| is_about_missing_file(
        known,
        rel,
        n,
        "lstinputlisting"@,
        texutil::commands_in(line, "lstinputlisting"@),
        x,
    )
    ||| is_about_missing_file(known, rel, n, "inputminted"@, checks::minted_files(line), x)
    ||| known.bib matches Some(keys) && exists|key: Seq<char>| #[trigger]
        cites(line, key) && !keys.contains(key) && x == error(
            rel,
            n,
            "\\cite{"@ + key + "} — key not found in .bib"@,
            None,
        )
    ||| exists|a: Seq<char>| #[trigger]
        texutil::commands_in(line, "ref"@).contains(a) && !known.labels.contains(a) && x == error(
            rel,
            n,
            "\\ref{"@ + a + "} — no matching \\label found"@,
            None,
        )
}

proof fn lemma_missing(tree: Seq<(Seq<char>, Option<Seq<char>>)>, p: Seq<char>)
    ensures
        is_missing(tree, p) <==> !checks::exists_at(tree, p),
{
    texutil::lemma_file_at(tree, p, 0);
    if let Some(i) = texutil::file_at(tree, p, 0) {
        assert(paths::same(tree[i].0, p));
    }
}

proof fn lemma_in_two(a: Seq<FindingView>, b: Seq<FindingView>, x: FindingView)
    ensures
        (a + b).contains(x) <==> a.contains(x) || b.contains(x),
{
    let s = a + b;
    if a.contains(x) {
        let k = choose|k: int| 0 <= k < a.len() && a[k] == x;
        assert(s[k] == x);
    }
    if b.contains(x) {
        let k = choose|k: int| 0 <= k < b.len() && b[k] == x;
        assert(s[a.len() + k] == x);
    }
    if s.contains(x) {
        let k = choose|k: int| 0 <= k < s.len() && s[k] == x;
        if k < a.len() {
            assert(a[k] == x);
        } else {
            assert(b[k - a.len()] == x);
        }
    }
}

proof fn lemma_inputs(
    known: Known,
    rel: Seq<char>,
    n: int,
    args: Seq<Seq<char>>,
    k: int,
    x: FindingView,
)
    requires
        0 <= k,
    ensures
        checks::input_findings(known.tree, known.root, rel, n, args, k).contains(x)
            <==> exists|j: int|
            k <= j < args.len() && is_missing(
                known.tree,
                texutil::tex_path(known.root, #[trigger] args[j]),
            ) && x == error(
                rel,
                n,
                "\\"@ + "input"@ + "{"@ + args[j] + "} — file not found"@,
                Some("Create "@ + texutil::tex_path(known.root, args[j])),
            ),
    decreases args.len() - k,
{
    if k < args.len() {
        lemma_inputs(known, rel, n, args, k + 1, x);
        let path = texutil::tex_path(known.root, args[k]);
        lemma_missing(known.tree, path);
        let f = error(
            rel,
            n,
            "\\"@ + "input"@ + "{"@ + args[k] + "} — file not found"@,
            Some("Create "@ + path),
        );
        let rest = checks::input_findings(known.tree, known.root, rel, n, args, k + 1);
        lemma_in_two(seq![f], rest, x);
        assert(seq![f].contains(x) <==> x == f) by {
            assert(seq![f][0] == f);
        }
    }
}

proof fn lemma_files(
    known: Known,
    rel: Seq<char>,
    n: int,
    command: Seq<char>,
    args: Seq<Seq<char>>,
    k: int,
    x: FindingView,
)
    requires
        0 <= k,
    ensures
        checks::file_findings(known.tree, known.root, rel, n, command, args, k).contains(x)
            <==> exists|j: int|
            k <= j < args.len() && is_missing(
                known.tree,
                paths::joined(known.root, #[trigger] args[j]),
            ) && x == error(rel, n, "\\"@ + command + "{"@ + args[j] + "} — file not found"@, None),
    decreases args.len() - k,
{
    if k < args.len() {
        lemma_files(known, rel, n, command, args, k + 1, x);
        lemma_missing(known.tree, paths::joined(known.root, args[k]));
        let f = error(rel, n, "\\"@ + command + "{"@ + args[k] + "} — file not found"@, None);
        let rest = checks::file_findings(known.tree, known.root, rel, n, command, args, k + 1);
        lemma_in_two(seq![f], rest, x);
        assert(seq![f].contains(x) <==> x == f) by {
            assert(seq![f][0] == f);
        }
    }
}

proof fn lemma_about_files(
    known: Known,
    rel: Seq<char>,
    n: int,
    command: Seq<char>,
    args: Seq<Seq<char>>,
    x: FindingView,
)
    ensures
        checks::file_findings(known.tree, known.root, rel, n, command, args, 0).contains(x)
            <==> is_about_missing_file(known, rel, n, command, args, x),
{
    lemma_files(known, rel, n, command, args, 0, x);
    if is_about_missing_file(known, rel, n, command, args, x) {
        let a = choose|a: Seq<char>| #[trigger]
            args.contains(a) && is_missing(known.tree, paths::joined(known.root, a)) && x == error(
                rel,
                n,
                "\\"@ + command + "{"@ + a + "} — file not found"@,
                None,
            );
        let j = choose|j: int| 0 <= j < args.len() && args[j] == a;
        assert(is_missing(known.tree, paths::joined(known.root, args[j])));
    }
    if checks::file_findings(known.tree, known.root, rel, n, command, args, 0).contains(x) {
        let j = choose|j: int|
            0 <= j < args.len() && is_missing(
                known.tree,
                paths::joined(known.root, #[trigger] args[j]),
            ) && x == error(rel, n, "\\"@ + command + "{"@ + args[j] + "} — file not found"@, None);
        assert(args.contains(args[j]));
    }
}

proof fn lemma_cites(
    rel: Seq<char>,
    n: int,
    keys: Seq<Seq<char>>,
    known: Seq<Seq<char>>,
    k: int,
    x: FindingView,
)
    requires
        0 <= k,
    ensures
        checks::cite_findings(rel, n, keys, known, k).contains(x) <==> exists|j: int|
            k <= j < keys.len() && !known.contains(#[trigger] keys[j]) && x == error(
                rel,
                n,
                "\\cite{"@ + keys[j] + "} — key not found in .bib"@,
                None,
            ),
    decreases keys.len() - k,
{
    if k < keys.len() {
        lemma_cites(rel, n, keys, known, k + 1, x);
        let f = error(rel, n, "\\cite{"@ + keys[k] + "} — key not found in .bib"@, None);
        let rest = checks::cite_findings(rel, n, keys, known, k + 1);
        lemma_in_two(seq![f], rest, x);
        assert(seq![f].contains(x) <==> x == f) by {
            assert(seq![f][0] == f);
        }
    }
}

proof fn lemma_refs(
    rel: Seq<char>,
    n: int,
    args: Seq<Seq<char>>,
    labels: Seq<Seq<char>>,
    k: int,
    x: FindingView,
)
    requires
        0 <= k,
    ensures
        checks::ref_findings(rel, n, args, labels, k).contains(x) <==> exists|j: int|
            k <= j < args.len() && !labels.contains(#[trigger] args[j]) && x == error(
                rel,
                n,
                "\\ref{"@ + args[j] + "} — no matching \\label found"@,
                None,
            ),
    decreases args.len() - k,
{
    if k < args.len() {
        lemma_refs(rel, n, args, labels, k + 1, x);
        let f = error(rel, n, "\\ref{"@ + args[k] + "} — no matching \\label found"@, None);
        let rest = checks::ref_findings(rel, n, args, labels, k + 1);
        lemma_in_two(seq![f], rest, x);
        assert(seq![f].contains(x) <==> x == f) by {
            assert(seq![f][0] == f);
        }
    }
}

pub proof fn lemma_words_in_two(a: Seq<Seq<char>>, b: Seq<Seq<char>>, x: Seq<char>)
    ensures
        (a + b).contains(x) <==> a.contains(x) || b.contains(x),
{
    let s = a + b;
    if a.contains(x) {
        let k = choose|k: int| 0 <= k < a.len() && a[k] == x;
        assert(s[k] == x);
    }
    if b.contains(x) {
        let k = choose|k: int| 0 <= k < b.len() && b[k] == x;
        assert(s[a.len() + k] == x);
    }
    if s.contains(x) {
        let k = choose|k: int| 0 <= k < s.len() && s[k] == x;
        if k < a.len() {
            assert(a[k] == x);
        } else {
            assert(b[k - a.len()] == x);
        }
    }
}

proof fn lemma_list_keys(items: Seq<Seq<char>>, k: int, key: Seq<char>)
    requires
        0 <= k,
    ensures
        checks::list_keys(items, k).contains(key) <==> key.len() > 0 && exists|j: int|
            k <= j < items.len() && text::trim(#[trigger] items[j]) == key,
    decreases items.len() - k,
{
    if k < items.len() {
        lemma_list_keys(items, k + 1, key);
        let t = text::trim(items[k]);
        lemma_words_in_two(seq![t], checks::list_keys(items, k + 1), key);
        assert(seq![t].contains(key) <==> key == t) by {
            assert(seq![t][0] == t);
        }
    }
}

pub proof fn lemma_keys_of(args: Seq<Seq<char>>, k: int, key: Seq<char>)
    requires
        0 <= k,
    ensures
        checks::keys_of(args, k).contains(key) <==> key.len() > 0 && exists|i: int, j: int|
            k <= i < args.len() && 0 <= j < text::split(args[i], ',').len() && text::trim(
                #[trigger] text::split(args[i], ',')[j],
            ) == key,
    decreases args.len() - k,
{
    if k < args.len() {
        lemma_keys_of(args, k + 1, key);
        lemma_list_keys(text::split(args[k], ','), 0, key);
        lemma_words_in_two(
            checks::list_keys(text::split(args[k], ','), 0),
            checks::keys_of(args, k + 1),
            key,
        );
    }
}

proof fn lemma_cited(line: Seq<char>, key: Seq<char>)
    ensures
        checks::keys_of(texutil::commands_in(line, "cite"@), 0).contains(key) <==> cites(line, key),
{
    let args = texutil::commands_in(line, "cite"@);
    lemma_keys_of(args, 0, key);
    if cites(line, key) {
        let (a, j) = choose|a: Seq<char>, j: int|
            args.contains(a) && 0 <= j < text::split(a, ',').len() && text::trim(
                #[trigger] text::split(a, ',')[j],
            ) == key;
        let i = choose|i: int| 0 <= i < args.len() && args[i] == a;
        assert(text::trim(text::split(args[i], ',')[j]) == key);
    }
    if checks::keys_of(args, 0).contains(key) {
        let (i, j) = choose|i: int, j: int|
            0 <= i < args.len() && 0 <= j < text::split(args[i], ',').len() && text::trim(
                #[trigger] text::split(args[i], ',')[j],
            ) == key;
        assert(args.contains(args[i]));
    }
}

proof fn lemma_cite_part(
    known: Known,
    rel: Seq<char>,
    n: int,
    line: Seq<char>,
    keys: Seq<Seq<char>>,
    x: FindingView,
)
    ensures
        checks::cite_findings(
            rel,
            n,
            checks::keys_of(texutil::commands_in(line, "cite"@), 0),
            keys,
            0,
        ).contains(x) <==> exists|key: Seq<char>| #[trigger]
            cites(line, key) && !keys.contains(key) && x == error(
                rel,
                n,
                "\\cite{"@ + key + "} — key not found in .bib"@,
                None,
            ),
{
    let all = checks::keys_of(texutil::commands_in(line, "cite"@), 0);
    lemma_cites(rel, n, all, keys, 0, x);
    if checks::cite_findings(rel, n, all, keys, 0).contains(x) {
        let j = choose|j: int|
            0 <= j < all.len() && !keys.contains(#[trigger] all[j]) && x == error(
                rel,
                n,
                "\\cite{"@ + all[j] + "} — key not found in .bib"@,
                None,
            );
        lemma_cited(line, all[j]);
        assert(all.contains(all[j]));
        assert(cites(line, all[j]));
    }
    if exists|key: Seq<char>| #[trigger]
        cites(line, key) && !keys.contains(key) && x == error(
            rel,
            n,
            "\\cite{"@ + key + "} — key not found in .bib"@,
            None,
        ) {
        let key = choose|key: Seq<char>| #[trigger]
            cites(line, key) && !keys.contains(key) && x == error(
                rel,
                n,
                "\\cite{"@ + key + "} — key not found in .bib"@,
                None,
            );
        lemma_cited(line, key);
        let j = choose|j: int| 0 <= j < all.len() && all[j] == key;
        assert(!keys.contains(all[j]));
    }
}

proof fn lemma_ref_part(
    known: Known,
    rel: Seq<char>,
    n: int,
    args: Seq<Seq<char>>,
    x: FindingView,
)
    ensures
        checks::ref_findings(rel, n, args, known.labels, 0).contains(x) <==> exists|a: Seq<char>|
            #[trigger]
            args.contains(a) && !known.labels.contains(a) && x == error(
                rel,
                n,
                "\\ref{"@ + a + "} — no matching \\label found"@,
                None,
            ),
{
    lemma_refs(rel, n, args, known.labels, 0, x);
    if checks::ref_findings(rel, n, args, known.labels, 0).contains(x) {
        let j = choose|j: int|
            0 <= j < args.len() && !known.labels.contains(#[trigger] args[j]) && x == error(
                rel,
                n,
                "\\ref{"@ + args[j] + "} — no matching \\label found"@,
                None,
            );
        assert(args.contains(args[j]));
    }
    if exists|a: Seq<char>| #[trigger]
        args.contains(a) && !known.labels.contains(a) && x == error(
            rel,
            n,
            "\\ref{"@ + a + "} — no matching \\label found"@,
            None,
        ) {
        let a = choose|a: Seq<char>| #[trigger]
            args.contains(a) && !known.labels.contains(a) && x == error(
                rel,
                n,
                "\\ref{"@ + a + "} — no matching \\label found"@,
                None,
            );
        let j = choose|j: int| 0 <= j < args.len() && args[j] == a;
        assert(!known.labels.contains(args[j]));
    }
}

proof fn lemma_input_part(
    known: Known,
    rel: Seq<char>,
    n: int,
    args: Seq<Seq<char>>,
    x: FindingView,
)
    ensures
        checks::input_findings(known.tree, known.root, rel, n, args, 0).contains(x)
            <==> exists|a: Seq<char>| #[trigger]
            args.contains(a) && is_missing(known.tree, texutil::tex_path(known.root, a)) && x
                == error(
                rel,
                n,
                "\\"@ + "input"@ + "{"@ + a + "} — file not found"@,
                Some("Create "@ + texutil::tex_path(known.root, a)),
            ),
{
    lemma_inputs(known, rel, n, args, 0, x);
    if checks::input_findings(known.tree, known.root, rel, n, args, 0).contains(x) {
        let j = choose|j: int|
            0 <= j < args.len() && is_missing(
                known.tree,
                texutil::tex_path(known.root, #[trigger] args[j]),
            ) && x == error(
                rel,
                n,
                "\\"@ + "input"@ + "{"@ + args[j] + "} — file not found"@,
                Some("Create "@ + texutil::tex_path(known.root, args[j])),
            );
        assert(args.contains(args[j]));
    }
    if exists|a: Seq<char>| #[trigger]
        args.contains(a) && is_missing(known.tree, texutil::tex_path(known.root, a)) && x == error(
            rel,
            n,
            "\\"@ + "input"@ + "{"@ + a + "} — file not found"@,
            Some("Create "@ + texutil::tex_path(known.root, a)),
        ) {
        let a = choose|a: Seq<char>| #[trigger]
            args.contains(a) && is_missing(known.tree, texutil::tex_path(known.root, a)) && x
                == error(
                rel,
                n,
                "\\"@ + "input"@ + "{"@ + a + "} — file not found"@,
                Some("Create "@ + texutil::tex_path(known.root, a)),
            );
        let j = choose|j: int| 0 <= j < args.len() && args[j] == a;
        assert(is_missing(known.tree, texutil::tex_path(known.root, args[j])));
    }
}

proof fn lemma_line(known: Known, rel: Seq<char>, n: int, line: Seq<char>, x: FindingView)
    ensures
        checks::line_findings(known, rel, n, line).contains(x) <==> is_dangling(
            known,
            rel,
            n,
            line,
            x,
        ),
{
    let a = checks::input_findings(
        known.tree,
        known.root,
        rel,
        n,
        texutil::commands_in(line, "input"@),
        0,
    );
    let b = checks::file_findings(
        known.tree,
        known.root,
        rel,
        n,
        "includegraphics"@,
        texutil::commands_in(line, "includegraphics"@),
        0,
    );
    let c = match known.bib {
        Some(keys) => checks::cite_findings(
            rel,
            n,
            checks::keys_of(texutil::commands_in(line, "cite"@), 0),
            keys,
            0,
        ),
        None => Seq::empty(),
    };
    let d = checks::ref_findings(rel, n, texutil::commands_in(line, "ref"@), known.labels, 0);
    let e = checks::file_findings(
        known.tree,
        known.root,
        rel,
        n,
        "lstinputlisting"@,
        texutil::commands_in(line, "lstinputlisting"@),
        0,
    );
    let f = checks::file_findings(
        known.tree,
        known.root,
        rel,
        n,
        "inputminted"@,
        checks::minted_files(line),
        0,
    );
    lemma_in_two(a, b, x);
    lemma_in_two(a + b, c, x);
    lemma_in_two(a + b + c, d, x);
    lemma_in_two(a + b + c + d, e, x);
    lemma_in_two(a + b + c + d + e, f, x);
    lemma_input_part(known, rel, n, texutil::commands_in(line, "input"@), x);
    lemma_about_files(
        known,
        rel,
        n,
        "includegraphics"@,
        texutil::commands_in(line, "includegraphics"@),
        x,
    );
    lemma_about_files(
        known,
        rel,
        n,
        "lstinputlisting"@,
        texutil::commands_in(line, "lstinputlisting"@),
        x,
    );
    lemma_about_files(known, rel, n, "inputminted"@, checks::minted_files(line), x);
    lemma_ref_part(known, rel, n, texutil::commands_in(line, "ref"@), x);
    if let Some(keys) = known.bib {
        lemma_cite_part(known, rel, n, line, keys, x);
    }
}

/// The findings about the references of a file are those of its lines, without their
/// comments: one for each reference that leads nowhere, and no other.
pub proof fn law_dangling_references_are_told(
    known: Known,
    rel: Seq<char>,
    ls: Seq<Seq<char>>,
    k: int,
    x: FindingView,
)
    requires
        0 <= k,
    ensures
        checks::reference_findings(known, rel, ls, k).contains(x) <==> exists|n: int|
            k <= n < ls.len() && #[trigger] is_dangling(
                known,
                rel,
                n + 1,
                texutil::uncommented(ls[n]),
                x,
            ),
    decreases ls.len() - k,
{
    if k < ls.len() {
        law_dangling_references_are_told(known, rel, ls, k + 1, x);
        let line = texutil::uncommented(ls[k]);
        lemma_line(known, rel, k + 1, line, x);
        lemma_in_two(
            checks::line_findings(known, rel, k + 1, line),
            checks::reference_findings(known, rel, ls, k + 1),
            x,
        );
    }
}

// ---------------------------------------------------------------------------
// Labels and keys
// ---------------------------------------------------------------------------

proof fn lemma_labels_in(ls: Seq<Seq<char>>, k: int, a: Seq<char>)
    requires
        0 <= k,
    ensures
        bib::lines_label(ls, k).contains(a) <==> exists|n: int|
            k <= n < ls.len() && texutil::commands_in(
                texutil::uncommented(#[trigger] ls[n]),
                "label"@,
            ).contains(a),
    decreases ls.len() - k,
{
    if k < ls.len() {
        lemma_labels_in(ls, k + 1, a);
        lemma_words_in_two(
            texutil::commands_in(texutil::uncommented(ls[k]), "label"@),
            bib::lines_label(ls, k + 1),
            a,
        );
    }
}

proof fn lemma_labels(files: Seq<(Seq<char>, Seq<char>)>, k: int, a: Seq<char>)
    requires
        0 <= k,
    ensures
        bib::files_label(files, k).contains(a) <==> exists|f: int|
            k <= f < files.len() && bib::lines_label(
                text::lines((#[trigger] files[f]).1),
                0,
            ).contains(a),
    decreases files.len() - k,
{
    if k < files.len() {
        lemma_labels(files, k + 1, a);
        lemma_words_in_two(
            bib::lines_label(text::lines(files[k].1), 0),
            bib::files_label(files, k + 1),
            a,
        );
    }
}

/// Whether a file defines a label: on a line, outside its comment.
pub open spec fn defines(content: Seq<char>, a: Seq<char>) -> bool {
    exists|n: int|
        0 <= n < text::lines(content).len() && texutil::commands_in(
            texutil::uncommented(#[trigger] text::lines(content)[n]),
            "label"@,
        ).contains(a)
}

/// A label is known where any file of the project defines it.
pub proof fn law_labels_are_those_defined(files: Seq<(Seq<char>, Seq<char>)>, a: Seq<char>)
    ensures
        wordset::distinct(bib::files_label(files, 0)).contains(a) <==> exists|f: int|
            0 <= f < files.len() && defines((#[trigger] files[f]).1, a),
{
    wordset::lemma_distinct(bib::files_label(files, 0));
    lemma_labels(files, 0, a);
    if exists|f: int| 0 <= f < files.len() && defines((#[trigger] files[f]).1, a) {
        let f = choose|f: int| 0 <= f < files.len() && defines((#[trigger] files[f]).1, a);
        lemma_labels_in(text::lines(files[f].1), 0, a);
    }
    if bib::files_label(files, 0).contains(a) {
        let f = choose|f: int|
            0 <= f < files.len() && bib::lines_label(
                text::lines((#[trigger] files[f]).1),
                0,
            ).contains(a);
        lemma_labels_in(text::lines(files[f].1), 0, a);
        assert(defines(files[f].1, a));
    }
}

// ---------------------------------------------------------------------------
// Projects
// ---------------------------------------------------------------------------

/// Whether a finding is about one file: a reference, an environment, a diagram of any of
/// the three kinds, or a glyph.
pub open spec fn is_about_file(
    known: Known,
    rel: Seq<char>,
    content: Seq<char>,
    x: FindingView,
) -> bool {
    ||| checks::reference_findings(known, rel, text::lines(content), 0).contains(x)
    ||| checks::environment_findings(rel, content).contains(x)
    ||| checks::diagram_findings(rel, content, "mermaid"@, 0).contains(x)
    ||| checks::diagram_findings(rel, content, "graphviz"@, 0).contains(x)
    ||| checks::diagram_findings(rel, content, "d2"@, 0).contains(x)
    ||| glyphs::file_findings(rel, content).contains(x)
}

proof fn lemma_file(known: Known, rel: Seq<char>, content: Seq<char>, x: FindingView)
    ensures
        super::file_findings(known, rel, content).contains(x) <==> is_about_file(
            known,
            rel,
            content,
            x,
        ),
{
    let a = checks::reference_findings(known, rel, text::lines(content), 0);
    let b = checks::environment_findings(rel, content);
    let c = checks::diagram_findings(rel, content, "mermaid"@, 0);
    let d = checks::diagram_findings(rel, content, "graphviz"@, 0);
    let e = checks::diagram_findings(rel, content, "d2"@, 0);
    let f = glyphs::file_findings(rel, content);
    lemma_in_two(a, b, x);
    lemma_in_two(a + b, c, x);
    lemma_in_two(a + b + c, d, x);
    lemma_in_two(a + b + c + d, e, x);
    lemma_in_two(a + b + c + d + e, f, x);
}

proof fn lemma_all_files(
    known: Known,
    files: Seq<(Seq<char>, Seq<char>)>,
    k: int,
    x: FindingView,
)
    requires
        0 <= k,
    ensures
        super::files_findings(known, files, k).contains(x) <==> exists|f: int|
            k <= f < files.len() && is_about_file(
                known,
                (#[trigger] files[f]).0,
                files[f].1,
                x,
            ),
    decreases files.len() - k,
{
    if k < files.len() {
        lemma_all_files(known, files, k + 1, x);
        lemma_file(known, files[k].0, files[k].1, x);
        lemma_in_two(
            super::file_findings(known, files[k].0, files[k].1),
            super::files_findings(known, files, k + 1),
            x,
        );
    }
}

/// Whether something is what the references of a project are checked against: its files, the
/// keys of its bibliography where it has one, and the labels that any of its files defines.
pub open spec fn is_known_of(
    known: Known,
    root: Seq<char>,
    bib_file: Option<Seq<char>>,
    tree: Seq<(Seq<char>, Option<Seq<char>>)>,
    files: Seq<(Seq<char>, Seq<char>)>,
) -> bool {
    &&& known.tree == tree
    &&& known.root == root
    &&& known.bib is Some <==> bib_file is Some
    &&& bib_file matches Some(b) ==> known.bib == Some(super::keys_at(tree, paths::joined(root, b)))
    &&& forall|a: Seq<char>| #[trigger]
        known.labels.contains(a) <==> exists|f: int|
            0 <= f < files.len() && defines((#[trigger] files[f]).1, a)
}

/// Linting tells of every file of a project what there is to tell of it, and of the project
/// its circular inputs, the keys that nobody cites, the spelling and the engine. It tells
/// nothing else.
pub proof fn law_every_file_is_checked(
    root: Seq<char>,
    bib_file: Option<Seq<char>>,
    tree: Seq<(Seq<char>, Option<Seq<char>>)>,
    setup: SpellSetup,
    circular: Seq<(Seq<char>, Seq<char>)>,
    files: Seq<(Seq<char>, Seq<char>)>,
    known: Known,
    x: FindingView,
)
    requires
        is_known_of(known, root, bib_file, tree, files),
    ensures
        super::project_findings(root, bib_file, tree, setup, circular, files).contains(x) <==> {
            ||| super::circular_findings(circular).contains(x)
            ||| exists|f: int|
                0 <= f < files.len() && is_about_file(
                    known,
                    (#[trigger] files[f]).0,
                    files[f].1,
                    x,
                )
            ||| bib_file matches Some(b) && super::unused_findings(
                b,
                bib::unused_keys(super::keys_at(tree, paths::joined(root, b)), files),
            ).contains(x)
            ||| !setup.harness && spell::spelling_findings(
                files,
                text::opt_text(setup.default_lang),
                setup.answer,
                setup.whitelist@,
            ).contains(x)
            ||| engine::engine_findings(files).contains(x)
        },
{
    let keys = match bib_file {
        Some(b) => super::keys_at(tree, paths::joined(root, b)),
        None => Seq::empty(),
    };
    let own = Known {
        tree,
        root,
        bib: match bib_file {
            Some(_) => Some(keys),
            None => None,
        },
        labels: wordset::distinct(bib::files_label(files, 0)),
    };
    let a = super::circular_findings(circular);
    let b = super::files_findings(own, files, 0);
    let c = super::unused_findings(
        match bib_file {
            Some(b) => b,
            None => Seq::empty(),
        },
        bib::unused_keys(keys, files),
    );
    let d = if setup.harness {
        Seq::empty()
    } else {
        spell::spelling_findings(
            files,
            text::opt_text(setup.default_lang),
            setup.answer,
            setup.whitelist@,
        )
    };
    let e = engine::engine_findings(files);
    assert(super::project_findings(root, bib_file, tree, setup, circular, files) == a + b + c + d
        + e);
    lemma_in_two(a, b, x);
    lemma_in_two(a + b, c, x);
    lemma_in_two(a + b + c, d, x);
    lemma_in_two(a + b + c + d, e, x);
    lemma_all_files(own, files, 0, x);
    assert forall|w: Seq<char>| #[trigger] own.labels.contains(w) <==> known.labels.contains(w) by {
        law_labels_are_those_defined(files, w);
    }
    assert forall|f: int| 0 <= f < files.len() implies (is_about_file(
        own,
        (#[trigger] files[f]).0,
        files[f].1,
        x,
    ) <==> is_about_file(known, files[f].0, files[f].1, x)) by {
        lemma_same_known(own, known, files[f].0, text::lines(files[f].1), x);
    }
    if bib_file is None {
        lemma_nothing_unused(files);
    }
}

proof fn lemma_same_known(
    a: Known,
    b: Known,
    rel: Seq<char>,
    ls: Seq<Seq<char>>,
    x: FindingView,
)
    requires
        a.tree == b.tree,
        a.root == b.root,
        a.bib == b.bib,
        forall|w: Seq<char>| #[trigger] a.labels.contains(w) <==> b.labels.contains(w),
    ensures
        checks::reference_findings(a, rel, ls, 0).contains(x) <==> checks::reference_findings(
            b,
            rel,
            ls,
            0,
        ).contains(x),
{
    law_dangling_references_are_told(a, rel, ls, 0, x);
    law_dangling_references_are_told(b, rel, ls, 0, x);
    assert forall|n: int| is_dangling(a, rel, n + 1, #[trigger] texutil::uncommented(ls[n]), x)
        <==> is_dangling(b, rel, n + 1, texutil::uncommented(ls[n]), x) by {
        lemma_same_dangling(a, b, rel, n + 1, texutil::uncommented(ls[n]), x);
        lemma_same_dangling(b, a, rel, n + 1, texutil::uncommented(ls[n]), x);
    }
}

proof fn lemma_same_dangling(
    a: Known,
    b: Known,
    rel: Seq<char>,
    n: int,
    line: Seq<char>,
    x: FindingView,
)
    requires
        a.tree == b.tree,
        a.root == b.root,
        a.bib == b.bib,
        forall|w: Seq<char>| #[trigger] a.labels.contains(w) <==> b.labels.contains(w),
    ensures
        is_dangling(a, rel, n, line, x) ==> is_dangling(b, rel, n, line, x),
{
}

proof fn lemma_nothing_unused(files: Seq<(Seq<char>, Seq<char>)>)
    ensures
        bib::unused_keys(Seq::empty(), files).len() == 0,
{
    let none = Seq::<Seq<char>>::empty();
    let u = bib::unused_keys(none, files);
    if u.len() > 0 {
        bib::law_unused_keys(none, files, u[0]);
        assert(u.contains(u[0]));
    }
}

} // verus!
