//! Which keys a bibliography has, and which a document cites.

use vstd::prelude::*;

use super::bib;
use super::checks;
use super::references;
use crate::messages;
use crate::text;
use crate::texutil;
use crate::wordset;

verus! {

/// A line `@type{key, ...}` has its key, whatever the type but for a comment.
pub proof fn law_entries_have_their_key(
    line: Seq<char>,
    kind: Seq<char>,
    a: Seq<char>,
    key: Seq<char>,
    b: Seq<char>,
    rest: Seq<char>,
)
    requires
        text::trim(line) == seq!['@'] + kind + seq!['{'] + (a + key + b) + seq![','] + rest,
        !kind.contains('{'),
        !text::starts_with(text::trim(line), "@comment"@),
        messages::is_within(a + key + b, a, key, b),
        !(a + key + b).contains(','),
    ensures
        bib::entry_key(line) == Some(key),
{
    let t = text::trim(line);
    let inner = a + key + b;
    let n = kind.len() as int;
    assert(t[0] == '@');
    assert(t[n + 1] == '{');
    assert forall|j: int| 0 <= j < n + 1 implies #[trigger] t[j] != '{' by {
        if j > 0 {
            assert(t[j] == kind[j - 1]);
            assert(kind.contains(kind[j - 1]));
        }
    }
    lemma_first(t, '{', 0, n + 1);
    let behind = t.skip(n + 2);
    let m = inner.len() as int;
    assert(behind =~= inner + seq![','] + rest);
    assert(behind[m] == ',');
    assert forall|j: int| 0 <= j < m implies #[trigger] behind[j] != ',' by {
        assert(behind[j] == inner[j]);
        assert(inner.contains(inner[j]));
    }
    lemma_first(behind, ',', 0, m);
    assert(behind.take(m) =~= inner);
    messages::lemma_trimmed(inner, a, key, b);
}

/// A comment, and a line that does not begin with `@`, has no key.
pub proof fn law_other_lines_have_no_key(line: Seq<char>)
    requires
        text::starts_with(text::trim(line), "@comment"@) || text::trim(line).len() == 0
            || text::trim(line)[0] != '@',
    ensures
        bib::entry_key(line) is None,
{
}

proof fn lemma_first(s: Seq<char>, c: char, i: int, k: int)
    requires
        0 <= i <= k < s.len(),
        s[k] == c,
        forall|j: int| i <= j < k ==> #[trigger] s[j] != c,
    ensures
        text::find_char_from(s, c, i) == Some(k),
    decreases k - i,
{
    if i < k {
        assert(s[i] != c);
        lemma_first(s, c, i + 1, k);
    }
}

proof fn lemma_entry_keys(ls: Seq<Seq<char>>, k: int, key: Seq<char>)
    requires
        0 <= k,
    ensures
        bib::entry_keys(ls, k).contains(key) <==> exists|i: int|
            k <= i < ls.len() && bib::entry_key(#[trigger] ls[i]) == Some(key),
    decreases ls.len() - k,
{
    if k < ls.len() {
        lemma_entry_keys(ls, k + 1, key);
        let rest = bib::entry_keys(ls, k + 1);
        if let Some(own) = bib::entry_key(ls[k]) {
            references::lemma_words_in_two(seq![own], rest, key);
            assert(seq![own].contains(key) <==> own == key) by {
                assert(seq![own][0] == own);
            }
        }
        if bib::entry_key(ls[k]) == Some(key) {
            let l = ls[k];
            assert(bib::entry_key(l) == Some(key));
        }
    }
}

/// The keys of a bibliography are those of its lines, each once.
pub proof fn law_keys_of_a_bibliography(content: Seq<char>, key: Seq<char>)
    ensures
        bib::bib_keys(content).contains(key) <==> exists|i: int|
            0 <= i < text::lines(content).len() && bib::entry_key(
                #[trigger] text::lines(content)[i],
            ) == Some(key),
        bib::bib_keys(content).no_duplicates(),
{
    lemma_entry_keys(text::lines(content), 0, key);
    wordset::lemma_distinct(bib::entry_keys(text::lines(content), 0));
}

/// Whether a line cites a key with a command, alone or in a list. The star of `\nocite` is no
/// key.
pub open spec fn names(line: Seq<char>, command: Seq<char>, key: Seq<char>) -> bool {
    key.len() > 0 && exists|a: Seq<char>, j: int|
        texutil::commands_in(line, command).contains(a) && !(command == "nocite"@ && a == "*"@)
            && 0 <= j < text::split(a, ',').len() && text::trim(#[trigger] text::split(a, ',')[j])
            == key
}

proof fn lemma_without_star(args: Seq<Seq<char>>, k: int, a: Seq<char>)
    requires
        0 <= k,
    ensures
        bib::without_star(args, k).contains(a) <==> a != "*"@ && exists|i: int|
            k <= i < args.len() && #[trigger] args[i] == a,
    decreases args.len() - k,
{
    if k < args.len() {
        lemma_without_star(args, k + 1, a);
        let rest = bib::without_star(args, k + 1);
        if args[k] != "*"@ {
            references::lemma_words_in_two(seq![args[k]], rest, a);
            assert(seq![args[k]].contains(a) <==> args[k] == a) by {
                assert(seq![args[k]][0] == args[k]);
            }
        }
    }
}

proof fn lemma_keys(args: Seq<Seq<char>>, key: Seq<char>)
    ensures
        checks::keys_of(args, 0).contains(key) <==> key.len() > 0 && exists|a: Seq<char>, j: int|
            args.contains(a) && 0 <= j < text::split(a, ',').len() && text::trim(
                #[trigger] text::split(a, ',')[j],
            ) == key,
{
    references::lemma_keys_of(args, 0, key);
    if exists|a: Seq<char>, j: int|
        args.contains(a) && 0 <= j < text::split(a, ',').len() && text::trim(
            #[trigger] text::split(a, ',')[j],
        ) == key {
        let (a, j) = choose|a: Seq<char>, j: int|
            args.contains(a) && 0 <= j < text::split(a, ',').len() && text::trim(
                #[trigger] text::split(a, ',')[j],
            ) == key;
        let i = choose|i: int| 0 <= i < args.len() && args[i] == a;
        assert(text::trim(text::split(args[i], ',')[j]) == key);
    }
    if checks::keys_of(args, 0).contains(key) {
        let (i, j) = choose|i: int, j: int|
            0 <= i < args.len() && 0 <= j < text::split(args[i], ',').len() && text::trim(
                #[trigger] text::split(args[i], ',')[j],
            ) == key;
        assert(args.contains(args[i]));
    }
}

proof fn lemma_line_cites(line: Seq<char>, key: Seq<char>)
    ensures
        bib::line_cites(line).contains(key) <==> names(line, "cite"@, key) || names(
            line,
            "nocite"@,
            key,
        ),
{
    let cited = texutil::commands_in(line, "cite"@);
    let all = texutil::commands_in(line, "nocite"@);
    let others = bib::without_star(all, 0);
    lemma_keys(cited, key);
    lemma_keys(others, key);
    references::lemma_words_in_two(checks::keys_of(cited, 0), checks::keys_of(others, 0), key);
    assert forall|a: Seq<char>| #[trigger]
        others.contains(a) <==> all.contains(a) && a != "*"@ by {
        lemma_without_star(all, 0, a);
    }
    reveal_strlit("cite");
    reveal_strlit("nocite");
    assert("cite"@.len() != "nocite"@.len());
}

/// A key is cited exactly where a line of a file, without its comment, names it in `\cite`
/// or `\nocite`.
pub proof fn law_cited_keys(files: Seq<(Seq<char>, Seq<char>)>, k: int, key: Seq<char>)
    requires
        0 <= k,
    ensures
        bib::files_cite(files, k).contains(key) <==> exists|i: int|
            k <= i < files.len() && text_names((#[trigger] files[i]).1, key),
    decreases files.len() - k,
{
    if k < files.len() {
        law_cited_keys(files, k + 1, key);
        let ls = text::lines(files[k].1);
        lemma_lines_cite(ls, 0, key);
        references::lemma_words_in_two(bib::lines_cite(ls, 0), bib::files_cite(files, k + 1), key);
        if text_names(files[k].1, key) {
            let f = files[k];
            assert(text_names(f.1, key));
        }
    }
}

/// Whether a text names a key on one of its lines.
pub open spec fn text_names(content: Seq<char>, key: Seq<char>) -> bool {
    exists|i: int|
        0 <= i < text::lines(content).len() && line_names(#[trigger] text::lines(content)[i], key)
}

/// Whether a line, without its comment, names a key.
pub open spec fn line_names(line: Seq<char>, key: Seq<char>) -> bool {
    names(texutil::uncommented(line), "cite"@, key) || names(
        texutil::uncommented(line),
        "nocite"@,
        key,
    )
}

proof fn lemma_lines_cite(ls: Seq<Seq<char>>, k: int, key: Seq<char>)
    requires
        0 <= k,
    ensures
        bib::lines_cite(ls, k).contains(key) <==> exists|i: int|
            k <= i < ls.len() && line_names(#[trigger] ls[i], key),
    decreases ls.len() - k,
{
    if k < ls.len() {
        lemma_lines_cite(ls, k + 1, key);
        lemma_line_cites(texutil::uncommented(ls[k]), key);
        references::lemma_words_in_two(
            bib::line_cites(texutil::uncommented(ls[k])),
            bib::lines_cite(ls, k + 1),
            key,
        );
        if line_names(ls[k], key) {
            let l = ls[k];
            assert(line_names(l, key));
        }
    }
}

/// `\nocite{*}` on any line of any file, outside a comment, cites every key.
pub proof fn law_all_keys_are_cited(files: Seq<(Seq<char>, Seq<char>)>, k: int)
    requires
        0 <= k,
    ensures
        bib::files_cite_all(files, k) <==> exists|i: int, j: int|
            k <= i < files.len() && 0 <= j < text::lines(files[i].1).len()
                && texutil::commands_in(
                texutil::uncommented(#[trigger] text::lines(files[i].1)[j]),
                "nocite"@,
            ).contains("*"@),
    decreases files.len() - k,
{
    if k < files.len() {
        law_all_keys_are_cited(files, k + 1);
        let ls = text::lines(files[k].1);
        lemma_lines_cite_all(ls, 0);
        if bib::lines_cite_all(ls, 0) {
            let j = choose|j: int|
                0 <= j < ls.len() && texutil::commands_in(
                    texutil::uncommented(#[trigger] ls[j]),
                    "nocite"@,
                ).contains("*"@);
            assert(texutil::commands_in(
                texutil::uncommented(text::lines(files[k].1)[j]),
                "nocite"@,
            ).contains("*"@));
        }
    }
}

proof fn lemma_lines_cite_all(ls: Seq<Seq<char>>, k: int)
    requires
        0 <= k,
    ensures
        bib::lines_cite_all(ls, k) <==> exists|j: int|
            k <= j < ls.len() && texutil::commands_in(
                texutil::uncommented(#[trigger] ls[j]),
                "nocite"@,
            ).contains("*"@),
    decreases ls.len() - k,
{
    if k < ls.len() {
        lemma_lines_cite_all(ls, k + 1);
        let l = ls[k];
        if texutil::commands_in(texutil::uncommented(l), "nocite"@).contains("*"@) {
            assert(bib::lines_cite_all(ls, k));
        }
    }
}

} // verus!
