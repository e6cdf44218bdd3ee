//! What there is to spell with, and to cite: dictionaries, words, keys and accented letters.

use vstd::prelude::*;

use super::accents;
use super::bib;
use super::dictionary::{self, InstalledView};
use super::spell;
use crate::commands;
use crate::messages;
use crate::number;
use crate::order;
use crate::paths;
use crate::text;

verus! {

// ---------------------------------------------------------------------------
// Dictionaries
// ---------------------------------------------------------------------------

/// Whether a dictionary is the word list at the `k`-th of the files.
pub open spec fn is_wordlist(names: Seq<Seq<char>>, k: int, x: InstalledView) -> bool {
    &&& 0 <= k < names.len()
    &&& paths::extension(names[k]) == Some("txt"@)
    &&& x matches InstalledView::Wordlist { lang, path } && Some(lang) == paths::file_stem(names[k])
        && path == names[k]
}

/// Whether a dictionary is the pair of the word file at the `k`-th of the files with an affix
/// file of the same language, which is one of the files too.
pub open spec fn is_pair(dir: Seq<char>, names: Seq<Seq<char>>, k: int, x: InstalledView) -> bool {
    &&& 0 <= k < names.len()
    &&& paths::extension(names[k]) == Some("dic"@)
    &&& x matches InstalledView::Hunspell { lang, dic_path, aff_path } && Some(lang)
        == paths::file_stem(names[k]) && dic_path == paths::joined(dir, lang + ".dic"@) && aff_path
        == paths::joined(dir, lang + ".aff"@) && paths::lists(names, aff_path)
}

proof fn lemma_in_two(a: Seq<InstalledView>, b: Seq<InstalledView>, x: InstalledView)
    ensures
        (a + b).contains(x) <==> a.contains(x) || b.contains(x),
{
    if a.contains(x) {
        let j = choose|j: int| 0 <= j < a.len() && a[j] == x;
        assert((a + b)[j] == x);
    }
    if b.contains(x) {
        let j = choose|j: int| 0 <= j < b.len() && b[j] == x;
        assert((a + b)[a.len() + j] == x);
    }
    if (a + b).contains(x) {
        let j = choose|j: int| 0 <= j < (a + b).len() && (a + b)[j] == x;
        if j < a.len() {
            assert(a[j] == x);
        } else {
            assert(b[j - a.len()] == x);
        }
    }
}

proof fn lemma_stem(p: Seq<char>)
    requires
        paths::extension(p) is Some,
    ensures
        paths::file_stem(p) is Some,
{
}

proof fn lemma_wordlists(names: Seq<Seq<char>>, k: int, x: InstalledView)
    requires
        0 <= k,
    ensures
        dictionary::installed_wordlists(names, k).contains(x) <==> exists|i: int|
            k <= i && #[trigger] is_wordlist(names, i, x),
    decreases names.len() - k,
{
    if k < names.len() {
        lemma_wordlists(names, k + 1, x);
        let rest = dictionary::installed_wordlists(names, k + 1);
        if paths::extension(names[k]) == Some("txt"@) {
            lemma_stem(names[k]);
            let own = InstalledView::Wordlist {
                lang: paths::file_stem(names[k])->0,
                path: names[k],
            };
            lemma_in_two(seq![own], rest, x);
            assert(seq![own].contains(x) <==> x == own) by {
                assert(seq![own][0] == own);
            }
            assert(is_wordlist(names, k, own));
        }
        if rest.contains(x) {
            let i = choose|i: int| k + 1 <= i && #[trigger] is_wordlist(names, i, x);
            assert(is_wordlist(names, i, x));
        }
        assert(is_wordlist(names, k, x) ==> dictionary::installed_wordlists(names, k).contains(x));
    }
}

proof fn lemma_pairs(dir: Seq<char>, names: Seq<Seq<char>>, k: int, x: InstalledView)
    requires
        0 <= k,
    ensures
        dictionary::installed_pairs(dir, names, k).contains(x) <==> exists|i: int|
            k <= i && #[trigger] is_pair(dir, names, i, x),
    decreases names.len() - k,
{
    if k < names.len() {
        lemma_pairs(dir, names, k + 1, x);
        let rest = dictionary::installed_pairs(dir, names, k + 1);
        let lang = paths::file_stem(names[k])->0;
        let aff_path = paths::joined(dir, lang + ".aff"@);
        if paths::extension(names[k]) == Some("dic"@) && paths::lists(names, aff_path) {
            lemma_stem(names[k]);
            let own = InstalledView::Hunspell {
                lang,
                dic_path: paths::joined(dir, lang + ".dic"@),
                aff_path,
            };
            lemma_in_two(seq![own], rest, x);
            assert(seq![own].contains(x) <==> x == own) by {
                assert(seq![own][0] == own);
            }
            assert(is_pair(dir, names, k, own));
        }
        if rest.contains(x) {
            let i = choose|i: int| k + 1 <= i && #[trigger] is_pair(dir, names, i, x);
            assert(is_pair(dir, names, i, x));
        }
        assert(is_pair(dir, names, k, x) ==> dictionary::installed_pairs(dir, names, k).contains(
            x,
        ));
    }
}

proof fn lemma_sorted(s: Seq<InstalledView>, x: InstalledView)
    ensures
        dictionary::sorted_installed(s).contains(x) <==> s.contains(x),
    decreases s.len(),
{
    if s.len() > 0 {
        let front = s.drop_last();
        let own = s.last();
        lemma_sorted(front, x);
        let t = dictionary::sorted_installed(front);
        let p = order::place(dictionary::langs(t), own.lang(), t.len() as int);
        dictionary::lemma_place_bounds(dictionary::langs(t), own.lang(), t.len() as int);
        let now = t.insert(p, own);
        assert(s =~= front + seq![own]);
        lemma_in_two(front, seq![own], x);
        assert(seq![own].contains(x) <==> x == own) by {
            assert(seq![own][0] == own);
        }
        assert(now[p] == own);
        if t.contains(x) {
            let j = choose|j: int| 0 <= j < t.len() && t[j] == x;
            if j < p {
                assert(now[j] == x);
            } else {
                assert(now[j + 1] == x);
            }
        }
        if now.contains(x) {
            let j = choose|j: int| 0 <= j < now.len() && now[j] == x;
            if j < p {
                assert(t[j] == x);
            } else if j > p {
                assert(t[j - 1] == x);
            }
        }
    }
}

/// The installed dictionaries are the word lists and the complete pairs of a directory, and
/// no others.
pub proof fn law_installed_dictionaries(dir: Seq<char>, names: Seq<Seq<char>>, x: InstalledView)
    ensures
        dictionary::installed(dir, names).contains(x) <==> (exists|i: int| #[trigger]
            is_wordlist(names, i, x)) || (exists|i: int| #[trigger] is_pair(dir, names, i, x)),
{
    let a = dictionary::installed_wordlists(names, 0);
    let b = dictionary::installed_pairs(dir, names, 0);
    lemma_sorted(a + b, x);
    lemma_in_two(a, b, x);
    lemma_wordlists(names, 0, x);
    lemma_pairs(dir, names, 0, x);
}

// ---------------------------------------------------------------------------
// Words and keys
// ---------------------------------------------------------------------------

/// A word on an indented line.
pub open spec fn on_a_line(w: Seq<char>) -> Seq<char> {
    seq![' ', ' '] + w + seq!['\n']
}

proof fn lemma_word_lines(words: Seq<Seq<char>>, k: int, i: int)
    requires
        0 <= i < k <= words.len(),
    ensures
        exists|x: Seq<char>, y: Seq<char>|
            commands::spell::word_lines(words, k) == #[trigger] (x + on_a_line(words[i]) + y),
    decreases k,
{
    let before = commands::spell::word_lines(words, k - 1);
    let own = on_a_line(words[i]);
    reveal_strlit("  ");
    reveal_strlit("\n");
    assert("  "@ =~= seq![' ', ' ']);
    assert("\n"@ =~= seq!['\n']);
    if i < k - 1 {
        lemma_word_lines(words, k - 1, i);
        let (x, y) = choose|x: Seq<char>, y: Seq<char>| before == #[trigger] (x + own + y);
        let z = y + "  "@ + words[k - 1] + "\n"@;
        assert(commands::spell::word_lines(words, k) =~= x + own + z);
    } else {
        assert(commands::spell::word_lines(words, k) =~= before + own + Seq::<char>::empty());
    }
}

/// The list of a whitelist has a line for every word of it.
pub proof fn law_words_are_listed(path: Seq<char>, content: Seq<char>, w: Seq<char>)
    requires
        spell::whitelist_words(content).contains(w),
    ensures
        exists|x: Seq<char>, y: Seq<char>|
            commands::spell::listing(path, Some(content)) == #[trigger] (x + on_a_line(w) + y),
{
    broadcast use vstd::seq_lib::group_to_multiset_ensures;

    let all = spell::whitelist_words(content);
    let words = order::sorted(all);
    order::law_sorted(all);
    assert(all.to_multiset().count(w) > 0);
    assert(words.contains(w));
    let i = choose|i: int| 0 <= i < words.len() && words[i] == w;
    let lines = commands::spell::word_lines(words, words.len() as int);
    lemma_word_lines(words, words.len() as int, i);
    let (x, y) = choose|x: Seq<char>, y: Seq<char>| lines == #[trigger] (x + on_a_line(w) + y);
    let head = path + " ("@ + number::decimal(words.len()) + " word(s)):\n"@;
    assert(commands::spell::listing(path, Some(content)) =~= (head + x) + on_a_line(w) + y);
}

/// Every key of the bibliography that no file cites is named in one warning, unless all keys
/// are cited at once.
pub proof fn law_unused_keys_are_told(
    bib_file: Seq<char>,
    keys: Seq<Seq<char>>,
    files: Seq<(Seq<char>, Seq<char>)>,
    key: Seq<char>,
)
    requires
        keys.contains(key),
        !bib::files_cite(files, 0).contains(key),
        !bib::files_cite_all(files, 0),
    ensures
        ({
            let told = super::unused_findings(bib_file, bib::unused_keys(keys, files));
            &&& told.len() == 1
            &&& told[0].file == bib_file
            &&& exists|x: Seq<char>, y: Seq<char>| told[0].message == #[trigger] (x + key + y)
        }),
{
    let unused = bib::unused_keys(keys, files);
    bib::law_unused_keys(keys, files, key);
    let i = choose|i: int| 0 <= i < unused.len() && unused[i] == key;
    messages::lemma_joined_part(unused, ", "@, i);
    let (x, y) = choose|x: Seq<char>, y: Seq<char>|
        text::join(unused, ", "@) == #[trigger] (x + unused[i] + y);
    let head = "Unused .bib entries (never cited): "@;
    let told = super::unused_findings(bib_file, unused);
    assert(told[0].message =~= (head + x) + key + y);
}

// ---------------------------------------------------------------------------
// Accents
// ---------------------------------------------------------------------------

/// Whether a character is a vowel.
pub open spec fn is_vowel(c: char) -> bool {
    c == 'a' || c == 'e' || c == 'i' || c == 'o' || c == 'u' || c == 'A' || c == 'E' || c == 'I'
        || c == 'O' || c == 'U'
}

proof fn lemma_takes(row: Seq<char>, c: char, k: int)
    requires
        0 <= k < row.len(),
        row[k] == c,
    ensures
        text::find_char(row, c) is Some,
{
    crate::naming::lemma_has(row, c, 0, k);
}

/// Acute, grave, circumflex, diaeresis, macron and breve stand on every vowel; a tilde stands
/// on `n` as on `a` and `o`.
pub proof fn law_vowels_take_accents(accent: char, c: char)
    requires
        is_vowel(c) && (accent == '\'' || accent == '`' || accent == '^' || accent == '"' || accent
            == '=' || accent == 'u') || accent == '~' && (c == 'a' || c == 'n' || c == 'o' || c
            == 'A' || c == 'N' || c == 'O'),
    ensures
        accents::composed(accent, c) is Some,
{
    reveal_strlit("aeiouyAEIOUY");
    reveal_strlit("aeiouAEIOU");
    reveal_strlit("anoANO");
    reveal_strlit("aAeEiIoOuU");
    let row = accents::accent_row(accent).0;
    if accent == '\'' {
        let k: int = if c == 'a' { 0 } else if c == 'e' { 1 } else if c == 'i' { 2 } else if c == 'o' {
            3
        } else if c == 'u' { 4 } else if c == 'A' { 6 } else if c == 'E' { 7 } else if c == 'I' {
            8
        } else if c == 'O' { 9 } else { 10 };
        assert(row[k] == c);
        lemma_takes(row, c, k);
    } else if accent == '~' {
        let k: int = if c == 'a' { 0 } else if c == 'n' { 1 } else if c == 'o' { 2 } else if c == 'A' {
            3
        } else if c == 'N' { 4 } else { 5 };
        assert(row[k] == c);
        lemma_takes(row, c, k);
    } else if accent == 'u' {
        let k: int = if c == 'a' { 0 } else if c == 'A' { 1 } else if c == 'e' { 2 } else if c == 'E' {
            3
        } else if c == 'i' { 4 } else if c == 'I' { 5 } else if c == 'o' { 6 } else if c == 'O' {
            7
        } else if c == 'u' { 8 } else { 9 };
        assert(row[k] == c);
        lemma_takes(row, c, k);
    } else {
        let k: int = if c == 'a' { 0 } else if c == 'e' { 1 } else if c == 'i' { 2 } else if c == 'o' {
            3
        } else if c == 'u' { 4 } else if c == 'A' { 5 } else if c == 'E' { 6 } else if c == 'I' {
            7
        } else if c == 'O' { 8 } else { 9 };
        assert(row[k] == c);
        lemma_takes(row, c, k);
    }
}

} // verus!
