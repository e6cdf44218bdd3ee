//! What spell checking goes by: the words of lists, the language of a document, and the
//! prose that is looked at.

use vstd::prelude::*;

use super::accents;
use super::blocks;
use super::dictionary;
use super::spell;
use crate::chars;
use crate::mentions;
use crate::position;
use crate::text;
use crate::texparse::{self, SpannedView, TokenView};
use crate::wordset;

verus! {

// ---------------------------------------------------------------------------
// Word lists
// ---------------------------------------------------------------------------

/// Whether a line of a file holds a word: its text without the white space around it, in
/// lower case.
pub open spec fn holds_word(content: Seq<char>, w: Seq<char>, comments: bool) -> bool {
    exists|n: int|
        0 <= n < text::lines(content).len() && is_word_line(
            #[trigger] text::lines(content)[n],
            w,
            comments,
        )
}

/// Whether a line is a word; `comments` says whether one that begins with `#` is none.
pub open spec fn is_word_line(l: Seq<char>, w: Seq<char>, comments: bool) -> bool {
    text::trim(l).len() > 0 && !(comments && text::trim(l)[0] == '#') && chars::lowercase(
        text::trim(l),
    ) == w
}

proof fn lemma_two(a: Seq<char>, b: Seq<Seq<char>>, w: Seq<char>)
    ensures
        (seq![a] + b).contains(w) <==> a == w || b.contains(w),
{
    let s = seq![a] + b;
    if a == w {
        assert(s[0] == w);
    }
    if b.contains(w) {
        let k = choose|k: int| 0 <= k < b.len() && b[k] == w;
        assert(s[k + 1] == w);
    }
    if s.contains(w) {
        let k = choose|k: int| 0 <= k < s.len() && s[k] == w;
        if k > 0 {
            assert(b[k - 1] == w);
        }
    }
}

proof fn lemma_whitelist(ls: Seq<Seq<char>>, k: int, w: Seq<char>)
    requires
        0 <= k,
    ensures
        spell::whitelist_entries(ls, k).contains(w) <==> exists|n: int|
            k <= n < ls.len() && is_word_line(#[trigger] ls[n], w, true),
    decreases ls.len() - k,
{
    if k < ls.len() {
        lemma_whitelist(ls, k + 1, w);
        lemma_two(chars::lowercase(text::trim(ls[k])), spell::whitelist_entries(ls, k + 1), w);
    }
}

proof fn lemma_wordlist(ls: Seq<Seq<char>>, k: int, w: Seq<char>)
    requires
        0 <= k,
    ensures
        dictionary::wordlist_entries(ls, k).contains(w) <==> exists|n: int|
            k <= n < ls.len() && is_word_line(#[trigger] ls[n], w, false),
    decreases ls.len() - k,
{
    if k < ls.len() {
        lemma_wordlist(ls, k + 1, w);
        lemma_two(chars::lowercase(text::trim(ls[k])), dictionary::wordlist_entries(ls, k + 1), w);
    }
}

/// A whitelist holds the words of its lines, one on each, in lower case; blank lines and
/// lines that begin with `#` hold none. A word list holds them too, without comments.
pub proof fn law_lists_hold_the_words_of_their_lines(content: Seq<char>, w: Seq<char>)
    ensures
        spell::whitelist_words(content).contains(w) <==> holds_word(content, w, true),
        wordset::distinct(dictionary::wordlist_entries(text::lines(content), 0)).contains(w)
            <==> holds_word(content, w, false),
{
    let ls = text::lines(content);
    wordset::lemma_distinct(spell::whitelist_entries(ls, 0));
    wordset::lemma_distinct(dictionary::wordlist_entries(ls, 0));
    lemma_whitelist(ls, 0, w);
    lemma_wordlist(ls, 0, w);
}

proof fn lemma_union(a: Seq<Seq<char>>, b: Seq<Seq<char>>, w: Seq<char>)
    ensures
        spell::union(a, b).contains(w) <==> a.contains(w) || b.contains(w),
    decreases b.len(),
{
    if b.len() > 0 {
        let front = b.drop_last();
        lemma_union(a, front, w);
        let u = spell::union(a, front);
        let last = b.last();
        assert(b.contains(w) <==> front.contains(w) || last == w) by {
            if front.contains(w) {
                let k = choose|k: int| 0 <= k < front.len() && front[k] == w;
                assert(b[k] == w);
            }
            if last == w {
                assert(b[b.len() - 1] == w);
            }
            if b.contains(w) {
                let k = choose|k: int| 0 <= k < b.len() && b[k] == w;
                if k < front.len() {
                    assert(front[k] == w);
                }
            }
        }
        if !u.contains(last) {
            let p = u.push(last);
            if u.contains(w) {
                let k = choose|k: int| 0 <= k < u.len() && u[k] == w;
                assert(p[k] == w);
            }
            if last == w {
                assert(p[u.len() as int] == w);
            }
            if p.contains(w) {
                let k = choose|k: int| 0 <= k < p.len() && p[k] == w;
                if k < u.len() {
                    assert(u[k] == w);
                }
            }
        }
    }
}

/// A word is accepted where any of the whitelists that can be read holds it.
pub proof fn law_any_whitelist_accepts(files: Seq<Option<Seq<char>>>, k: int, w: Seq<char>)
    requires
        0 <= k <= files.len(),
    ensures
        spell::all_whitelist_words(files, k).contains(w) <==> exists|f: int|
            0 <= f < k && (#[trigger] files[f] matches Some(t) && holds_word(t, w, true)),
    decreases k,
{
    if k > 0 {
        law_any_whitelist_accepts(files, k - 1, w);
        if let Some(t) = files[k - 1] {
            lemma_union(
                spell::all_whitelist_words(files, k - 1),
                spell::whitelist_entries(text::lines(t), 0),
                w,
            );
            lemma_whitelist(text::lines(t), 0, w);
        }
    }
}

// ---------------------------------------------------------------------------
// Languages
// ---------------------------------------------------------------------------

/// Whether a word names a language.
pub open spec fn names(word: Seq<char>, language: Seq<char>) -> bool {
    ||| language == "spanish"@ && (word == "spanish"@ || word == "es"@ || word == "spanish-mexico"@
        || word == "es-MX"@)
    ||| language == "english"@ && (word == "english"@ || word == "en"@ || word == "USenglish"@
        || word == "UKenglish"@)
    ||| language == "french"@ && (word == "french"@ || word == "fr"@ || word == "francais"@)
}

/// Whether the `k`-th token loads a language package in the preamble.
pub open spec fn loads_package(ts: Seq<TokenView>, k: int) -> bool {
    blocks::is_in_preamble(ts, k, "usepackage"@, Some("babel"@)) || blocks::is_in_preamble(
        ts,
        k,
        "usepackage"@,
        Some("polyglossia"@),
    )
}

spec fn is_bare(w: Seq<char>) -> bool {
    w.len() > 0 && forall|i: int|
        0 <= i < w.len() ==> #[trigger] w[i] != ',' && w[i] != '=' && !chars::is_space(w[i])
}

proof fn lemma_names_are_bare(word: Seq<char>, language: Seq<char>)
    requires
        names(word, language),
    ensures
        is_bare(word),
        spell::option_language(word) == Some(language),
{
    reveal_strlit("spanish");
    reveal_strlit("es");
    reveal_strlit("spanish-mexico");
    reveal_strlit("es-MX");
    reveal_strlit("english");
    reveal_strlit("en");
    reveal_strlit("USenglish");
    reveal_strlit("UKenglish");
    reveal_strlit("french");
    reveal_strlit("fr");
    reveal_strlit("francais");
    assert(is_bare("spanish"@));
    assert(is_bare("es"@));
    assert(is_bare("spanish-mexico"@));
    assert(is_bare("es-MX"@));
    assert(is_bare("english"@));
    assert(is_bare("en"@));
    assert(is_bare("USenglish"@));
    assert(is_bare("UKenglish"@));
    assert(is_bare("french"@));
    assert(is_bare("fr"@));
    assert(is_bare("francais"@));
    lemma_bare(word);
    assert("spanish"@[0] == 's');
    assert("es"@[1] == 's');
    assert("spanish-mexico"@[0] == 's');
    assert("es-MX"@[1] == 's');
    assert("english"@[1] == 'n');
    assert("en"@[1] == 'n');
    assert("USenglish"@[0] == 'U');
    assert("UKenglish"@[0] == 'U');
    assert("french"@[0] == 'f');
    assert("fr"@[0] == 'f');
    assert("francais"@[0] == 'f');
}

proof fn lemma_bare(w: Seq<char>)
    requires
        is_bare(w),
    ensures
        text::trim(w) == w,
        text::rfind_char(w, '=') is None,
        text::split(w, ',') == seq![w],
{
    assert(!chars::is_space(w[0]));
    assert(!chars::is_space(w[w.len() - 1]));
    assert(text::trim_start(w) == w);
    text::lemma_rfind_char_bounds(w, '=', w.len() as int);
    text::lemma_find_char_bounds(w, ',', 0);
    if let Some(k) = text::rfind_char(w, '=') {
        assert(w[k] != '=');
    }
    if let Some(k) = text::find_char(w, ',') {
        assert(w[k] != ',');
    }
}

proof fn lemma_not_declared(source: Seq<char>, k: int)
    requires
        0 <= k,
        forall|j: int|
            0 <= j < k && j < texparse::tokens_of(source).len()
                ==> !(#[trigger] texparse::tokens_of(source)[j] is BeginDocument),
        forall|j: int| k <= j ==> !#[trigger] loads_package(texparse::tokens_of(source), j),
    ensures
        spell::declared_from(source, texparse::scan_source(source).tokens, k) is None,
    decreases texparse::tokens_of(source).len() - k,
{
    let ts = texparse::tokens_of(source);
    let spanned = texparse::scan_source(source).tokens;
    if k < spanned.len() {
        assert(ts[k] == spanned[k].token);
        assert(!loads_package(ts, k));
        if !(ts[k] is BeginDocument) {
            lemma_not_declared(source, k + 1);
        }
    }
}

proof fn lemma_declared(source: Seq<char>, k: int, j: int, word: Seq<char>, language: Seq<char>)
    requires
        0 <= j <= k,
        loads_package(texparse::tokens_of(source), k),
        forall|i: int| j <= i < k ==> !#[trigger] loads_package(texparse::tokens_of(source), i),
        texparse::tokens_of(source)[k] matches TokenView::Command { args, .. } && args.len() == 2
            && args[0] == word,
        names(word, language),
    ensures
        spell::declared_from(source, texparse::scan_source(source).tokens, j) matches Some(d)
            && d.0 == language,
    decreases k - j,
{
    let ts = texparse::tokens_of(source);
    let spanned = texparse::scan_source(source).tokens;
    assert(ts[j] == spanned[j].token);
    if j < k {
        assert(!loads_package(ts, j));
        assert(!(ts[j] is BeginDocument));
        if let TokenView::Command { name, args } = ts[j] {
            if name == "usepackage"@ && spell::usepackage_language(args) is Some {
                assert(blocks::is_in_preamble(ts, j, "usepackage"@, Some(args.last())));
                assert(loads_package(ts, j));
            }
        }
        lemma_declared(source, k, j + 1, word, language);
    } else {
        lemma_names_are_bare(word, language);
        lemma_bare(word);
        if let TokenView::Command { name, args } = ts[k] {
            assert(text::split(args[0], ',')[0] == word);
            assert(spell::first_language(text::split(args[0], ','), 0) == Some(language));
            assert(spell::group_language(args, 0) == Some(language));
        }
    }
}

/// The language of a document is the one that its first language package in a preamble is
/// given, whatever the default; without such a package it is the default, and English where
/// there is none.
pub proof fn law_language_is_the_declared_one(
    files: Seq<(Seq<char>, Seq<char>)>,
    default_lang: Option<Seq<char>>,
    f: int,
    k: int,
    word: Seq<char>,
    language: Seq<char>,
)
    ensures
        (forall|g: int, j: int|
            0 <= g < files.len() ==> !#[trigger] loads_package(
                texparse::tokens_of(files[g].1),
                j,
            )) ==> spell::language_of(files, default_lang) == match default_lang {
            Some(l) => l,
            None => "english"@,
        },
        ({
            &&& 0 <= f < files.len()
            &&& loads_package(texparse::tokens_of(files[f].1), k)
            &&& forall|j: int|
                0 <= j < k ==> !#[trigger] loads_package(texparse::tokens_of(files[f].1), j)
            &&& forall|g: int, j: int|
                0 <= g < f ==> !#[trigger] loads_package(texparse::tokens_of(files[g].1), j)
            &&& texparse::tokens_of(files[f].1)[k] matches TokenView::Command { args, .. }
                && args.len() == 2 && args[0] == word
            &&& names(word, language)
        }) ==> spell::language_of(files, default_lang) == language,
{
    if forall|g: int, j: int|
        0 <= g < files.len() ==> !#[trigger] loads_package(texparse::tokens_of(files[g].1), j) {
        lemma_none_declared(files, 0, files.len() as int);
    }
    if 0 <= f < files.len() && loads_package(texparse::tokens_of(files[f].1), k) && (forall|j: int|
        0 <= j < k ==> !#[trigger] loads_package(texparse::tokens_of(files[f].1), j)) && (forall|
        g: int,
        j: int,
    |
        0 <= g < f ==> !#[trigger] loads_package(texparse::tokens_of(files[g].1), j))
        && texparse::tokens_of(files[f].1)[k] is Command && names(word, language) {
        if let TokenView::Command { args, .. } = texparse::tokens_of(files[f].1)[k] {
            if args.len() == 2 && args[0] == word {
                lemma_none_declared(files, 0, f);
                lemma_declared(files[f].1, k, 0, word, language);
            }
        }
    }
}

/// Files that load no language package declare none.
proof fn lemma_none_declared(files: Seq<(Seq<char>, Seq<char>)>, k: int, n: int)
    requires
        0 <= k <= n <= files.len(),
        forall|g: int, j: int|
            0 <= g < n ==> !#[trigger] loads_package(texparse::tokens_of(files[g].1), j),
    ensures
        spell::declared_in(files, k) == spell::declared_in(files, n),
    decreases n - k,
{
    if k < n {
        assert forall|j: int| 0 <= j implies !#[trigger] loads_package(
            texparse::tokens_of(files[k].1),
            j,
        ) by {}
        lemma_not_declared(files[k].1, 0);
        lemma_none_declared(files, k + 1, n);
    }
}

// ---------------------------------------------------------------------------
// Prose
// ---------------------------------------------------------------------------

/// Whether a text stands somewhere in another.
pub open spec fn is_in(t: Seq<char>, s: Seq<char>) -> bool {
    exists|x: Seq<char>, y: Seq<char>| s == #[trigger] (x + t + y)
}

proof fn lemma_in_behind(t: Seq<char>, s: Seq<char>, a: Seq<char>)
    requires
        is_in(t, s),
    ensures
        is_in(t, a + s),
{
    let (x, y) = choose|x: Seq<char>, y: Seq<char>| s == #[trigger] (x + t + y);
    assert(a + s =~= (a + x) + t + y);
}

proof fn lemma_no_groups(t: Seq<char>)
    requires
        forall|i: int| 0 <= i ==> !#[trigger] mentions::stands(t, i, "{}"@),
    ensures
        text::replace(t, "{}"@, Seq::empty()) == t,
{
    text::lemma_find_bounds(t, "{}"@, 0);
    if let Some(k) = text::find(t, "{}"@) {
        assert(mentions::stands(t, k, "{}"@)) by {
            assert forall|m: int| 0 <= m < "{}"@.len() implies t[k + m] == #[trigger] "{}"@[m] by {
                assert(t.subrange(k, k + "{}"@.len())[m] == t[k + m]);
            }
        }
    }
}

/// Every piece of prose that does not follow a command is looked at as it is, if it holds no
/// empty group.
pub proof fn law_prose_is_looked_at(
    source: Seq<char>,
    tokens: Seq<SpannedView>,
    j: int,
    at: int,
    k: int,
    t: Seq<char>,
)
    requires
        0 <= j <= k < tokens.len(),
        tokens[k].token == TokenView::Text(t),
        forall|i: int| 0 <= i ==> !#[trigger] mentions::stands(t, i, "{}"@),
        k > 0 ==> !(tokens[k - 1].token is Command),
    ensures
        is_in(t, accents::spell_text(source, tokens, j, 0, at).text),
    decreases k - j,
{
    lemma_prose(source, tokens, j, 0, at, k, t);
}

proof fn lemma_prose(
    source: Seq<char>,
    tokens: Seq<SpannedView>,
    j: int,
    skip: int,
    at: int,
    k: int,
    t: Seq<char>,
)
    requires
        0 <= j <= k < tokens.len(),
        j == k ==> skip == 0,
        tokens[k].token == TokenView::Text(t),
        forall|i: int| 0 <= i ==> !#[trigger] mentions::stands(t, i, "{}"@),
        k > 0 ==> !(tokens[k - 1].token is Command),
    ensures
        is_in(t, accents::spell_text(source, tokens, j, skip, at).text),
    decreases k - j,
{
    let all = accents::spell_text(source, tokens, j, skip, at).text;
    let none = Seq::<char>::empty();
    if j == k {
        lemma_no_groups(t);
        lemma_skip_none(t);
        let rest = accents::spell_text(source, tokens, k + 1, 0, at + text::byte_len(t)).text;
        if t.len() > 0 {
            assert(all == t + rest);
            assert(all =~= none + t + rest);
        } else {
            assert(t =~= none);
            assert(all =~= none + t + all);
        }
    } else {
        match tokens[j].token {
            TokenView::Text(x) => {
                let piece = accents::visible(x, skip);
                if piece.len() > 0 {
                    let next = at + text::byte_len(piece);
                    lemma_prose(source, tokens, j + 1, 0, next, k, t);
                    lemma_in_behind(t, accents::spell_text(source, tokens, j + 1, 0, next).text, piece);
                } else {
                    lemma_prose(source, tokens, j + 1, 0, at, k, t);
                }
            },
            TokenView::Command { name, args } => {
                assert(j + 1 < k);
                if accents::accent_of(name) is Some {
                    match accents::resolved(name, args, tokens, j) {
                        Some((c, base)) => {
                            let next = at + chars::utf8_width(c);
                            match base {
                                accents::Base::Argument => {
                                    lemma_prose(source, tokens, j + 1, 0, next, k, t);
                                    lemma_in_behind(
                                        t,
                                        accents::spell_text(source, tokens, j + 1, 0, next).text,
                                        seq![c],
                                    );
                                },
                                accents::Base::NextText(s) => {
                                    lemma_prose(source, tokens, j + 1, s, next, k, t);
                                    lemma_in_behind(
                                        t,
                                        accents::spell_text(source, tokens, j + 1, s, next).text,
                                        seq![c],
                                    );
                                },
                                accents::Base::Dotless(s) => {
                                    assert(tokens[j + 2].token is Command);
                                    assert(k != j + 2);
                                    assert(k != j + 3);
                                    lemma_prose(source, tokens, j + 3, s, next, k, t);
                                    lemma_in_behind(
                                        t,
                                        accents::spell_text(source, tokens, j + 3, s, next).text,
                                        seq![c],
                                    );
                                },
                            }
                        },
                        None => {
                            lemma_prose(source, tokens, j + 1, 0, at + 1, k, t);
                            lemma_in_behind(
                                t,
                                accents::spell_text(source, tokens, j + 1, 0, at + 1).text,
                                seq![' '],
                            );
                        },
                    }
                } else if accents::is_transparent(name) {
                    lemma_prose(source, tokens, j + 1, 0, at, k, t);
                } else {
                    lemma_prose(source, tokens, j + 1, 0, at + 1, k, t);
                    let rest = accents::spell_text(source, tokens, j + 1, 0, at + 1).text;
                    lemma_in_behind(t, rest, name);
                    lemma_in_behind(t, rest, seq![' ']);
                }
            },
            _ => {
                lemma_prose(source, tokens, j + 1, 0, at + 1, k, t);
                lemma_in_behind(
                    t,
                    accents::spell_text(source, tokens, j + 1, 0, at + 1).text,
                    seq![' '],
                );
            },
        }
    }
}

proof fn lemma_skip_none(t: Seq<char>)
    ensures
        t.skip(position::chars_before(t, 0)) == t,
{
    assert(position::chars_before(t, 0) == 0);
    assert(t.skip(0) =~= t);
}

} // verus!
