//! Which words spell checking reports: every word of the prose that nobody knows, and no
//! other.

use vstd::prelude::*;

use super::accents;
use super::dictionary::{self, WordDictionary};
use super::spell::{self, DictionaryAnswer, DictionaryLocation, Unknown};
use super::{FindingView, Severity};
use crate::chars;
use crate::position;
use crate::text;
use crate::texparse;

verus! {

/// The text of a file for the spell checker.
pub open spec fn checked_text(source: Seq<char>) -> Seq<char> {
    accents::spell_text(source, texparse::scan_source(source).tokens, 0, 0, 0).text
}

/// Whether a stretch of a text is a row of letters that goes on at neither end.
pub open spec fn is_row(t: Seq<char>, a: int, b: int) -> bool {
    &&& 0 <= a < b <= t.len()
    &&& forall|i: int| a <= i < b ==> chars::alphabetic(#[trigger] t[i])
    &&& a == 0 || !chars::alphabetic(t[a - 1])
    &&& b == t.len() || !chars::alphabetic(t[b])
}

/// Whether a word takes two bytes or more: two characters, or one beyond ASCII.
pub open spec fn is_long(w: Seq<char>) -> bool {
    w.len() >= 2 || w.len() == 1 && w[0] > '\u{7f}'
}

/// Whether a dictionary knows a word: a word list where it holds it, a Hunspell dictionary
/// where it accepts it.
pub open spec fn is_known(d: WordDictionary, w: Seq<char>) -> bool {
    match d {
        WordDictionary::Wordlist(set) => set@.contains(w),
        WordDictionary::Hunspell(h) => dictionary::accepted(h).contains(w),
    }
}

/// Whether findings hold the warning about a word.
pub open spec fn warns_of(findings: Seq<FindingView>, w: Seq<char>) -> bool {
    exists|k: int|
        0 <= k < findings.len() && (#[trigger] findings[k]).message == "Unknown word: '"@ + w + "'"@
            && findings[k].severity == Severity::Warning
}

proof fn lemma_long(w: Seq<char>)
    ensures
        text::byte_len(w) > 1 <==> is_long(w),
        text::byte_len(w) >= w.len(),
    decreases w.len(),
{
    if w.len() > 0 {
        lemma_long(w.drop_last());
        if w.len() == 1 {
            assert(w.drop_last() =~= Seq::<char>::empty());
            assert(w.last() == w[0]);
        }
    }
}

proof fn lemma_row_end(t: Seq<char>, a: int, b: int, i: int)
    requires
        is_row(t, a, b),
        a <= i <= b,
    ensures
        spell::letters_end(t, i) == b,
    decreases b - i,
{
    if i < b {
        assert(chars::alphabetic(t[i]));
        lemma_row_end(t, a, b, i + 1);
    }
}

proof fn lemma_letters(t: Seq<char>, i: int)
    requires
        0 <= i <= t.len(),
    ensures
        i <= spell::letters_end(t, i) <= t.len(),
        forall|j: int| i <= j < spell::letters_end(t, i) ==> chars::alphabetic(#[trigger] t[j]),
        spell::letters_end(t, i) < t.len() ==> !chars::alphabetic(t[spell::letters_end(t, i)]),
    decreases t.len() - i,
{
    if i < t.len() && chars::alphabetic(t[i]) {
        lemma_letters(t, i + 1);
    }
}

/// Every row of letters is among the runs.
proof fn lemma_row_is_found(t: Seq<char>, a: int, b: int, i: int) -> (j: int)
    requires
        is_row(t, a, b),
        0 <= i <= a,
    ensures
        0 <= j < spell::letter_runs(t, i).len(),
        spell::letter_runs(t, i)[j].1 == t.subrange(a, b),
    decreases t.len() - i,
{
    if chars::alphabetic(t[i]) {
        let e = spell::letters_end(t, i);
        lemma_letters(t, i);
        if i == a {
            lemma_row_end(t, a, b, a);
            0
        } else {
            if e > a {
                assert(chars::alphabetic(t[a - 1]));
            }
            let j = lemma_row_is_found(t, a, b, e);
            assert(spell::letter_runs(t, i)[j + 1] == spell::letter_runs(t, e)[j]);
            j + 1
        }
    } else {
        assert(i < a) by {
            assert(chars::alphabetic(t[a]));
        }
        lemma_row_is_found(t, a, b, i + 1)
    }
}

/// Every run is a row of letters.
proof fn lemma_run_is_row(t: Seq<char>, i: int, j: int) -> (a: int)
    requires
        0 <= i <= t.len(),
        i == 0 || i == t.len() || !chars::alphabetic(t[i - 1]) || !chars::alphabetic(t[i]),
        0 <= j < spell::letter_runs(t, i).len(),
    ensures
        is_row(t, a, a + spell::letter_runs(t, i)[j].1.len()),
        spell::letter_runs(t, i)[j] == (
            position::byte_at(t, a),
            t.subrange(a, a + spell::letter_runs(t, i)[j].1.len()),
        ),
    decreases t.len() - i,
{
    if chars::alphabetic(t[i]) {
        let e = spell::letters_end(t, i);
        lemma_letters(t, i);
        lemma_letters(t, i + 1);
        if j == 0 {
            assert(spell::letter_runs(t, i)[0].1 == t.subrange(i, e));
            i
        } else {
            assert(spell::letter_runs(t, i)[j] == spell::letter_runs(t, e)[j - 1]);
            lemma_run_is_row(t, e, j - 1)
        }
    } else {
        lemma_run_is_row(t, i + 1, j)
    }
}

proof fn lemma_trim_same(w: Seq<char>)
    requires
        w.len() > 0,
        forall|i: int| 0 <= i < w.len() ==> !chars::is_space(#[trigger] w[i]),
    ensures
        text::trim(w) == w,
{
    assert(!chars::is_space(w[0]));
    assert(!chars::is_space(w[w.len() - 1]));
    assert(text::trim_start(w) == w);
}

/// Every word of the prose that takes two bytes or more in lower case, and that neither the
/// dictionary nor the whitelist knows, is warned of.
pub proof fn law_unknown_words_are_warned_of(
    files: Seq<(Seq<char>, Seq<char>)>,
    default_lang: Option<Seq<char>>,
    dictionary: WordDictionary,
    location: DictionaryLocation,
    whitelist: Seq<Seq<char>>,
    f: int,
    a: int,
    b: int,
)
    requires
        0 <= f < files.len(),
        is_row(checked_text(files[f].1), a, b),
        forall|i: int| a <= i < b ==> !chars::is_space(#[trigger] checked_text(files[f].1)[i]),
    ensures
        ({
            let w = chars::lowercase(checked_text(files[f].1).subrange(a, b));
            is_long(w) && !is_known(dictionary, w) && !whitelist.contains(w) ==> warns_of(
                spell::spelling_findings(
                    files,
                    default_lang,
                    DictionaryAnswer::Ready { dictionary, location },
                    whitelist,
                ),
                w,
            )
        }),
{
    let t = checked_text(files[f].1);
    let row = t.subrange(a, b);
    let w = chars::lowercase(row);
    if is_long(w) && !is_known(dictionary, w) && !whitelist.contains(w) {
        assert forall|i: int| 0 <= i < row.len() implies !chars::is_space(#[trigger] row[i]) by {
            assert(row[i] == t[a + i]);
        }
        lemma_trim_same(row);
        lemma_long(w);
        let j = lemma_row_is_found(t, a, b, 0);
        let n = files.len() as int;
        spell::law_every_unknown_word_is_reported(files, dictionary, whitelist, n, f, j);
        let found = spell::unknown_in(files, dictionary, whitelist, n);
        let i = choose|i: int| 0 <= i < found.len() && (#[trigger] found[i]).word == w;
        let answer = DictionaryAnswer::Ready { dictionary, location };
        let all = spell::spelling_findings(files, default_lang, answer, whitelist);
        let first = spell::disagreement_findings(files, default_lang);
        assert(all[first.len() + i] == spell::unknown_finding(found[i]));
    }
}

/// Whether a word stands in the prose of one of the first `n` files, as a row of letters,
/// and nobody knows it.
pub open spec fn is_unknown(
    files: Seq<(Seq<char>, Seq<char>)>,
    n: int,
    dictionary: WordDictionary,
    whitelist: Seq<Seq<char>>,
    w: Seq<char>,
    file: Seq<char>,
) -> bool {
    &&& is_long(w)
    &&& !is_known(dictionary, w)
    &&& !whitelist.contains(w)
    &&& exists|f: int, a: int, b: int|
        0 <= f < n && files[f].0 == file && #[trigger] is_row(checked_text(files[f].1), a, b) && w
            == chars::lowercase(text::trim(checked_text(files[f].1).subrange(a, b)))
}

spec fn are_unknown(
    files: Seq<(Seq<char>, Seq<char>)>,
    n: int,
    dictionary: WordDictionary,
    whitelist: Seq<Seq<char>>,
    found: Seq<Unknown>,
) -> bool {
    forall|i: int|
        0 <= i < found.len() ==> is_unknown(
            files,
            n,
            dictionary,
            whitelist,
            (#[trigger] found[i]).word,
            found[i].file,
        )
}

proof fn lemma_runs_are_unknown(
    files: Seq<(Seq<char>, Seq<char>)>,
    n: int,
    found: Seq<Unknown>,
    chunks: Seq<(int, int)>,
    dictionary: WordDictionary,
    whitelist: Seq<Seq<char>>,
    k: int,
)
    requires
        0 < n <= files.len(),
        0 <= k,
        are_unknown(files, n, dictionary, whitelist, found),
    ensures
        are_unknown(
            files,
            n,
            dictionary,
            whitelist,
            spell::unknown_in_runs(
                found,
                files[n - 1].0,
                chunks,
                spell::letter_runs(checked_text(files[n - 1].1), 0),
                dictionary,
                whitelist,
                k,
            ),
        ),
    decreases spell::letter_runs(checked_text(files[n - 1].1), 0).len() - k,
{
    let t = checked_text(files[n - 1].1);
    let file = files[n - 1].0;
    let runs = spell::letter_runs(t, 0);
    if k < runs.len() {
        let word = spell::looked_up(runs[k].1);
        let next = if spell::is_reported(runs[k].1, dictionary, whitelist) && !spell::is_found(
            found,
            word,
        ) {
            found.push(Unknown { word, file, line: accents::line_for(chunks, runs[k].0) })
        } else {
            found
        };
        let a = lemma_run_is_row(t, 0, k);
        lemma_long(word);
        let b = a + runs[k].1.len();
        assert(is_row(checked_text(files[n - 1].1), a, b));
        assert forall|i: int| 0 <= i < next.len() implies is_unknown(
            files,
            n,
            dictionary,
            whitelist,
            (#[trigger] next[i]).word,
            next[i].file,
        ) by {
            if i < found.len() {
                assert(next[i] == found[i]);
            }
        }
        lemma_runs_are_unknown(files, n, next, chunks, dictionary, whitelist, k + 1);
    }
}

proof fn lemma_all_are_unknown(
    files: Seq<(Seq<char>, Seq<char>)>,
    n: int,
    dictionary: WordDictionary,
    whitelist: Seq<Seq<char>>,
)
    requires
        0 <= n <= files.len(),
    ensures
        are_unknown(
            files,
            n,
            dictionary,
            whitelist,
            spell::unknown_in(files, dictionary, whitelist, n),
        ),
    decreases n,
{
    if n > 0 {
        lemma_all_are_unknown(files, n - 1, dictionary, whitelist);
        let before = spell::unknown_in(files, dictionary, whitelist, n - 1);
        assert forall|i: int| 0 <= i < before.len() implies is_unknown(
            files,
            n,
            dictionary,
            whitelist,
            (#[trigger] before[i]).word,
            before[i].file,
        ) by {
            assert(is_unknown(files, n - 1, dictionary, whitelist, before[i].word, before[i].file));
        }
        let s = accents::spell_text(
            files[n - 1].1,
            texparse::scan_source(files[n - 1].1).tokens,
            0,
            0,
            0,
        );
        lemma_runs_are_unknown(files, n, before, s.chunks, dictionary, whitelist, 0);
    }
}

/// Every warning about a word is about one that stands in the prose of the file it names,
/// takes two bytes or more, and is known neither to the dictionary nor to the whitelist.
pub proof fn law_only_unknown_words_are_warned_of(
    files: Seq<(Seq<char>, Seq<char>)>,
    default_lang: Option<Seq<char>>,
    dictionary: WordDictionary,
    location: DictionaryLocation,
    whitelist: Seq<Seq<char>>,
    k: int,
)
    requires
        spell::disagreement_findings(files, default_lang).len() <= k < spell::spelling_findings(
            files,
            default_lang,
            DictionaryAnswer::Ready { dictionary, location },
            whitelist,
        ).len(),
    ensures
        ({
            let finding = spell::spelling_findings(
                files,
                default_lang,
                DictionaryAnswer::Ready { dictionary, location },
                whitelist,
            )[k];
            exists|w: Seq<char>|
                finding.message == #[trigger] ("Unknown word: '"@ + w + "'"@) && is_unknown(
                    files,
                    files.len() as int,
                    dictionary,
                    whitelist,
                    w,
                    finding.file,
                )
        }),
{
    let n = files.len() as int;
    let answer = DictionaryAnswer::Ready { dictionary, location };
    let all = spell::spelling_findings(files, default_lang, answer, whitelist);
    let first = spell::disagreement_findings(files, default_lang);
    let found = spell::unknown_in(files, dictionary, whitelist, n);
    let i = k - first.len();
    assert(all[k] == spell::unknown_finding(found[i]));
    lemma_all_are_unknown(files, n, dictionary, whitelist);
    assert(is_unknown(files, n, dictionary, whitelist, found[i].word, found[i].file));
    assert(all[k].message == "Unknown word: '"@ + found[i].word + "'"@);
}

} // verus!
