//! Dictionaries: word lists and Hunspell pairs.

use vstd::prelude::*;

use super::spell::{DictionaryLocation, LocationView};
use crate::chars;
use crate::order;
use crate::paths;
use crate::position;
use crate::text::{self, chars_of, string_of};
use crate::wordset::{self, WordSet};

verus! {

/// The hash builder of a Hunspell dictionary.
#[verifier::external_type_specification]
#[verifier::external_body]
pub struct ExDefaultHashBuilder(spellbook::DefaultHashBuilder);

/// A Hunspell dictionary.
#[verifier::external_type_specification]
#[verifier::external_body]
#[verifier::reject_recursive_types(S)]
pub struct ExDictionary<S>(spellbook::Dictionary<S>);

/// The words that a Hunspell dictionary accepts.
pub uninterp spec fn accepted(d: spellbook::Dictionary<spellbook::DefaultHashBuilder>) -> Set<
    Seq<char>,
>;

/// The fault that keeps an affix file and a word file from being read as a dictionary.
pub uninterp spec fn hunspell_fault(aff: Seq<char>, dic: Seq<char>) -> Option<Seq<char>>;

/// The sets of words that a dictionary of an affix file and a word file may accept.
pub uninterp spec fn readings(aff: Seq<char>, dic: Seq<char>) -> Set<Set<Seq<char>>>;

/// Whether a line of an affix file names a language in which `i` and `I` are not the same
/// letter.
pub open spec fn names_turkic(line: Seq<char>) -> bool {
    let ws = text::words(line);
    ws.len() >= 2 && text::ends_with(ws[0], "LANG"@) && (ws[1] == "tr"@ || ws[1] == "tr_TR"@
        || ws[1] == "az"@ || ws[1] == "crh"@)
}

/// Whether an affix file names such a language.
pub open spec fn is_turkic(aff: Seq<char>) -> bool {
    exists|k: int| 0 <= k < text::lines(aff).len() && names_turkic(#[trigger] text::lines(aff)[k])
}

/// The most bytes that a letter takes as it is and as a small letter. Only three small
/// letters take more than their capitals, and those of `i` and `I` in a language that
/// tells them apart.
pub open spec fn case_width(c: char, turkic: bool) -> nat {
    if turkic && (c == 'i' || c == 'I') {
        2
    } else if c == '\u{130}' || c == '\u{23a}' || c == '\u{23e}' {
        3
    } else {
        chars::utf8_width(c)
    }
}

/// The most bytes that the letters of a line take as they are and as small letters.
pub open spec fn lowered_width(line: Seq<char>, turkic: bool) -> nat
    decreases line.len(),
{
    if line.len() == 0 {
        0
    } else {
        lowered_width(line.drop_last(), turkic) + case_width(line.last(), turkic)
    }
}

/// Whether a character may take more bytes as a capital. Latin letters up to U+017F, Greek
/// and Cyrillic ones do not, but for two.
pub open spec fn may_widen(c: char) -> bool {
    !(c <= '\u{17f}' && c != '\u{149}') && !('\u{391}' <= c <= '\u{3ce}' && c != '\u{3b0}') && !(
    '\u{400}' <= c <= '\u{52f}')
}

/// Whether a text holds such a character.
pub open spec fn is_wide(line: Seq<char>) -> bool {
    exists|k: int| 0 <= k < line.len() && may_widen(#[trigger] line[k])
}

/// The most bytes that a stem on a line takes, as it is or with a capital at its start. A
/// capital takes up to four bytes more than its small letter.
pub open spec fn stem_room(line: Seq<char>, turkic: bool) -> nat {
    lowered_width(line, turkic) + if is_wide(line) {
        4nat
    } else {
        0
    }
}

/// Whether a line of a word file is over the limit of a line, which is an error of the
/// file, or under the limit of a stem in any letter case.
pub open spec fn line_fits(line: Seq<char>, turkic: bool) -> bool {
    text::byte_len(text::trim(line)) > 65535 || stem_room(text::trim(line), turkic) <= 65535
}

/// Whether every line of a word file fits.
pub open spec fn lines_fit(aff: Seq<char>, dic: Seq<char>) -> bool {
    forall|k: int|
        0 <= k < text::lines(dic).len() ==> line_fits(
            #[trigger] text::lines(dic)[k],
            is_turkic(aff),
        )
}

/// `spellbook::Dictionary::new` reads an affix file and a word file. Whether it fails,
/// and with which message, depends on the two texts alone. The words that the dictionary
/// accepts are one of the [`readings`] of the texts. There can be several of them: where a
/// stem is listed twice, once as forbidden, the hash builder, which is seeded by chance,
/// decides which of the two counts. A line over 65535 bytes is an error; a line within that
/// limit whose stem grows over it in another letter case panics, so the lines have to fit.
#[verifier::external_body]
fn read_hunspell(aff: &str, dic: &str) -> (r: Result<
    spellbook::Dictionary<spellbook::DefaultHashBuilder>,
    String,
>)
    requires
        lines_fit(aff@, dic@),
    ensures
        match r {
            Ok(d) => hunspell_fault(aff@, dic@) is None && readings(aff@, dic@).contains(
                accepted(d),
            ),
            Err(m) => hunspell_fault(aff@, dic@) == Some(m@),
        },
{
    match spellbook::Dictionary::new(aff, dic) {
        Ok(d) => Ok(d),
        Err(e) => Err(e.to_string()),
    }
}

/// `spellbook::Dictionary::check` says whether a dictionary accepts a word. The answer
/// depends on the dictionary and the word alone.
#[verifier::external_body]
fn hunspell_accepts(
    d: &spellbook::Dictionary<spellbook::DefaultHashBuilder>,
    word: &str,
) -> (r: bool)
    ensures
        r == accepted(*d).contains(word@),
{
    d.check(word)
}

/// A dictionary that answers one question: is this word known?
pub enum WordDictionary {
    Wordlist(WordSet),
    Hunspell(spellbook::Dictionary<spellbook::DefaultHashBuilder>),
}

impl WordDictionary {
    /// Whether the dictionary is well formed.
    pub open spec fn wf(self) -> bool {
        match self {
            WordDictionary::Wordlist(set) => set.wf(),
            WordDictionary::Hunspell(_) => true,
        }
    }

    /// Whether a word is known.
    pub open spec fn knows(self, word: Seq<char>) -> bool {
        match self {
            WordDictionary::Wordlist(set) => set@.contains(word),
            WordDictionary::Hunspell(d) => accepted(d).contains(word),
        }
    }

    /// Whether a word is known.
    pub fn contains(&self, word: &str) -> (r: bool)
        requires
            self.wf(),
        ensures
            r == self.knows(word@),
    {
        match self {
            WordDictionary::Wordlist(set) => set.contains(word),
            WordDictionary::Hunspell(d) => hunspell_accepts(d, word),
        }
    }
}

/// The words of a word list from its `k`-th line on, in lower case; blank lines are
/// skipped.
pub open spec fn wordlist_entries(ls: Seq<Seq<char>>, k: int) -> Seq<Seq<char>>
    decreases ls.len() - k,
{
    if k < 0 || k >= ls.len() {
        Seq::empty()
    } else {
        let w = text::trim(ls[k]);
        if w.len() == 0 {
            wordlist_entries(ls, k + 1)
        } else {
            seq![chars::lowercase(w)] + wordlist_entries(ls, k + 1)
        }
    }
}

proof fn lemma_entries_step(ls: Seq<Seq<char>>, k: int, done: Seq<Seq<char>>)
    requires
        0 <= k < ls.len(),
    ensures
        ({
            let w = text::trim(ls[k]);
            let next = if w.len() == 0 {
                done
            } else {
                done.push(chars::lowercase(w))
            };
            done + wordlist_entries(ls, k) == next + wordlist_entries(ls, k + 1)
        }),
{
    let w = text::trim(ls[k]);
    if w.len() > 0 {
        assert(done + (seq![chars::lowercase(w)] + wordlist_entries(ls, k + 1)) =~= done.push(
            chars::lowercase(w),
        ) + wordlist_entries(ls, k + 1));
    }
}

/// The set of the words of a word list.
pub fn parse_wordlist(content: &str) -> (r: WordSet)
    ensures
        r.wf(),
        r@ == wordset::distinct(wordlist_entries(text::lines(content@), 0)),
{
    let c = chars_of(content);
    let ls = text::lines_of(c.as_slice());
    let ghost all = text::lines(content@);
    let ghost mut done: Seq<Seq<char>> = Seq::empty();
    let mut set = WordSet::new();
    let mut k: usize = 0;
    assert(done + wordlist_entries(all, 0) =~= wordlist_entries(all, 0));
    while k < ls.len()
        invariant
            k <= ls@.len(),
            all == text::slices(ls@),
            set.wf(),
            set@ == wordset::distinct(done),
            done + wordlist_entries(all, k as int) == wordlist_entries(all, 0),
        decreases ls@.len() - k,
    {
        assert(all[k as int] == ls@[k as int]@);
        proof {
            lemma_entries_step(all, k as int, done);
        }
        let w = text::trimmed(ls[k]);
        if w.len() > 0 {
            let lower = chars::to_lowercase(string_of(w).as_str());
            set.insert(lower.as_str());
            proof {
                assert(done.push(lower@).drop_last() =~= done);
                done = done.push(lower@);
            }
        }
        k = k + 1;
    }
    assert(done =~= wordlist_entries(all, 0));
    set
}

/// The texts of the files of a dictionary, where they can be read.
#[derive(Debug)]
pub enum DictionaryFiles {
    Wordlist(Option<String>),
    Hunspell { aff: Option<String>, dic: Option<String> },
}

/// What comes of loading a dictionary.
pub enum Loaded {
    /// A word list with these words.
    Words(Seq<Seq<char>>),
    /// A Hunspell dictionary of these two texts.
    Pair { aff: Seq<char>, dic: Seq<char> },
    /// Nothing, for the given reason.
    Failed(Seq<char>),
}

/// The fault of a Hunspell pair: a line of the word file that does not fit, or what keeps
/// the two texts from being read.
pub open spec fn pair_fault(aff: Seq<char>, dic: Seq<char>) -> Option<Seq<char>> {
    if lines_fit(aff, dic) {
        hunspell_fault(aff, dic)
    } else {
        Some("a line of the word file is too long"@)
    }
}

fn turkic_line(line: &[char]) -> (r: bool)
    ensures
        r == names_turkic(line@),
{
    let ws = text::words_of(line);
    let ghost all = text::slices(ws@);
    if ws.len() < 2 {
        return false;
    }
    assert(all[0] == ws@[0]@ && all[1] == ws@[1]@);
    text::ends(ws[0], "LANG") && (text::is_lit(ws[1], "tr") || text::is_lit(ws[1], "tr_TR")
        || text::is_lit(ws[1], "az") || text::is_lit(ws[1], "crh"))
}

fn turkic(aff: &str) -> (r: bool)
    ensures
        r == is_turkic(aff@),
{
    let c = chars_of(aff);
    let ls = text::lines_of(c.as_slice());
    let ghost all = text::lines(aff@);
    let mut k: usize = 0;
    while k < ls.len()
        invariant
            k <= ls@.len(),
            all == text::lines(aff@),
            all == text::slices(ls@),
            forall|i: int| 0 <= i < k ==> !names_turkic(#[trigger] all[i]),
        decreases ls@.len() - k,
    {
        assert(all[k as int] == ls@[k as int]@);
        if turkic_line(ls[k]) {
            assert(names_turkic(text::lines(aff@)[k as int]));
            return true;
        }
        k = k + 1;
    }
    false
}

fn room_of(line: &[char], turkic: bool) -> (r: u128)
    ensures
        r == stem_room(line@, turkic),
{
    let mut n: u128 = 0;
    let mut wide = false;
    let mut i: usize = 0;
    while i < line.len()
        invariant
            i <= line@.len(),
            n == lowered_width(line@.take(i as int), turkic),
            n <= 4 * i,
            wide == exists|k: int| 0 <= k < i && may_widen(#[trigger] line@[k]),
        decreases line@.len() - i,
    {
        let c = line[i];
        assert(line@.take(i + 1).drop_last() =~= line@.take(i as int));
        let w: usize = if turkic && (c == 'i' || c == 'I') {
            2
        } else if c == '\u{130}' || c == '\u{23a}' || c == '\u{23e}' {
            3
        } else {
            chars::width(c)
        };
        n = n + w as u128;
        let plain = (c <= '\u{17f}' && c != '\u{149}') || ('\u{391}' <= c && c <= '\u{3ce}' && c
            != '\u{3b0}') || ('\u{400}' <= c && c <= '\u{52f}');
        if !plain {
            assert(may_widen(line@[i as int]));
            wide = true;
        }
        i = i + 1;
    }
    assert(line@.take(i as int) =~= line@);
    if wide {
        n + 4
    } else {
        n
    }
}

fn fits(line: &[char], turkic: bool) -> (r: bool)
    ensures
        r == line_fits(line@, turkic),
{
    let t = text::trimmed(line);
    position::byte_length(t) > 65535 || room_of(t, turkic) <= 65535
}

fn all_lines_fit(aff: &str, dic: &str) -> (r: bool)
    ensures
        r == lines_fit(aff@, dic@),
{
    let t = turkic(aff);
    let c = chars_of(dic);
    let ls = text::lines_of(c.as_slice());
    let ghost all = text::lines(dic@);
    let mut k: usize = 0;
    while k < ls.len()
        invariant
            k <= ls@.len(),
            t == is_turkic(aff@),
            all == text::lines(dic@),
            all == text::slices(ls@),
            forall|i: int| 0 <= i < k ==> line_fits(#[trigger] all[i], t),
        decreases ls@.len() - k,
    {
        assert(all[k as int] == ls@[k as int]@);
        if !fits(ls[k], t) {
            assert(!line_fits(text::lines(dic@)[k as int], is_turkic(aff@)));
            return false;
        }
        k = k + 1;
    }
    true
}

/// Reads a Hunspell pair.
fn read_pair(aff: &str, dic: &str) -> (r: Result<
    spellbook::Dictionary<spellbook::DefaultHashBuilder>,
    String,
>)
    ensures
        match r {
            Ok(d) => pair_fault(aff@, dic@) is None && readings(aff@, dic@).contains(
                accepted(d),
            ),
            Err(m) => pair_fault(aff@, dic@) == Some(m@),
        },
{
    if all_lines_fit(aff, dic) {
        read_hunspell(aff, dic)
    } else {
        Err(text::lit("a line of the word file is too long"))
    }
}

/// What comes of loading the dictionary at a location, given the texts of its files.
/// The files of the other kind count as unreadable.
pub open spec fn loading(loc: LocationView, files: DictionaryFiles) -> Loaded {
    match loc {
        LocationView::Wordlist(_) => match files {
            DictionaryFiles::Wordlist(Some(t)) => Loaded::Words(
                wordset::distinct(wordlist_entries(text::lines(t@), 0)),
            ),
            _ => Loaded::Failed("Failed to read dictionary file"@),
        },
        LocationView::Hunspell { dic, aff } => match files {
            DictionaryFiles::Hunspell { aff: Some(a), dic: Some(d) } => match pair_fault(
                a@,
                d@,
            ) {
                None => Loaded::Pair { aff: a@, dic: d@ },
                Some(m) => Loaded::Failed(
                    "Failed to parse Hunspell dictionary ("@ + dic + ", "@ + aff + "): "@ + m,
                ),
            },
            DictionaryFiles::Hunspell { aff: Some(_), dic: None } => Loaded::Failed(
                "Failed to read Hunspell dictionary file: "@ + dic,
            ),
            _ => Loaded::Failed("Failed to read Hunspell affix file: "@ + aff),
        },
    }
}

/// Loads the dictionary at a location, given the texts of its files.
pub fn load_dictionary(loc: &DictionaryLocation, files: &DictionaryFiles) -> (r: Result<
    WordDictionary,
    String,
>)
    ensures
        match r {
            Ok(d) => d.wf() && match loading(loc@, *files) {
                Loaded::Words(w) => d is Wordlist && d->Wordlist_0@ == w,
                Loaded::Pair { aff, dic } => d is Hunspell && readings(aff, dic).contains(
                    accepted(d->Hunspell_0),
                ),
                Loaded::Failed(_) => false,
            },
            Err(m) => loading(loc@, *files) == Loaded::Failed(m@),
        },
{
    match loc {
        DictionaryLocation::Wordlist(_) => match files {
            DictionaryFiles::Wordlist(Some(t)) => Ok(
                WordDictionary::Wordlist(parse_wordlist(t.as_str())),
            ),
            _ => Err(text::lit("Failed to read dictionary file")),
        },
        DictionaryLocation::Hunspell { dic, aff } => match files {
            DictionaryFiles::Hunspell { aff: Some(a), dic: Some(d) } => match read_pair(
                a.as_str(),
                d.as_str(),
            ) {
                Ok(x) => Ok(WordDictionary::Hunspell(x)),
                Err(m) => {
                    let mut out = text::cat5(
                        "Failed to parse Hunspell dictionary (",
                        dic.as_str(),
                        ", ",
                        aff.as_str(),
                        "): ",
                    );
                    text::push(&mut out, m.as_str());
                    Err(out)
                },
            },
            DictionaryFiles::Hunspell { aff: Some(_), dic: None } => Err(
                text::cat2("Failed to read Hunspell dictionary file: ", dic.as_str()),
            ),
            _ => Err(text::cat2("Failed to read Hunspell affix file: ", aff.as_str())),
        },
    }
}

// ---------------------------------------------------------------------------
// Installed dictionaries
// ---------------------------------------------------------------------------

/// A dictionary found in the directory of the dictionaries.
#[derive(Debug)]
pub enum InstalledDictionary {
    Wordlist { lang: String, path: String },
    Hunspell { lang: String, dic_path: String, aff_path: String },
}

/// What an [`InstalledDictionary`] says.
pub enum InstalledView {
    Wordlist { lang: Seq<char>, path: Seq<char> },
    Hunspell { lang: Seq<char>, dic_path: Seq<char>, aff_path: Seq<char> },
}

impl InstalledView {
    /// The language of the dictionary.
    pub open spec fn lang(self) -> Seq<char> {
        match self {
            InstalledView::Wordlist { lang, .. } => lang,
            InstalledView::Hunspell { lang, .. } => lang,
        }
    }
}

impl View for InstalledDictionary {
    type V = InstalledView;

    open spec fn view(&self) -> InstalledView {
        match self {
            InstalledDictionary::Wordlist { lang, path } => InstalledView::Wordlist {
                lang: lang@,
                path: path@,
            },
            InstalledDictionary::Hunspell { lang, dic_path, aff_path } => InstalledView::Hunspell {
                lang: lang@,
                dic_path: dic_path@,
                aff_path: aff_path@,
            },
        }
    }
}

impl InstalledDictionary {
    /// The language of the dictionary.
    pub fn lang(&self) -> (r: &str)
        ensures
            r@ == self@.lang(),
    {
        match self {
            InstalledDictionary::Wordlist { lang, path: _ } => lang.as_str(),
            InstalledDictionary::Hunspell { lang, dic_path: _, aff_path: _ } => lang.as_str(),
        }
    }
}

/// What a sequence of dictionaries says.
pub open spec fn installed_views(v: Seq<InstalledDictionary>) -> Seq<InstalledView> {
    Seq::new(v.len(), |k: int| v[k]@)
}

/// The languages of dictionaries.
pub open spec fn langs(v: Seq<InstalledView>) -> Seq<Seq<char>> {
    Seq::new(v.len(), |k: int| v[k].lang())
}

/// Sorted dictionaries with one more, put behind those of languages that do not come
/// after its own.
pub open spec fn with_installed(s: Seq<InstalledView>, x: InstalledView) -> Seq<InstalledView> {
    s.insert(order::place(langs(s), x.lang(), s.len() as int), x)
}

/// The word lists among the files from the `k`-th on.
pub open spec fn installed_wordlists(names: Seq<Seq<char>>, k: int) -> Seq<InstalledView>
    decreases names.len() - k,
{
    if k < 0 || k >= names.len() {
        Seq::empty()
    } else {
        let rest = installed_wordlists(names, k + 1);
        if paths::extension(names[k]) == Some("txt"@) {
            seq![
                InstalledView::Wordlist { lang: paths::file_stem(names[k])->0, path: names[k] },
            ] + rest
        } else {
            rest
        }
    }
}

/// The Hunspell pairs whose word file is among the files from the `k`-th on. A word
/// file without its affix file does not count.
pub open spec fn installed_pairs(dir: Seq<char>, names: Seq<Seq<char>>, k: int) -> Seq<
    InstalledView,
>
    decreases names.len() - k,
{
    if k < 0 || k >= names.len() {
        Seq::empty()
    } else {
        let rest = installed_pairs(dir, names, k + 1);
        let lang = paths::file_stem(names[k])->0;
        let aff_path = paths::joined(dir, lang + ".aff"@);
        if paths::extension(names[k]) == Some("dic"@) && paths::lists(names, aff_path) {
            seq![
                InstalledView::Hunspell {
                    lang,
                    dic_path: paths::joined(dir, lang + ".dic"@),
                    aff_path,
                },
            ] + rest
        } else {
            rest
        }
    }
}

/// Dictionaries sorted by language.
pub open spec fn sorted_installed(s: Seq<InstalledView>) -> Seq<InstalledView>
    decreases s.len(),
{
    if s.len() == 0 {
        s
    } else {
        with_installed(sorted_installed(s.drop_last()), s.last())
    }
}

/// The dictionaries among the files of a directory, sorted by language.
pub open spec fn installed(dir: Seq<char>, names: Seq<Seq<char>>) -> Seq<InstalledView> {
    sorted_installed(installed_wordlists(names, 0) + installed_pairs(dir, names, 0))
}

proof fn lemma_langs_sorted(s: Seq<InstalledView>)
    ensures
        langs(sorted_installed(s)) == order::sorted(langs(s)),
    decreases s.len(),
{
    if s.len() > 0 {
        lemma_langs_sorted(s.drop_last());
        let t = sorted_installed(s.drop_last());
        let x = s.last();
        order::law_sorted(langs(s.drop_last()));
        assert(langs(s).drop_last() =~= langs(s.drop_last()));
        lemma_place_bounds(langs(t), x.lang(), langs(t).len() as int);
        assert(langs(with_installed(t, x)) =~= order::inserted(langs(t), x.lang()));
    } else {
        assert(langs(s) =~= Seq::<Seq<char>>::empty());
    }
}

pub proof fn lemma_place_bounds(s: Seq<Seq<char>>, x: Seq<char>, k: int)
    requires
        0 <= k <= s.len(),
    ensures
        0 <= order::place(s, x, k) <= k,
    decreases k,
{
    if k > 0 && order::precedes(x, s[k - 1]) {
        lemma_place_bounds(s, x, k - 1);
    }
}

/// The dictionaries of a directory are listed in the order of their languages.
pub proof fn law_installed_sorted(dir: Seq<char>, names: Seq<Seq<char>>)
    ensures
        order::is_sorted(langs(installed(dir, names))),
{
    let s = installed_wordlists(names, 0) + installed_pairs(dir, names, 0);
    lemma_langs_sorted(s);
    order::law_sorted(langs(s));
}

fn insert_installed(v: &mut Vec<InstalledDictionary>, x: InstalledDictionary)
    ensures
        installed_views(final(v)@) == with_installed(installed_views(old(v)@), x@),
{
    let ghost s = installed_views(v@);
    let ghost ls = langs(s);
    let mut k: usize = v.len();
    while k > 0 && order::before_str(x.lang(), v[k - 1].lang())
        invariant
            k <= v@.len(),
            s == installed_views(v@),
            ls == langs(s),
            order::place(ls, x@.lang(), s.len() as int) == order::place(ls, x@.lang(), k as int),
        decreases k,
    {
        assert(ls[k - 1] == v@[k - 1]@.lang());
        k = k - 1;
    }
    assert(k > 0 ==> ls[k - 1] == v@[k - 1]@.lang());
    v.insert(k, x);
    assert(installed_views(v@) =~= s.insert(k as int, x@));
}

fn extension_is(p: &str, ext: &str) -> (r: bool)
    ensures
        r == (paths::extension(p@) == Some(ext@)),
{
    match paths::extension_of(p) {
        Some(e) => text::same_str(e.as_str(), ext),
        None => false,
    }
}

fn stem_of(p: &str) -> (r: String)
    requires
        paths::extension(p@) is Some,
    ensures
        r@ == paths::file_stem(p@)->0,
{
    match paths::file_stem_of(p) {
        Some(s) => s,
        None => String::new(),
    }
}

/// The dictionaries among the files of a directory, sorted by language.
pub fn installed_dictionaries(dir: &str, names: &Vec<String>) -> (r: Vec<InstalledDictionary>)
    ensures
        installed_views(r@) == installed(dir@, text::texts(names@)),
{
    let ghost all = text::texts(names@);
    let ghost lists = installed_wordlists(all, 0);
    let ghost pairs = installed_pairs(dir@, all, 0);
    let ghost mut done: Seq<InstalledView> = Seq::empty();
    let mut out: Vec<InstalledDictionary> = Vec::new();
    let mut k: usize = 0;
    assert(installed_views(out@) =~= sorted_installed(done));
    assert(done + installed_wordlists(all, 0) =~= lists);
    while k < names.len()
        invariant
            k <= names@.len(),
            all == text::texts(names@),
            installed_views(out@) == sorted_installed(done),
            done + installed_wordlists(all, k as int) == lists,
        decreases names@.len() - k,
    {
        let name = names[k].as_str();
        assert(all[k as int] == name@);
        if extension_is(name, "txt") {
            let x = InstalledDictionary::Wordlist { lang: stem_of(name), path: text::lit(name) };
            proof {
                assert(done + (seq![x@] + installed_wordlists(all, k + 1)) =~= done.push(x@)
                    + installed_wordlists(all, k + 1));
                assert(done.push(x@).drop_last() =~= done);
                done = done.push(x@);
            }
            insert_installed(&mut out, x);
        }
        k = k + 1;
    }
    assert(done =~= lists);
    k = 0;
    assert(done + installed_pairs(dir@, all, 0) =~= lists + pairs);
    while k < names.len()
        invariant
            k <= names@.len(),
            all == text::texts(names@),
            installed_views(out@) == sorted_installed(done),
            done + installed_pairs(dir@, all, k as int) == lists + pairs,
        decreases names@.len() - k,
    {
        let name = names[k].as_str();
        assert(all[k as int] == name@);
        if extension_is(name, "dic") {
            let lang = stem_of(name);
            let aff_path = paths::join(dir, text::cat2(lang.as_str(), ".aff").as_str());
            if paths::listed(names, aff_path.as_str()) {
                let dic_path = paths::join(dir, text::cat2(lang.as_str(), ".dic").as_str());
                let x = InstalledDictionary::Hunspell { lang, dic_path, aff_path };
                proof {
                    assert(done + (seq![x@] + installed_pairs(dir@, all, k + 1)) =~= done.push(x@)
                        + installed_pairs(dir@, all, k + 1));
                    assert(done.push(x@).drop_last() =~= done);
                    done = done.push(x@);
                }
                insert_installed(&mut out, x);
            }
        }
        k = k + 1;
    }
    assert(done =~= lists + pairs);
    out
}

} // verus!
