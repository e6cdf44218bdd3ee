//! Spell checking: languages, dictionaries, whitelists and unknown words.

use vstd::prelude::*;

use super::accents;
use super::dictionary::WordDictionary;
use super::{FindingView, LintFinding, Severity};
use crate::chars;
use crate::paths;
use crate::position;
use crate::text::{self, chars_of, string_of};
use crate::texparse::{self, SpannedView, Token, TokenView};
use crate::wordset::{self, WordSet};

verus! {

broadcast use super::lemma_findings_push;

// ---------------------------------------------------------------------------
// Whitelists
// ---------------------------------------------------------------------------

/// The whitelist files of a project, in the order in which they are looked for.
pub open spec fn whitelist_names() -> Seq<Seq<char>> {
    seq!["spell-whitelist.txt"@, ".texforge/spell-words"@]
}

/// The whitelist files of a project, in the order in which they are looked for.
pub fn project_whitelist_files() -> (r: Vec<String>)
    ensures
        text::texts(r@) == whitelist_names(),
{
    let mut v: Vec<String> = Vec::new();
    v.push(text::lit("spell-whitelist.txt"));
    v.push(text::lit(".texforge/spell-words"));
    assert(text::texts(v@) =~= whitelist_names());
    v
}

/// A path below the directory of the tool in the home directory.
pub open spec fn home_path(home: Seq<char>, name: Seq<char>) -> Seq<char> {
    paths::joined(paths::joined(home, ".texforge"@), name)
}

fn below_home(home: &str, name: &str) -> (r: String)
    ensures
        r@ == home_path(home@, name@),
{
    paths::join(paths::join(home, ".texforge").as_str(), name)
}

/// The personal dictionary shared by every project. There is none where the home
/// directory is not known.
pub fn global_whitelist_path(home: Option<&str>) -> (r: Option<String>)
    ensures
        text::opt_text(r) == match home {
            Some(h) => Some(home_path(h@, "spell-words"@)),
            None => None,
        },
{
    match home {
        Some(h) => Some(below_home(h, "spell-words")),
        None => None,
    }
}

/// The words of a whitelist from its `k`-th line on, in lower case: blank lines and
/// lines that begin with `#` are skipped.
pub open spec fn whitelist_entries(ls: Seq<Seq<char>>, k: int) -> Seq<Seq<char>>
    decreases ls.len() - k,
{
    if k < 0 || k >= ls.len() {
        Seq::empty()
    } else {
        let w = text::trim(ls[k]);
        let rest = whitelist_entries(ls, k + 1);
        if w.len() == 0 || w[0] == '#' {
            rest
        } else {
            seq![chars::lowercase(w)] + rest
        }
    }
}

/// The words of a whitelist file, each once.
pub open spec fn whitelist_words(content: Seq<char>) -> Seq<Seq<char>> {
    wordset::distinct(whitelist_entries(text::lines(content), 0))
}

/// The words of `a`, then those of `b` that are new.
pub open spec fn union(a: Seq<Seq<char>>, b: Seq<Seq<char>>) -> Seq<Seq<char>>
    decreases b.len(),
{
    if b.len() == 0 {
        a
    } else {
        wordset::with_word(union(a, b.drop_last()), b.last())
    }
}

proof fn lemma_union_step(a: Seq<Seq<char>>, w: Seq<char>, rest: Seq<Seq<char>>)
    ensures
        union(wordset::with_word(a, w), rest) == union(a, seq![w] + rest),
    decreases rest.len(),
{
    let all = seq![w] + rest;
    if rest.len() == 0 {
        assert(all.drop_last() =~= Seq::<Seq<char>>::empty());
        assert(union(a, all.drop_last()) == a);
    } else {
        lemma_union_step(a, w, rest.drop_last());
        assert(all.drop_last() =~= seq![w] + rest.drop_last());
    }
}

proof fn lemma_union_distinct(b: Seq<Seq<char>>)
    ensures
        union(Seq::empty(), b) == wordset::distinct(b),
    decreases b.len(),
{
    if b.len() > 0 {
        lemma_union_distinct(b.drop_last());
    }
}

/// Puts the words of a whitelist file into a set.
pub fn add_whitelist_words(set: &mut WordSet, content: &str)
    requires
        old(set).wf(),
    ensures
        final(set).wf(),
        final(set)@ == union(old(set)@, whitelist_entries(text::lines(content@), 0)),
{
    let c = chars_of(content);
    let ls = text::lines_of(c.as_slice());
    let ghost all = text::lines(content@);
    let ghost result = union(set@, whitelist_entries(all, 0));
    let mut k: usize = 0;
    while k < ls.len()
        invariant
            k <= ls@.len(),
            all == text::slices(ls@),
            set.wf(),
            union(set@, whitelist_entries(all, k as int)) == result,
        decreases ls@.len() - k,
    {
        assert(all[k as int] == ls@[k as int]@);
        let w = text::trimmed(ls[k]);
        if w.len() > 0 && w[0] != '#' {
            let lower = chars::to_lowercase(string_of(w).as_str());
            proof {
                lemma_union_step(set@, lower@, whitelist_entries(all, k + 1));
            }
            set.insert(lower.as_str());
        }
        k = k + 1;
    }
}

/// Parse the contents of one whitelist file into a set of words in lower case.
pub fn parse_whitelist_words(content: &str) -> (r: WordSet)
    ensures
        r.wf(),
        r@ == whitelist_words(content@),
{
    let mut set = WordSet::new();
    add_whitelist_words(&mut set, content);
    proof {
        lemma_union_distinct(whitelist_entries(text::lines(content@), 0));
    }
    set
}

/// The words of the first `k` whitelist files that can be read.
pub open spec fn all_whitelist_words(files: Seq<Option<Seq<char>>>, k: int) -> Seq<Seq<char>>
    decreases k,
{
    if k <= 0 || k > files.len() {
        Seq::empty()
    } else {
        let before = all_whitelist_words(files, k - 1);
        match files[k - 1] {
            Some(t) => union(before, whitelist_entries(text::lines(t), 0)),
            None => before,
        }
    }
}

/// What optional texts say.
pub open spec fn opt_texts(v: Seq<Option<String>>) -> Seq<Option<Seq<char>>> {
    Seq::new(v.len(), |k: int| text::opt_text(v[k]))
}

/// The words accepted for a project: those of all its whitelist files, the personal
/// dictionary among them. A file that cannot be read counts as empty.
pub fn load_project_whitelist(files: &Vec<Option<String>>) -> (r: WordSet)
    ensures
        r.wf(),
        r@ == all_whitelist_words(opt_texts(files@), files@.len() as int),
{
    let ghost all = opt_texts(files@);
    let mut set = WordSet::new();
    let mut k: usize = 0;
    while k < files.len()
        invariant
            k <= files@.len(),
            all == opt_texts(files@),
            set.wf(),
            set@ == all_whitelist_words(all, k as int),
        decreases files@.len() - k,
    {
        assert(all[k as int] == text::opt_text(files@[k as int]));
        if let Some(t) = &files[k] {
            add_whitelist_words(&mut set, t.as_str());
        }
        k = k + 1;
    }
    set
}

proof fn lemma_union_contains(a: Seq<Seq<char>>, b: Seq<Seq<char>>, w: Seq<char>)
    ensures
        union(a, b).contains(w) == (a.contains(w) || b.contains(w)),
    decreases b.len(),
{
    if b.len() > 0 {
        let t = b.drop_last();
        lemma_union_contains(a, t, w);
        let u = union(a, t);
        if b.contains(w) {
            let i = choose|i: int| 0 <= i < b.len() && b[i] == w;
            if i < t.len() {
                assert(t[i] == w);
            }
        }
        if t.contains(w) {
            let i = choose|i: int| 0 <= i < t.len() && t[i] == w;
            assert(b[i] == w);
        }
        if u.contains(w) {
            let j = choose|j: int| 0 <= j < u.len() && u[j] == w;
            assert(wordset::with_word(u, b.last())[j] == w);
        }
        if w == b.last() {
            assert(b[b.len() - 1] == w);
            if !u.contains(w) {
                assert(wordset::with_word(u, w)[u.len() as int] == w);
            }
        }
        if wordset::with_word(u, b.last()).contains(w) && w != b.last() {
            let j = choose|j: int|
                0 <= j < wordset::with_word(u, b.last()).len() && wordset::with_word(
                    u,
                    b.last(),
                )[j] == w;
            assert(u[j] == w);
        }
    }
}

/// A word accepted by any whitelist file is accepted: no file shadows another.
pub proof fn law_whitelists_add_up(files: Seq<Option<Seq<char>>>, k: int, w: Seq<char>)
    requires
        0 <= k <= files.len(),
    ensures
        all_whitelist_words(files, k).contains(w) <==> exists|i: int|
            0 <= i < k && (#[trigger] files[i] matches Some(t) && whitelist_words(t).contains(w)),
    decreases k,
{
    if k > 0 {
        law_whitelists_add_up(files, k - 1, w);
        let before = all_whitelist_words(files, k - 1);
        if let Some(t) = files[k - 1] {
            lemma_union_contains(before, whitelist_entries(text::lines(t), 0), w);
            wordset::lemma_distinct(whitelist_entries(text::lines(t), 0));
        }
        if all_whitelist_words(files, k).contains(w) {
            if before.contains(w) {
                let i = choose|i: int|
                    0 <= i < k - 1 && (#[trigger] files[i] matches Some(t) && whitelist_words(
                        t,
                    ).contains(w));
                assert(files[i] matches Some(t) && whitelist_words(t).contains(w));
            } else {
                assert(files[k - 1] matches Some(t) && whitelist_words(t).contains(w));
            }
        }
    }
}

// ---------------------------------------------------------------------------
// Where dictionaries are
// ---------------------------------------------------------------------------

/// The dictionary file of a language with the given ending.
pub open spec fn dictionary_file(
    home: Seq<char>,
    lang: Seq<char>,
    ending: Seq<char>,
) -> Seq<char> {
    paths::joined(home_path(home, "dicts"@), lang + ending)
}

/// The directory of the dictionaries.
pub fn dictionaries_dir(home: &str) -> (r: String)
    ensures
        r@ == home_path(home@, "dicts"@),
{
    below_home(home, "dicts")
}

/// The dictionary file of a language with the given ending.
pub fn dictionary_path(home: &str, lang: &str, ending: &str) -> (r: String)
    ensures
        r@ == dictionary_file(home@, lang@, ending@),
{
    let dir = dictionaries_dir(home);
    paths::join(dir.as_str(), text::cat2(lang, ending).as_str())
}

/// Where the dictionary of a language comes from: a word list, or a pair of Hunspell
/// files.
#[derive(Debug)]
pub enum RemoteSource {
    Wordlist(String),
    Hunspell { dic_url: String, aff_url: String },
}

/// What a [`RemoteSource`] says.
pub enum RemoteView {
    Wordlist(Seq<char>),
    Hunspell { dic_url: Seq<char>, aff_url: Seq<char> },
}

impl View for RemoteSource {
    type V = RemoteView;

    open spec fn view(&self) -> RemoteView {
        match self {
            RemoteSource::Wordlist(u) => RemoteView::Wordlist(u@),
            RemoteSource::Hunspell { dic_url, aff_url } => RemoteView::Hunspell {
                dic_url: dic_url@,
                aff_url: aff_url@,
            },
        }
    }
}

/// The source of the dictionary of a language.
pub open spec fn remote_of(lang: Seq<char>) -> Option<RemoteView> {
    if lang == "english"@ || lang == "en"@ {
        Some(
            RemoteView::Wordlist(
                "https://raw.githubusercontent.com/dwyl/english-words/master/words.txt"@,
            ),
        )
    } else if lang == "spanish"@ || lang == "es"@ {
        Some(
            RemoteView::Hunspell {
                dic_url: "https://raw.githubusercontent.com/wooorm/dictionaries/main/dictionaries/es/index.dic"@,
                aff_url: "https://raw.githubusercontent.com/wooorm/dictionaries/main/dictionaries/es/index.aff"@,
            },
        )
    } else {
        None
    }
}

/// The source of the dictionary of a language. A language without one is not supported.
pub fn remote_for_language(lang: &str) -> (r: Option<RemoteSource>)
    ensures
        match r {
            Some(s) => remote_of(lang@) == Some(s@),
            None => remote_of(lang@) is None,
        },
{
    if text::same_str(lang, "english") || text::same_str(lang, "en") {
        Some(
            RemoteSource::Wordlist(
                text::lit("https://raw.githubusercontent.com/dwyl/english-words/master/words.txt"),
            ),
        )
    } else if text::same_str(lang, "spanish") || text::same_str(lang, "es") {
        Some(
            RemoteSource::Hunspell {
                dic_url: text::lit(
                    "https://raw.githubusercontent.com/wooorm/dictionaries/main/dictionaries/es/index.dic",
                ),
                aff_url: text::lit(
                    "https://raw.githubusercontent.com/wooorm/dictionaries/main/dictionaries/es/index.aff",
                ),
            },
        )
    } else {
        None
    }
}

/// Where the dictionary of a language is on disk.
#[derive(Debug)]
pub enum DictionaryLocation {
    Wordlist(String),
    Hunspell { dic: String, aff: String },
}

/// What a [`DictionaryLocation`] says.
pub enum LocationView {
    Wordlist(Seq<char>),
    Hunspell { dic: Seq<char>, aff: Seq<char> },
}

impl View for DictionaryLocation {
    type V = LocationView;

    open spec fn view(&self) -> LocationView {
        match self {
            DictionaryLocation::Wordlist(p) => LocationView::Wordlist(p@),
            DictionaryLocation::Hunspell { dic, aff } => LocationView::Hunspell {
                dic: dic@,
                aff: aff@,
            },
        }
    }
}

/// What is to be done for a dictionary.
#[derive(Debug)]
pub enum DictionaryPlan {
    /// The dictionary is there.
    Use(DictionaryLocation),
    /// There is no dictionary, for the given reason.
    Fail(String),
    /// Fetch the word list from the address, into the file.
    FetchWordlist { url: String, path: String },
    /// Fetch the two files, write each to its temporary file, then move both.
    FetchHunspell {
        dic_url: String,
        aff_url: String,
        dic: String,
        aff: String,
        dic_tmp: String,
        aff_tmp: String,
    },
}

/// What a [`DictionaryPlan`] says.
pub enum PlanView {
    Use(LocationView),
    Fail(Seq<char>),
    FetchWordlist { url: Seq<char>, path: Seq<char> },
    FetchHunspell {
        dic_url: Seq<char>,
        aff_url: Seq<char>,
        dic: Seq<char>,
        aff: Seq<char>,
        dic_tmp: Seq<char>,
        aff_tmp: Seq<char>,
    },
}

impl View for DictionaryPlan {
    type V = PlanView;

    open spec fn view(&self) -> PlanView {
        match self {
            DictionaryPlan::Use(l) => PlanView::Use(l@),
            DictionaryPlan::Fail(m) => PlanView::Fail(m@),
            DictionaryPlan::FetchWordlist { url, path } => PlanView::FetchWordlist {
                url: url@,
                path: path@,
            },
            DictionaryPlan::FetchHunspell {
                dic_url,
                aff_url,
                dic,
                aff,
                dic_tmp,
                aff_tmp,
            } => PlanView::FetchHunspell {
                dic_url: dic_url@,
                aff_url: aff_url@,
                dic: dic@,
                aff: aff@,
                dic_tmp: dic_tmp@,
                aff_tmp: aff_tmp@,
            },
        }
    }
}

/// Which dictionary files of a language exist.
#[derive(Debug, Clone, Copy, PartialEq, Eq, Structural)]
pub struct Present {
    pub dic: bool,
    pub aff: bool,
    pub txt: bool,
}

/// What is to be done for the dictionary of a language. A Hunspell pair that is there
/// wins over a word list, and half a pair does not count. Nothing is fetched while
/// `offline`.
pub open spec fn plan_of(
    lang: Seq<char>,
    home: Option<Seq<char>>,
    present: Present,
    offline: bool,
) -> PlanView {
    match home {
        None => PlanView::Fail("Could not determine home directory for dictionary cache"@),
        Some(h) => {
            let dic = dictionary_file(h, lang, ".dic"@);
            let aff = dictionary_file(h, lang, ".aff"@);
            let txt = dictionary_file(h, lang, ".txt"@);
            if present.dic && present.aff {
                PlanView::Use(LocationView::Hunspell { dic, aff })
            } else if present.txt {
                PlanView::Use(LocationView::Wordlist(txt))
            } else {
                match remote_of(lang) {
                    None => PlanView::Fail(
                        "no "@ + lang + " dictionary is available from the configured source"@,
                    ),
                    Some(source) => if offline {
                        PlanView::Fail(
                            "Dictionary for '"@ + lang
                                + "' not present and network disabled during tests"@,
                        )
                    } else {
                        match source {
                            RemoteView::Wordlist(url) => PlanView::FetchWordlist {
                                url,
                                path: txt,
                            },
                            RemoteView::Hunspell { dic_url, aff_url } => PlanView::FetchHunspell {
                                dic_url,
                                aff_url,
                                dic,
                                aff,
                                dic_tmp: dictionary_file(h, lang, ".dic.part"@),
                                aff_tmp: dictionary_file(h, lang, ".aff.part"@),
                            },
                        }
                    },
                }
            }
        },
    }
}

/// What is to be done so that the dictionary of a language is there.
pub fn ensure_dictionary(
    lang: &str,
    home: Option<&str>,
    present: Present,
    offline: bool,
) -> (r: DictionaryPlan)
    ensures
        r@ == plan_of(lang@, text::opt_str(home), present, offline),
{
    let h = match home {
        Some(h) => h,
        None => {
            return DictionaryPlan::Fail(
                text::lit("Could not determine home directory for dictionary cache"),
            );
        },
    };
    let dic = dictionary_path(h, lang, ".dic");
    let aff = dictionary_path(h, lang, ".aff");
    let txt = dictionary_path(h, lang, ".txt");
    if present.dic && present.aff {
        return DictionaryPlan::Use(DictionaryLocation::Hunspell { dic, aff });
    }
    if present.txt {
        return DictionaryPlan::Use(DictionaryLocation::Wordlist(txt));
    }
    let source = match remote_for_language(lang) {
        Some(s) => s,
        None => {
            return DictionaryPlan::Fail(
                text::cat3("no ", lang, " dictionary is available from the configured source"),
            );
        },
    };
    if offline {
        return DictionaryPlan::Fail(
            text::cat3(
                "Dictionary for '",
                lang,
                "' not present and network disabled during tests",
            ),
        );
    }
    match source {
        RemoteSource::Wordlist(url) => DictionaryPlan::FetchWordlist { url, path: txt },
        RemoteSource::Hunspell { dic_url, aff_url } => DictionaryPlan::FetchHunspell {
            dic_url,
            aff_url,
            dic,
            aff,
            dic_tmp: dictionary_path(h, lang, ".dic.part"),
            aff_tmp: dictionary_path(h, lang, ".aff.part"),
        },
    }
}

// ---------------------------------------------------------------------------
// Downloads
// ---------------------------------------------------------------------------

/// A download tool that ran and failed.
#[derive(Debug)]
pub struct ToolFailure {
    pub tool: String,
    pub detail: String,
}

/// The outcome of running a single download tool.
#[derive(Debug)]
pub enum ToolOutcome {
    Success(Vec<u8>),
    /// The tool is not installed.
    NotFound,
    /// The tool ran, but did not produce the file.
    Failed(ToolFailure),
}

/// Why no tool could complete a download.
#[derive(Debug)]
pub enum DownloadFailure {
    /// Neither tool is installed.
    NoToolFound,
    /// A tool ran and failed.
    ToolError(ToolFailure),
}

/// The lines of a text from the `k`-th on that are not blank, trimmed.
pub open spec fn solid_lines(ls: Seq<Seq<char>>, k: int) -> Seq<Seq<char>>
    decreases ls.len() - k,
{
    if k < 0 || k >= ls.len() {
        Seq::empty()
    } else {
        let w = text::trim(ls[k]);
        if w.len() == 0 {
            solid_lines(ls, k + 1)
        } else {
            seq![w] + solid_lines(ls, k + 1)
        }
    }
}

/// The last `n` lines of a text that are not blank, trimmed, on one line.
pub open spec fn tail(t: Seq<char>, n: int) -> Seq<char> {
    let ls = solid_lines(text::lines(t), 0);
    text::join(
        if ls.len() > n {
            ls.skip(ls.len() - n)
        } else {
            ls
        },
        " | "@,
    )
}

/// The last lines of a tool's output that are not blank, on one line.
pub fn tail_lines(t: &str, max_lines: usize) -> (r: String)
    ensures
        r@ == tail(t@, max_lines as int),
{
    broadcast use text::lemma_slices_push;

    let c = chars_of(t);
    let ls = text::lines_of(c.as_slice());
    let ghost all = text::lines(t@);
    let ghost solid = solid_lines(all, 0);
    let mut kept: Vec<&[char]> = Vec::new();
    let mut k: usize = 0;
    assert(text::slices(kept@) + solid_lines(all, 0) =~= solid);
    while k < ls.len()
        invariant
            k <= ls@.len(),
            all == text::slices(ls@),
            text::slices(kept@) + solid_lines(all, k as int) == solid,
        decreases ls@.len() - k,
    {
        assert(all[k as int] == ls@[k as int]@);
        let ghost done = text::slices(kept@);
        let w = text::trimmed(ls[k]);
        if w.len() > 0 {
            assert(done + (seq![w@] + solid_lines(all, k + 1)) =~= done.push(w@) + solid_lines(
                all,
                k + 1,
            ));
            kept.push(w);
        }
        k = k + 1;
    }
    assert(text::slices(kept@) =~= solid);
    let from: usize = if kept.len() > max_lines {
        kept.len() - max_lines
    } else {
        0
    };
    let mut last: Vec<&[char]> = Vec::new();
    let mut j: usize = from;
    assert(text::slices(last@) =~= solid.subrange(from as int, from as int));
    while j < kept.len()
        invariant
            from <= j <= kept@.len(),
            solid == text::slices(kept@),
            text::slices(last@) == solid.subrange(from as int, j as int),
        decreases kept@.len() - j,
    {
        assert(solid.subrange(from as int, j + 1) =~= solid.subrange(from as int, j as int).push(
            kept@[j as int]@,
        ));
        last.push(kept[j]);
        j = j + 1;
    }
    assert(solid.subrange(from as int, j as int) =~= solid.skip(from as int));
    assert(solid.skip(0) =~= solid);
    text::joined_slices(&last, " | ")
}

/// What is said of a tool that exited with the given status and wrote `stderr`.
pub open spec fn exit_detail(status: Seq<char>, stderr: Seq<char>) -> Seq<char> {
    let t = tail(stderr, 5);
    if t.len() == 0 {
        "exited with "@ + status
    } else {
        "exited with "@ + status + ": "@ + t
    }
}

/// What is said of a tool that exited with the given status and wrote `stderr`.
pub fn describe_exit(status: &str, stderr: &str) -> (r: String)
    ensures
        r@ == exit_detail(status@, stderr@),
{
    let t = tail_lines(stderr, 5);
    let c = chars_of(t.as_str());
    if c.len() == 0 {
        text::cat2("exited with ", status)
    } else {
        text::cat4("exited with ", status, ": ", t.as_str())
    }
}

/// The outcome of a download by the first tool and, where that fails, the second: what
/// the first that succeeds fetched, or what the first that ran reports.
pub fn choose_download(curl: ToolOutcome, wget: ToolOutcome) -> (r: Result<Vec<u8>, DownloadFailure>)
    ensures
        match (curl, wget) {
            (ToolOutcome::Success(b), _) => r == Ok::<Vec<u8>, DownloadFailure>(b),
            (_, ToolOutcome::Success(b)) => r == Ok::<Vec<u8>, DownloadFailure>(b),
            (ToolOutcome::Failed(f), _) => r == Err::<Vec<u8>, DownloadFailure>(
                DownloadFailure::ToolError(f),
            ),
            (ToolOutcome::NotFound, ToolOutcome::Failed(f)) => r == Err::<Vec<u8>, DownloadFailure>(
                DownloadFailure::ToolError(f),
            ),
            (ToolOutcome::NotFound, ToolOutcome::NotFound) => r == Err::<Vec<u8>, DownloadFailure>(
                DownloadFailure::NoToolFound,
            ),
        },
{
    match curl {
        ToolOutcome::Success(b) => Ok(b),
        ToolOutcome::Failed(f) => match wget {
            ToolOutcome::Success(b) => Ok(b),
            _ => Err(DownloadFailure::ToolError(f)),
        },
        ToolOutcome::NotFound => match wget {
            ToolOutcome::Success(b) => Ok(b),
            ToolOutcome::Failed(f) => Err(DownloadFailure::ToolError(f)),
            ToolOutcome::NotFound => Err(DownloadFailure::NoToolFound),
        },
    }
}

impl DownloadFailure {
    /// The message about a failed download.
    pub open spec fn description(self, lang: Seq<char>, url: Seq<char>) -> Seq<char> {
        match self {
            DownloadFailure::NoToolFound => "neither 'curl' nor 'wget' was found in PATH"@,
            DownloadFailure::ToolError(f) => {
                let head = f.tool@ + " exited fetching "@ + url + ": "@ + f.detail@;
                if text::contains(f.detail@, "404"@) {
                    head
                        + "; this looks like a missing resource (HTTP 404) — the source configured for '"@
                        + lang + "' may not have this dictionary, see remote_for_language()"@
                } else {
                    head
                }
            },
        }
    }

    /// The message about a failed download.
    pub fn describe(&self, lang: &str, url: &str) -> (r: String)
        ensures
            r@ == self.description(lang@, url@),
    {
        match self {
            DownloadFailure::NoToolFound => text::lit(
                "neither 'curl' nor 'wget' was found in PATH",
            ),
            DownloadFailure::ToolError(f) => {
                let mut msg = text::cat5(
                    f.tool.as_str(),
                    " exited fetching ",
                    url,
                    ": ",
                    f.detail.as_str(),
                );
                let d = chars_of(f.detail.as_str());
                if text::has(d.as_slice(), "404") {
                    text::push(
                        &mut msg,
                        "; this looks like a missing resource (HTTP 404) — the source configured for '",
                    );
                    text::push(&mut msg, lang);
                    text::push(
                        &mut msg,
                        "' may not have this dictionary, see remote_for_language()",
                    );
                }
                msg
            },
        }
    }
}

// ---------------------------------------------------------------------------
// The language of a document
// ---------------------------------------------------------------------------

/// The language that a babel or polyglossia option names: the part behind its last `=`.
pub open spec fn option_language(opt: Seq<char>) -> Option<Seq<char>> {
    let v = text::trim(
        match text::rfind_char(opt, '=') {
            Some(k) => opt.skip(k + 1),
            None => opt,
        },
    );
    if v == "spanish"@ || v == "es"@ || v == "spanish-mexico"@ || v == "es-MX"@ {
        Some("spanish"@)
    } else if v == "english"@ || v == "en"@ || v == "USenglish"@ || v == "UKenglish"@ {
        Some("english"@)
    } else if v == "french"@ || v == "fr"@ || v == "francais"@ {
        Some("french"@)
    } else {
        None
    }
}

/// The language that a babel or polyglossia option names.
pub fn normalize_babel_option(opt: &str) -> (r: Option<String>)
    ensures
        text::opt_text(r) == option_language(opt@),
{
    let o = chars_of(opt);
    normalize(o.as_slice())
}

fn normalize(o: &[char]) -> (r: Option<String>)
    ensures
        text::opt_text(r) == option_language(o@),
{
    let n: usize = o.len();
    let v = match text::rfind_ch(o, '=') {
        Some(k) => text::trimmed(text::from(o, k + 1)),
        None => text::trimmed(o),
    };
    if text::is_lit(v, "spanish") || text::is_lit(v, "es") || text::is_lit(v, "spanish-mexico")
        || text::is_lit(v, "es-MX") {
        Some(text::lit("spanish"))
    } else if text::is_lit(v, "english") || text::is_lit(v, "en") || text::is_lit(v, "USenglish")
        || text::is_lit(v, "UKenglish") {
        Some(text::lit("english"))
    } else if text::is_lit(v, "french") || text::is_lit(v, "fr") || text::is_lit(v, "francais") {
        Some(text::lit("french"))
    } else {
        None
    }
}

/// The first language among the options from the `k`-th on.
pub open spec fn first_language(opts: Seq<Seq<char>>, k: int) -> Option<Seq<char>>
    decreases opts.len() - k,
{
    if k < 0 || k >= opts.len() {
        None
    } else {
        match option_language(text::trim(opts[k])) {
            Some(l) => Some(l),
            None => first_language(opts, k + 1),
        }
    }
}

/// The first language among the option groups from the `k`-th up to the last but one.
pub open spec fn group_language(args: Seq<Seq<char>>, k: int) -> Option<Seq<char>>
    decreases args.len() - k,
{
    if k < 0 || k + 1 >= args.len() {
        None
    } else {
        match first_language(text::split(args[k], ','), 0) {
            Some(l) => Some(l),
            None => group_language(args, k + 1),
        }
    }
}

/// The language that a `\usepackage` declares: its last argument is `babel` or
/// `polyglossia`, and the language is an option before it.
pub open spec fn usepackage_language(args: Seq<Seq<char>>) -> Option<Seq<char>> {
    if args.len() > 0 && (args.last() == "babel"@ || args.last() == "polyglossia"@) {
        group_language(args, 0)
    } else {
        None
    }
}

/// The language that a `\usepackage` with these arguments declares.
pub fn babel_language_from_usepackage(args: &Vec<String>) -> (r: Option<String>)
    ensures
        text::opt_text(r) == usepackage_language(text::texts(args@)),
{
    let ghost all = text::texts(args@);
    let n: usize = args.len();
    if n == 0 {
        return None;
    }
    assert(all.last() == args@[n - 1]@);
    if !text::same_str(args[n - 1].as_str(), "babel") && !text::same_str(
        args[n - 1].as_str(),
        "polyglossia",
    ) {
        return None;
    }
    let mut k: usize = 0;
    while k < n - 1
        invariant
            k < n == args@.len(),
            all == text::texts(args@),
            usepackage_language(all) == group_language(all, 0),
            group_language(all, 0) == group_language(all, k as int),
        decreases n - k,
    {
        assert(all[k as int] == args@[k as int]@);
        let g = chars_of(args[k].as_str());
        let opts = text::split_on(g.as_slice(), ',');
        let ghost os = text::split(g@, ',');
        let mut j: usize = 0;
        while j < opts.len()
            invariant
                j <= opts@.len(),
                k + 1 < n == args@.len(),
                all == text::texts(args@),
                usepackage_language(all) == group_language(all, 0),
                os == text::slices(opts@),
                os == text::split(all[k as int], ','),
                first_language(os, 0) == first_language(os, j as int),
                group_language(all, 0) == group_language(all, k as int),
            decreases opts@.len() - j,
        {
            assert(os[j as int] == opts@[j as int]@);
            if let Some(l) = normalize(text::trimmed(opts[j])) {
                return Some(l);
            }
            j = j + 1;
        }
        k = k + 1;
    }
    None
}

/// The language declared in a preamble from its `k`-th token on, with the line of the
/// declaration.
pub open spec fn declared_from(source: Seq<char>, tokens: Seq<SpannedView>, k: int) -> Option<
    (Seq<char>, int),
>
    decreases tokens.len() - k,
{
    if k < 0 || k >= tokens.len() {
        None
    } else {
        match tokens[k].token {
            TokenView::BeginDocument => None,
            TokenView::Command { name, args } => if name == "usepackage"@ && usepackage_language(
                args,
            ) is Some {
                Some(
                    (usepackage_language(args)->0, position::line_at_byte(source, tokens[k].start)),
                )
            } else {
                declared_from(source, tokens, k + 1)
            },
            _ => declared_from(source, tokens, k + 1),
        }
    }
}

/// The language declared in the preamble of a file, with the line of the declaration.
pub open spec fn declaration(source: Seq<char>) -> Option<(Seq<char>, int)> {
    declared_from(source, texparse::scan_source(source).tokens, 0)
}

/// The language declared in the preamble of a file, with the line of the declaration.
pub fn find_babel_declaration(source: &str) -> (r: Option<(String, usize)>)
    ensures
        match r {
            Some((l, n)) => declaration(source@) == Some((l@, n as int)),
            None => declaration(source@) is None,
        },
{
    let src = chars_of(source);
    let tokenized = texparse::tokenize_with_spans(source);
    let ghost tokens = texparse::scan_source(source@).tokens;
    let mut k: usize = 0;
    while k < tokenized.tokens.len()
        invariant
            k <= tokenized.tokens@.len(),
            src@ == source@,
            tokens == texparse::spanned_views(tokenized.tokens@),
            declaration(source@) == declared_from(source@, tokens, k as int),
        decreases tokenized.tokens@.len() - k,
    {
        assert(tokens[k as int] == tokenized.tokens@[k as int]@);
        match &tokenized.tokens[k].token {
            Token::BeginDocument => {
                return None;
            },
            Token::Command { name, args } => {
                if text::same_str(name.as_str(), "usepackage") {
                    if let Some(l) = babel_language_from_usepackage(args) {
                        return Some(
                            (l, position::line_of_byte(src.as_slice(), tokenized.tokens[k].start as u128)),
                        );
                    }
                }
            },
            _ => {},
        }
        k = k + 1;
    }
    None
}

/// A language declared in a document: which, in which file and on which line.
#[derive(Debug)]
pub struct Declaration {
    pub language: String,
    pub file: String,
    pub line: usize,
}

/// What a [`Declaration`] says.
pub struct DeclarationView {
    pub language: Seq<char>,
    pub file: Seq<char>,
    pub line: int,
}

impl View for Declaration {
    type V = DeclarationView;

    open spec fn view(&self) -> DeclarationView {
        DeclarationView { language: self.language@, file: self.file@, line: self.line as int }
    }
}

/// The language that spell checking uses, and the declaration of the document.
#[derive(Debug)]
pub struct LanguageResolution {
    pub language: String,
    pub declared: Option<Declaration>,
}

/// What pairs of a name and a source say.
pub open spec fn files_view(v: Seq<(String, String)>) -> Seq<(Seq<char>, Seq<char>)> {
    Seq::new(v.len(), |k: int| (v[k].0@, v[k].1@))
}

/// The first declaration in the files from the `k`-th on.
pub open spec fn declared_in(files: Seq<(Seq<char>, Seq<char>)>, k: int) -> Option<DeclarationView>
    decreases files.len() - k,
{
    if k < 0 || k >= files.len() {
        None
    } else {
        match declaration(files[k].1) {
            Some((language, line)) => Some(DeclarationView { language, file: files[k].0, line }),
            None => declared_in(files, k + 1),
        }
    }
}

/// The language to check against: the one that the document declares, else the
/// configured default, else English.
pub open spec fn language_of(
    files: Seq<(Seq<char>, Seq<char>)>,
    default_lang: Option<Seq<char>>,
) -> Seq<char> {
    match declared_in(files, 0) {
        Some(d) => d.language,
        None => match default_lang {
            Some(l) => l,
            None => "english"@,
        },
    }
}

/// What an optional declaration says.
pub open spec fn opt_declaration(d: Option<Declaration>) -> Option<DeclarationView> {
    match d {
        Some(x) => Some(x@),
        None => None,
    }
}

/// Resolve the language to check against. A declaration inside the document wins over
/// the configured default, which wins over English.
pub fn resolve_language(files: &Vec<(String, String)>, default_lang: Option<&str>) -> (r:
    LanguageResolution)
    ensures
        r.language@ == language_of(files_view(files@), text::opt_str(default_lang)),
        opt_declaration(r.declared) == declared_in(files_view(files@), 0),
{
    let ghost all = files_view(files@);
    let mut k: usize = 0;
    while k < files.len()
        invariant
            k <= files@.len(),
            all == files_view(files@),
            declared_in(all, 0) == declared_in(all, k as int),
        decreases files@.len() - k,
    {
        assert(all[k as int] == (files@[k as int].0@, files@[k as int].1@));
        if let Some((language, line)) = find_babel_declaration(files[k].1.as_str()) {
            let chosen = text::lit(language.as_str());
            return LanguageResolution {
                language: chosen,
                declared: Some(
                    Declaration { language, file: text::lit(files[k].0.as_str()), line },
                ),
            };
        }
        k = k + 1;
    }
    let language = match default_lang {
        Some(l) => text::lit(l),
        None => text::lit("english"),
    };
    LanguageResolution { language, declared: None }
}

/// The message about a configured default that the document overrides.
pub open spec fn disagreement(configured: Seq<char>, declared: Seq<char>) -> Seq<char> {
    "Configured default language is '"@ + configured + "', but this document declares '"@ + declared
        + "' via babel/polyglossia; using '"@ + declared + "'"@
}

/// The message about a configured default that the document overrides.
pub fn language_disagreement_message(configured: &str, declared: &str) -> (r: String)
    ensures
        r@ == disagreement(configured@, declared@),
{
    let mut out = text::cat5(
        "Configured default language is '",
        configured,
        "', but this document declares '",
        declared,
        "' via babel/polyglossia; using '",
    );
    text::push(&mut out, declared);
    text::push(&mut out, "'");
    out
}

/// The dictionary file to name before it is known which kind would serve a language.
pub open spec fn expected_file(home: Seq<char>, lang: Seq<char>) -> Seq<char> {
    match remote_of(lang) {
        Some(RemoteView::Hunspell { .. }) => dictionary_file(home, lang, ".dic"@),
        _ => dictionary_file(home, lang, ".txt"@),
    }
}

/// The dictionary file to name before it is known which kind would serve a language.
pub fn expected_dictionary_hint(home: Option<&str>, lang: &str) -> (r: Option<String>)
    ensures
        text::opt_text(r) == match home {
            Some(h) => Some(expected_file(h@, lang@)),
            None => None,
        },
{
    match home {
        None => None,
        Some(h) => match remote_for_language(lang) {
            Some(RemoteSource::Hunspell { dic_url: _, aff_url: _ }) => Some(
                dictionary_path(h, lang, ".dic"),
            ),
            _ => Some(dictionary_path(h, lang, ".txt")),
        },
    }
}

/// The message when spell checking is skipped.
pub open spec fn skipped(
    lang: Seq<char>,
    expected: Option<Seq<char>>,
    reason: Seq<char>,
) -> Seq<char> {
    "Spell-check skipped: resolved language '"@ + lang + "', but its dictionary ("@ + match expected {
        Some(p) => p,
        None => "<unknown: could not determine home directory>"@,
    } + ") is unavailable: "@ + reason
}

/// The message when spell checking is skipped.
pub fn skip_message(lang: &str, expected: Option<&str>, reason: &str) -> (r: String)
    ensures
        r@ == skipped(lang@, text::opt_str(expected), reason@),
{
    let shown = match expected {
        Some(p) => p,
        None => "<unknown: could not determine home directory>",
    };
    let mut out = text::cat5(
        "Spell-check skipped: resolved language '",
        lang,
        "', but its dictionary (",
        shown,
        ") is unavailable: ",
    );
    text::push(&mut out, reason);
    out
}

/// The message when spell checking runs.
pub open spec fn running(lang: Seq<char>, loc: LocationView) -> Seq<char> {
    match loc {
        LocationView::Wordlist(p) => "Spell-check: checking '"@ + lang + "' prose against "@ + p,
        LocationView::Hunspell { dic, aff } => "Spell-check: checking '"@ + lang
            + "' prose against Hunspell dictionary "@ + dic + " + "@ + aff,
    }
}

/// The message when spell checking runs.
pub fn using_message(lang: &str, loc: &DictionaryLocation) -> (r: String)
    ensures
        r@ == running(lang@, loc@),
{
    match loc {
        DictionaryLocation::Wordlist(p) => text::cat4(
            "Spell-check: checking '",
            lang,
            "' prose against ",
            p.as_str(),
        ),
        DictionaryLocation::Hunspell { dic, aff } => {
            let mut out = text::cat5(
                "Spell-check: checking '",
                lang,
                "' prose against Hunspell dictionary ",
                dic.as_str(),
                " + ",
            );
            text::push(&mut out, aff.as_str());
            out
        },
    }
}

// ---------------------------------------------------------------------------
// Unknown words
// ---------------------------------------------------------------------------

/// Where the row of letters at `i` ends.
pub open spec fn letters_end(t: Seq<char>, i: int) -> int
    decreases t.len() - i,
{
    if 0 <= i < t.len() && chars::alphabetic(t[i]) {
        letters_end(t, i + 1)
    } else {
        i
    }
}

pub proof fn lemma_letters_end(t: Seq<char>, i: int)
    requires
        0 <= i <= t.len(),
    ensures
        i <= letters_end(t, i) <= t.len(),
    decreases t.len() - i,
{
    if i < t.len() && chars::alphabetic(t[i]) {
        lemma_letters_end(t, i + 1);
    }
}

/// The rows of letters in a text from position `i` on, each with the byte at which it
/// begins.
pub open spec fn letter_runs(t: Seq<char>, i: int) -> Seq<(int, Seq<char>)>
    decreases t.len() - i,
    via letter_runs_decreases
{
    if i < 0 || i >= t.len() {
        Seq::empty()
    } else if chars::alphabetic(t[i]) {
        let e = letters_end(t, i);
        seq![(position::byte_at(t, i), t.subrange(i, e))] + letter_runs(t, e)
    } else {
        letter_runs(t, i + 1)
    }
}

#[via_fn]
proof fn letter_runs_decreases(t: Seq<char>, i: int) {
    if 0 <= i < t.len() && chars::alphabetic(t[i]) {
        lemma_letters_end(t, i + 1);
    }
}

/// A word that no dictionary knows, with the place of its first occurrence.
pub struct Unknown {
    pub word: Seq<char>,
    pub file: Seq<char>,
    pub line: int,
}

/// The form in which a word is looked up: trimmed and in lower case.
pub open spec fn looked_up(word: Seq<char>) -> Seq<char> {
    chars::lowercase(text::trim(word))
}

/// Whether a word is reported: it is more than one byte long in lower case, and neither
/// the dictionary nor the whitelist knows it.
pub open spec fn is_reported(
    word: Seq<char>,
    dict: WordDictionary,
    whitelist: Seq<Seq<char>>,
) -> bool {
    &&& text::trim(word).len() > 0
    &&& text::byte_len(looked_up(word)) > 1
    &&& !dict.knows(looked_up(word))
    &&& !whitelist.contains(looked_up(word))
}

/// Whether a word is among those found.
pub open spec fn is_found(found: Seq<Unknown>, word: Seq<char>) -> bool {
    exists|i: int| 0 <= i < found.len() && (#[trigger] found[i]).word == word
}

/// The unknown words after the runs of a file from the `k`-th on: only the first
/// occurrence of a word counts.
pub open spec fn unknown_in_runs(
    found: Seq<Unknown>,
    file: Seq<char>,
    chunks: Seq<(int, int)>,
    runs: Seq<(int, Seq<char>)>,
    dict: WordDictionary,
    whitelist: Seq<Seq<char>>,
    k: int,
) -> Seq<Unknown>
    decreases runs.len() - k,
{
    if k < 0 || k >= runs.len() {
        found
    } else {
        let word = looked_up(runs[k].1);
        let next = if is_reported(runs[k].1, dict, whitelist) && !is_found(found, word) {
            found.push(Unknown { word, file, line: accents::line_for(chunks, runs[k].0) })
        } else {
            found
        };
        unknown_in_runs(next, file, chunks, runs, dict, whitelist, k + 1)
    }
}

/// The unknown words after a file.
pub open spec fn unknown_in_file(
    found: Seq<Unknown>,
    file: Seq<char>,
    source: Seq<char>,
    dict: WordDictionary,
    whitelist: Seq<Seq<char>>,
) -> Seq<Unknown> {
    let s = accents::spell_text(source, texparse::scan_source(source).tokens, 0, 0, 0);
    unknown_in_runs(found, file, s.chunks, letter_runs(s.text, 0), dict, whitelist, 0)
}

/// The unknown words of the first `k` files, in the order of their first occurrences.
pub open spec fn unknown_in(
    files: Seq<(Seq<char>, Seq<char>)>,
    dict: WordDictionary,
    whitelist: Seq<Seq<char>>,
    k: int,
) -> Seq<Unknown>
    decreases k,
{
    if k <= 0 || k > files.len() {
        Seq::empty()
    } else {
        unknown_in_file(
            unknown_in(files, dict, whitelist, k - 1),
            files[k - 1].0,
            files[k - 1].1,
            dict,
            whitelist,
        )
    }
}

/// The finding about an unknown word.
pub open spec fn unknown_finding(u: Unknown) -> FindingView {
    super::advice(
        u.file,
        u.line,
        Severity::Warning,
        "Unknown word: '"@ + u.word + "'"@,
        "Add to your personal dictionary with `texforge spell add <word>` (add --local instead to accept it only in this project) to accept this word"@,
    )
}

/// The findings about unknown words.
pub open spec fn unknown_findings(found: Seq<Unknown>) -> Seq<FindingView> {
    Seq::new(found.len(), |k: int| unknown_finding(found[k]))
}

/// The dictionary for a run: none, and why, or one and where it is.
pub enum DictionaryAnswer {
    Unavailable { expected: Option<String>, reason: String },
    Ready { dictionary: WordDictionary, location: DictionaryLocation },
}

impl DictionaryAnswer {
    /// Whether the dictionary is well formed.
    pub open spec fn wf(self) -> bool {
        match self {
            DictionaryAnswer::Unavailable { .. } => true,
            DictionaryAnswer::Ready { dictionary, .. } => dictionary.wf(),
        }
    }
}

/// The findings of spell checking, and the line that says what was done.
#[derive(Debug)]
pub struct SpellReport {
    pub findings: Vec<LintFinding>,
    pub notice: String,
}

/// The finding about a configured default that the document overrides with a different
/// language.
pub open spec fn disagreement_findings(
    files: Seq<(Seq<char>, Seq<char>)>,
    default_lang: Option<Seq<char>>,
) -> Seq<FindingView> {
    match (default_lang, declared_in(files, 0)) {
        (Some(configured), Some(d)) => if d.language != configured {
            seq![
                super::remark(
                    d.file,
                    d.line,
                    Severity::Warning,
                    disagreement(configured, d.language),
                ),
            ]
        } else {
            Seq::empty()
        },
        _ => Seq::empty(),
    }
}

/// The findings of spell checking: a default that the document overrides, then, where
/// there is a dictionary, the unknown words.
pub open spec fn spelling_findings(
    files: Seq<(Seq<char>, Seq<char>)>,
    default_lang: Option<Seq<char>>,
    answer: DictionaryAnswer,
    whitelist: Seq<Seq<char>>,
) -> Seq<FindingView> {
    disagreement_findings(files, default_lang) + match answer {
        DictionaryAnswer::Unavailable { .. } => Seq::empty(),
        DictionaryAnswer::Ready { dictionary, .. } => unknown_findings(
            unknown_in(files, dictionary, whitelist, files.len() as int),
        ),
    }
}

/// The line that says what spell checking did.
pub open spec fn spelling_notice(
    files: Seq<(Seq<char>, Seq<char>)>,
    default_lang: Option<Seq<char>>,
    answer: DictionaryAnswer,
) -> Seq<char> {
    let lang = language_of(files, default_lang);
    match answer {
        DictionaryAnswer::Unavailable { expected, reason } => skipped(
            lang,
            text::opt_text(expected),
            reason@,
        ),
        DictionaryAnswer::Ready { location, .. } => running(lang, location@),
    }
}

fn run_end(t: &[char], i: usize) -> (r: usize)
    requires
        i <= t@.len(),
    ensures
        r == letters_end(t@, i as int),
        i <= r <= t@.len(),
        i < t@.len() && chars::alphabetic(t@[i as int]) ==> i < r,
{
    let mut j: usize = i;
    while j < t.len() && t[j].is_alphabetic()
        invariant
            i <= j <= t@.len(),
            letters_end(t@, i as int) == letters_end(t@, j as int),
        decreases t@.len() - j,
    {
        j = j + 1;
    }
    j
}

/// What found words say.
struct Found {
    word: String,
    file: String,
    line: usize,
}

spec fn found_views(v: Seq<Found>) -> Seq<Unknown> {
    Seq::new(
        v.len(),
        |k: int| Unknown { word: v[k].word@, file: v[k].file@, line: v[k].line as int },
    )
}

/// The words that were found, with a set for looking them up.
struct Finds {
    list: Vec<Found>,
    seen: WordSet,
}

impl Finds {
    spec fn wf(self) -> bool {
        &&& self.seen.wf()
        &&& forall|w: Seq<char>|
            #[trigger] self.seen@.contains(w) <==> is_found(found_views(self.list@), w)
    }

    fn record(&mut self, word: String, file: &str, line: usize)
        requires
            old(self).wf(),
        ensures
            final(self).wf(),
            found_views(final(self).list@) == if is_found(found_views(old(self).list@), word@) {
                found_views(old(self).list@)
            } else {
                found_views(old(self).list@).push(
                    Unknown { word: word@, file: file@, line: line as int },
                )
            },
    {
        if self.seen.contains(word.as_str()) {
            return;
        }
        let ghost before = found_views(self.list@);
        let ghost seen = self.seen@;
        let ghost w = word@;
        self.seen.insert(word.as_str());
        self.list.push(Found { word, file: text::lit(file), line });
        let ghost after = found_views(self.list@);
        assert(after =~= before.push(Unknown { word: w, file: file@, line: line as int }));
        proof {
            assert forall|x: Seq<char>| #[trigger] self.seen@.contains(x) <==> is_found(
                after,
                x,
            ) by {
                if seen.contains(x) {
                    let i = choose|i: int| 0 <= i < before.len() && (#[trigger] before[i]).word == x;
                    assert(after[i].word == x);
                    let j = choose|j: int| 0 <= j < seen.len() && seen[j] == x;
                    assert(self.seen@[j] == x);
                }
                if x == w {
                    assert(after[before.len() as int].word == x);
                    assert(self.seen@[seen.len() as int] == x);
                }
                if is_found(after, x) && x != w {
                    let i = choose|i: int| 0 <= i < after.len() && (#[trigger] after[i]).word == x;
                    assert(before[i].word == x);
                    assert(is_found(before, x));
                    assert(seen.contains(x));
                }
                if self.seen@.contains(x) && x != w {
                    let j = choose|j: int| 0 <= j < self.seen@.len() && self.seen@[j] == x;
                    assert(seen[j] == x);
                    assert(seen.contains(x));
                }
            }
        }
    }
}

fn check_file(
    finds: &mut Finds,
    file: &str,
    source: &str,
    dict: &WordDictionary,
    whitelist: &WordSet,
)
    requires
        old(finds).wf(),
        dict.wf(),
        whitelist.wf(),
    ensures
        final(finds).wf(),
        found_views(final(finds).list@) == unknown_in_file(
            found_views(old(finds).list@),
            file@,
            source@,
            *dict,
            whitelist@,
        ),
{
    let tokenized = texparse::tokenize_with_spans(source);
    let (out, chunks) = accents::build_spell_text(&tokenized.tokens, source);
    let starts = position::byte_offsets(out.as_str());
    let c = chars_of(out.as_str());
    let t = c.as_slice();
    let n: usize = t.len();
    let ghost s = accents::spell_text(source@, texparse::scan_source(source@).tokens, 0, 0, 0);
    let ghost runs = letter_runs(s.text, 0);
    let ghost lines = s.chunks;
    let ghost result = unknown_in_file(found_views(finds.list@), file@, source@, *dict, whitelist@);
    let ghost mut k: int = 0;
    let mut i: usize = 0;
    assert(runs.skip(0) =~= runs);
    while i < n
        invariant
            i <= n == t@.len(),
            t@ == s.text,
            starts@.len() == n + 1,
            forall|j: int| 0 <= j <= n ==> #[trigger] starts@[j] == position::byte_at(t@, j),
            lines == s.chunks,
            lines == accents::chunk_views(chunks@),
            finds.wf(),
            dict.wf(),
            whitelist.wf(),
            0 <= k <= runs.len(),
            runs.skip(k) == letter_runs(t@, i as int),
            unknown_in_runs(
                found_views(finds.list@),
                file@,
                lines,
                runs,
                *dict,
                whitelist@,
                k,
            ) == result,
        decreases n - i,
    {
        if t[i].is_alphabetic() {
            let e = run_end(t, i);
            let word = text::part(t, i, e);
            proof {
                let rest = letter_runs(t@, e as int);
                let run = (position::byte_at(t@, i as int), word@);
                assert(letter_runs(t@, i as int) == seq![run] + rest);
                assert(runs.skip(k).len() == 1 + rest.len());
                assert(runs.skip(k)[0] == run);
                assert(runs[k] == run);
                assert(runs.skip(k + 1) =~= rest) by {
                    assert(runs.skip(k).skip(1) =~= runs.skip(k + 1));
                    assert((seq![run] + rest).skip(1) =~= rest);
                }
            }
            let w = text::trimmed(word);
            if w.len() > 0 {
                let lower = chars::to_lowercase(string_of(w).as_str());
                let lc = chars_of(lower.as_str());
                if position::byte_length(lc.as_slice()) > 1 && !dict.contains(lower.as_str())
                    && !whitelist.contains(lower.as_str()) {
                    let line = accents::line_for_offset(&chunks, starts[i]);
                    finds.record(lower, file, line);
                }
            }
            proof {
                k = k + 1;
            }
            i = e;
        } else {
            i = i + 1;
        }
    }
    proof {
        assert(runs.skip(k).len() == 0);
    }
}

/// Lint files for spelling mistakes, with the dictionary for the language that
/// [`resolve_language`] gives. Without a dictionary nothing is checked, and the notice
/// says why.
pub fn lint_files(
    files: &Vec<(String, String)>,
    default_lang: Option<&str>,
    answer: &DictionaryAnswer,
    whitelist: &WordSet,
) -> (r: SpellReport)
    requires
        answer.wf(),
        whitelist.wf(),
    ensures
        super::findings_view(r.findings@) == spelling_findings(
            files_view(files@),
            text::opt_str(default_lang),
            *answer,
            whitelist@,
        ),
        r.notice@ == spelling_notice(files_view(files@), text::opt_str(default_lang), *answer),
{
    let ghost all = files_view(files@);
    let resolution = resolve_language(files, default_lang);
    let mut findings: Vec<LintFinding> = Vec::new();
    if let Some(configured) = default_lang {
        if let Some(d) = &resolution.declared {
            if !text::same_str(d.language.as_str(), configured) {
                findings.push(
                    super::note(
                        d.file.as_str(),
                        d.line,
                        Severity::Warning,
                        language_disagreement_message(configured, d.language.as_str()),
                    ),
                );
            }
        }
    }
    let ghost first = disagreement_findings(all, text::opt_str(default_lang));
    assert(super::findings_view(findings@) =~= first);
    match answer {
        DictionaryAnswer::Unavailable { expected, reason } => {
            let path = match expected {
                Some(p) => Some(p.as_str()),
                None => None,
            };
            let notice = skip_message(resolution.language.as_str(), path, reason.as_str());
            SpellReport { findings, notice }
        },
        DictionaryAnswer::Ready { dictionary, location } => {
            let mut finds = Finds { list: Vec::new(), seen: WordSet::new() };
            assert(found_views(finds.list@) =~= Seq::<Unknown>::empty());
            let mut k: usize = 0;
            while k < files.len()
                invariant
                    k <= files@.len(),
                    all == files_view(files@),
                    finds.wf(),
                    dictionary.wf(),
                    whitelist.wf(),
                    found_views(finds.list@) == unknown_in(
                        all,
                        *dictionary,
                        whitelist@,
                        k as int,
                    ),
                decreases files@.len() - k,
            {
                assert(all[k as int] == (files@[k as int].0@, files@[k as int].1@));
                check_file(
                    &mut finds,
                    files[k].0.as_str(),
                    files[k].1.as_str(),
                    dictionary,
                    whitelist,
                );
                k = k + 1;
            }
            let ghost found = found_views(finds.list@);
            let mut j: usize = 0;
            assert(first + unknown_findings(found).take(0) =~= first);
            while j < finds.list.len()
                invariant
                    j <= finds.list@.len(),
                    found == found_views(finds.list@),
                    super::findings_view(findings@) == first + unknown_findings(found).take(
                        j as int,
                    ),
                decreases finds.list@.len() - j,
            {
                let f = &finds.list[j];
                assert(first + unknown_findings(found).take(j + 1) =~= (first + unknown_findings(
                    found,
                ).take(j as int)).push(unknown_finding(found[j as int])));
                findings.push(
                    super::advise(
                        f.file.as_str(),
                        f.line,
                        Severity::Warning,
                        text::cat3("Unknown word: '", f.word.as_str(), "'"),
                        text::lit(
                            "Add to your personal dictionary with `texforge spell add <word>` (add --local instead to accept it only in this project) to accept this word",
                        ),
                    ),
                );
                j = j + 1;
            }
            assert(unknown_findings(found).take(j as int) =~= unknown_findings(found));
            let notice = using_message(resolution.language.as_str(), location);
            SpellReport { findings, notice }
        },
    }
}

// ---------------------------------------------------------------------------
// Laws
// ---------------------------------------------------------------------------

/// Whether no word is listed twice, and every word listed is unknown.
pub open spec fn is_proper(
    found: Seq<Unknown>,
    dict: WordDictionary,
    whitelist: Seq<Seq<char>>,
) -> bool {
    &&& forall|i: int, j: int|
        0 <= i < j < found.len() ==> (#[trigger] found[i]).word != (#[trigger] found[j]).word
    &&& forall|i: int|
        0 <= i < found.len() ==> !dict.knows((#[trigger] found[i]).word) && !whitelist.contains(
            found[i].word,
        )
}

proof fn lemma_runs_proper(
    found: Seq<Unknown>,
    file: Seq<char>,
    chunks: Seq<(int, int)>,
    runs: Seq<(int, Seq<char>)>,
    dict: WordDictionary,
    whitelist: Seq<Seq<char>>,
    k: int,
)
    requires
        is_proper(found, dict, whitelist),
    ensures
        is_proper(
            unknown_in_runs(found, file, chunks, runs, dict, whitelist, k),
            dict,
            whitelist,
        ),
    decreases runs.len() - k,
{
    if 0 <= k < runs.len() {
        let word = looked_up(runs[k].1);
        let next = if is_reported(runs[k].1, dict, whitelist) && !is_found(found, word) {
            found.push(Unknown { word, file, line: accents::line_for(chunks, runs[k].0) })
        } else {
            found
        };
        assert(is_proper(next, dict, whitelist)) by {
            assert forall|i: int, j: int| 0 <= i < j < next.len() implies (
            #[trigger] next[i]).word != (#[trigger] next[j]).word by {
                if j < found.len() {
                    assert(found[i].word != found[j].word);
                } else {
                    assert(next[i] == found[i]);
                }
            }
            assert forall|i: int| 0 <= i < next.len() implies !dict.knows(
                (#[trigger] next[i]).word,
            ) && !whitelist.contains(next[i].word) by {
                if i < found.len() {
                    assert(next[i] == found[i]);
                }
            }
        }
        lemma_runs_proper(next, file, chunks, runs, dict, whitelist, k + 1);
    }
}

/// A word that is reported is known neither to the dictionary nor to the whitelist, and
/// no word is reported twice.
pub proof fn law_unknown_words(
    files: Seq<(Seq<char>, Seq<char>)>,
    dict: WordDictionary,
    whitelist: Seq<Seq<char>>,
    k: int,
)
    ensures
        is_proper(unknown_in(files, dict, whitelist, k), dict, whitelist),
    decreases k,
{
    if 0 < k <= files.len() {
        law_unknown_words(files, dict, whitelist, k - 1);
        let s = accents::spell_text(
            files[k - 1].1,
            texparse::scan_source(files[k - 1].1).tokens,
            0,
            0,
            0,
        );
        lemma_runs_proper(
            unknown_in(files, dict, whitelist, k - 1),
            files[k - 1].0,
            s.chunks,
            letter_runs(s.text, 0),
            dict,
            whitelist,
            0,
        );
    }
}

/// The language that a document declares wins over whatever default is configured.
pub proof fn law_declaration_wins(
    files: Seq<(Seq<char>, Seq<char>)>,
    default_lang: Option<Seq<char>>,
    d: DeclarationView,
)
    requires
        declared_in(files, 0) == Some(d),
    ensures
        language_of(files, default_lang) == d.language,
{
}

/// Without a dictionary of its language a document has no unknown words: none is checked
/// against another language.
pub proof fn law_no_dictionary_no_unknown_words(
    files: Seq<(Seq<char>, Seq<char>)>,
    default_lang: Option<Seq<char>>,
    answer: DictionaryAnswer,
    whitelist: Seq<Seq<char>>,
)
    requires
        answer is Unavailable,
    ensures
        spelling_findings(files, default_lang, answer, whitelist) == disagreement_findings(
            files,
            default_lang,
        ),
        spelling_findings(files, default_lang, answer, whitelist).len() <= 1,
{
    assert(spelling_findings(files, default_lang, answer, whitelist) =~= disagreement_findings(
        files,
        default_lang,
    ));
}

proof fn lemma_runs_reported(
    found: Seq<Unknown>,
    file: Seq<char>,
    chunks: Seq<(int, int)>,
    runs: Seq<(int, Seq<char>)>,
    dict: WordDictionary,
    whitelist: Seq<Seq<char>>,
    k: int,
)
    requires
        0 <= k,
    ensures
        forall|w: Seq<char>|
            #[trigger] is_found(found, w) ==> is_found(
                unknown_in_runs(found, file, chunks, runs, dict, whitelist, k),
                w,
            ),
        forall|j: int|
            k <= j < runs.len() && is_reported((#[trigger] runs[j]).1, dict, whitelist) ==> is_found(
                unknown_in_runs(found, file, chunks, runs, dict, whitelist, k),
                looked_up(runs[j].1),
            ),
    decreases runs.len() - k,
{
    if k < runs.len() {
        let word = looked_up(runs[k].1);
        let reported = is_reported(runs[k].1, dict, whitelist) && !is_found(found, word);
        let next = if reported {
            found.push(Unknown { word, file, line: accents::line_for(chunks, runs[k].0) })
        } else {
            found
        };
        lemma_runs_reported(next, file, chunks, runs, dict, whitelist, k + 1);
        assert forall|w: Seq<char>| #[trigger] is_found(found, w) implies is_found(next, w) by {
            let i = choose|i: int| 0 <= i < found.len() && (#[trigger] found[i]).word == w;
            assert(next[i].word == w);
        }
        if reported {
            assert(next[found.len() as int].word == word);
            assert(is_found(next, word));
        }
    }
}

/// Every word of the prose of a document that is more than one byte long and that neither
/// the dictionary nor the whitelist knows is reported.
pub proof fn law_every_unknown_word_is_reported(
    files: Seq<(Seq<char>, Seq<char>)>,
    dict: WordDictionary,
    whitelist: Seq<Seq<char>>,
    k: int,
    f: int,
    j: int,
)
    requires
        0 <= f < k <= files.len(),
        ({
            let source = files[f].1;
            let s = accents::spell_text(source, texparse::scan_source(source).tokens, 0, 0, 0);
            &&& 0 <= j < letter_runs(s.text, 0).len()
            &&& is_reported(letter_runs(s.text, 0)[j].1, dict, whitelist)
        }),
    ensures
        ({
            let source = files[f].1;
            let s = accents::spell_text(source, texparse::scan_source(source).tokens, 0, 0, 0);
            is_found(
                unknown_in(files, dict, whitelist, k),
                looked_up(letter_runs(s.text, 0)[j].1),
            )
        }),
    decreases k,
{
    let source = files[k - 1].1;
    let s = accents::spell_text(source, texparse::scan_source(source).tokens, 0, 0, 0);
    let before = unknown_in(files, dict, whitelist, k - 1);
    lemma_runs_reported(
        before,
        files[k - 1].0,
        s.chunks,
        letter_runs(s.text, 0),
        dict,
        whitelist,
        0,
    );
    if f < k - 1 {
        law_every_unknown_word_is_reported(files, dict, whitelist, k - 1, f, j);
    }
}

/// Spell checking warns; it never reports an error.
pub proof fn law_spelling_only_warns(
    files: Seq<(Seq<char>, Seq<char>)>,
    default_lang: Option<Seq<char>>,
    answer: DictionaryAnswer,
    whitelist: Seq<Seq<char>>,
    k: int,
)
    requires
        0 <= k < spelling_findings(files, default_lang, answer, whitelist).len(),
    ensures
        spelling_findings(files, default_lang, answer, whitelist)[k].severity == Severity::Warning,
{
}

/// A document that overrides the configured language is told so, once; where either is
/// absent, or both agree, nothing is said.
pub proof fn law_disagreement_is_told_once(
    files: Seq<(Seq<char>, Seq<char>)>,
    default_lang: Option<Seq<char>>,
)
    ensures
        disagreement_findings(files, default_lang).len() == if default_lang matches Some(c)
            && declared_in(files, 0) matches Some(d) && d.language != c {
            1nat
        } else {
            0nat
        },
{
}

/// Where both halves of a Hunspell pair are there they are used, whatever else is there.
pub proof fn law_hunspell_wins(lang: Seq<char>, home: Seq<char>, present: Present, offline: bool)
    requires
        present.dic,
        present.aff,
    ensures
        plan_of(lang, Some(home), present, offline) == PlanView::Use(
            LocationView::Hunspell {
                dic: dictionary_file(home, lang, ".dic"@),
                aff: dictionary_file(home, lang, ".aff"@),
            },
        ),
{
}

/// Half of a Hunspell pair is as good as none.
pub proof fn law_half_a_pair_is_ignored(
    lang: Seq<char>,
    home: Option<Seq<char>>,
    present: Present,
    offline: bool,
)
    requires
        !(present.dic && present.aff),
    ensures
        plan_of(lang, home, present, offline) == plan_of(
            lang,
            home,
            Present { dic: false, aff: false, txt: present.txt },
            offline,
        ),
{
}

} // verus!
