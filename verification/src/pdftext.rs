//! The text of a PDF and how faithful it is to the source.
//!
//! The text is compared the way a reader sees it: ligatures are spelled out and words
//! that a hyphen splits at the end of a line are joined. Every significant word of the
//! source must appear in it; the words that do not are reported as warnings, and the
//! source is never edited.

use vstd::prelude::*;

use crate::chars;
use crate::linter::{self, FindingView, LintFinding, Severity};
use crate::number;
use crate::order;
use crate::pdfdoc::{self, PdfDocument, PdfFault};
use crate::text::{self, chars_of, string_of};
use crate::texparse::{self, Token, TokenView, TokenizedFile};
use crate::texutil::{self, SourceFile, TraversalView};
use crate::wordcount;

verus! {

broadcast use {text::lemma_texts_push, linter::lemma_findings_push};

// ---------------------------------------------------------------------------
// Normalization
// ---------------------------------------------------------------------------

/// The letters of a ligature, and any other character by itself.
pub open spec fn letters_of(c: char) -> Seq<char> {
    if c == '\u{FB00}' {
        "ff"@
    } else if c == '\u{FB01}' {
        "fi"@
    } else if c == '\u{FB02}' {
        "fl"@
    } else if c == '\u{FB03}' {
        "ffi"@
    } else if c == '\u{FB04}' {
        "ffl"@
    } else if c == '\u{FB05}' || c == '\u{FB06}' {
        "st"@
    } else {
        seq![c]
    }
}

/// A text with its ligatures spelled out.
pub open spec fn expanded(s: Seq<char>) -> Seq<char>
    decreases s.len(),
{
    if s.len() == 0 {
        Seq::empty()
    } else {
        expanded(s.drop_last()) + letters_of(s.last())
    }
}

/// Where the line breaks that stand at `j` end.
pub open spec fn past_breaks(s: Seq<char>, j: int) -> int
    decreases s.len() - j,
{
    if 0 <= j < s.len() && (s[j] == '\n' || s[j] == '\r') {
        past_breaks(s, j + 1)
    } else {
        j
    }
}

/// Whether a hyphen at `i` splits a word: a letter before it, line breaks right after it,
/// and a letter after those.
pub open spec fn splits_word(s: Seq<char>, i: int) -> bool {
    let j = past_breaks(s, i + 1);
    s[i] == '-' && i > 0 && chars::alphabetic(s[i - 1]) && i + 1 < j < s.len()
        && chars::alphabetic(s[j])
}

/// A text from `i` on, without the hyphens that split words and their line breaks.
pub open spec fn rejoined(s: Seq<char>, i: int) -> Seq<char>
    decreases s.len() - i,
{
    if i < 0 || i >= s.len() {
        Seq::empty()
    } else if splits_word(s, i) {
        rejoined(s, past_breaks(s, i + 1))
    } else {
        seq![s[i]] + rejoined(s, i + 1)
    }
}

/// A text without soft hyphens and with its split words joined.
pub open spec fn hyphens_rejoined(s: Seq<char>) -> Seq<char> {
    rejoined(text::replace(s, "\u{00AD}"@, Seq::empty()), 0)
}

/// A text as a reader sees it.
pub open spec fn normalized(s: Seq<char>) -> Seq<char> {
    hyphens_rejoined(expanded(s))
}

/// Expand the ligatures U+FB00 to U+FB06 to their letters.
pub fn expand_ligatures(s: &str) -> (r: String)
    ensures
        r@ == expanded(s@),
{
    let c = chars_of(s);
    let mut out = String::new();
    let mut i: usize = 0;
    assert(s@.take(0) =~= Seq::<char>::empty());
    while i < c.len()
        invariant
            i <= c@.len(),
            c@ == s@,
            out@ == expanded(s@.take(i as int)),
        decreases c@.len() - i,
    {
        let x = c[i];
        assert(s@.take(i + 1).drop_last() =~= s@.take(i as int));
        if x == '\u{FB00}' {
            text::push(&mut out, "ff");
        } else if x == '\u{FB01}' {
            text::push(&mut out, "fi");
        } else if x == '\u{FB02}' {
            text::push(&mut out, "fl");
        } else if x == '\u{FB03}' {
            text::push(&mut out, "ffi");
        } else if x == '\u{FB04}' {
            text::push(&mut out, "ffl");
        } else if x == '\u{FB05}' || x == '\u{FB06}' {
            text::push(&mut out, "st");
        } else {
            let ghost before = out@;
            out.push(x);
            assert(out@ =~= before + seq![x]);
        }
        i = i + 1;
    }
    assert(s@.take(c@.len() as int) =~= s@);
    out
}

/// Rejoin words split by a hyphen at a line break, and strip soft hyphens.
pub fn rejoin_hyphenated_linebreaks(s: &str) -> (r: String)
    ensures
        r@ == hyphens_rejoined(s@),
{
    let raw = chars_of(s);
    proof {
        reveal_strlit("");
        assert(""@ =~= Seq::<char>::empty());
    }
    let without_soft = text::replaced(raw.as_slice(), "\u{00AD}", "");
    let c = chars_of(without_soft.as_str());
    let n: usize = c.len();
    let mut out = String::new();
    let mut i: usize = 0;
    assert(out@ + rejoined(c@, 0) =~= rejoined(c@, 0));
    while i < n
        invariant
            i <= n == c@.len(),
            out@ + rejoined(c@, i as int) == rejoined(c@, 0),
        decreases n - i,
    {
        let ghost done = out@;
        if c[i] == '-' && i > 0 && c[i - 1].is_alphabetic() && i + 1 < n {
            let mut j: usize = i + 1;
            while j < n && (c[j] == '\n' || c[j] == '\r')
                invariant
                    i < j <= n == c@.len(),
                    past_breaks(c@, i + 1) == past_breaks(c@, j as int),
                decreases n - j,
            {
                j = j + 1;
            }
            if j < n && c[j].is_alphabetic() && j > i + 1 {
                i = j;
                continue;
            }
        }
        out.push(c[i]);
        assert(done + (seq![c@[i as int]] + rejoined(c@, i + 1)) =~= out@ + rejoined(c@, i + 1));
        i = i + 1;
    }
    out
}

/// Map ligatures back to letters and rejoin hyphenated line breaks.
pub fn normalize_pdf_text(raw: &str) -> (r: String)
    ensures
        r@ == normalized(raw@),
{
    let expanded = expand_ligatures(raw);
    rejoin_hyphenated_linebreaks(expanded.as_str())
}

// ---------------------------------------------------------------------------
// Significant words
// ---------------------------------------------------------------------------

/// Words with how often each occurs, in the order of the words, and each word once.
#[derive(Debug)]
pub struct WordCounts {
    entries: Vec<(Vec<char>, usize)>,
}

/// What entries say.
pub open spec fn entry_views(v: Seq<(Vec<char>, usize)>) -> Seq<(Seq<char>, int)> {
    Seq::new(v.len(), |k: int| (v[k].0@, v[k].1 as int))
}

/// The words of counts.
pub open spec fn keys(s: Seq<(Seq<char>, int)>) -> Seq<Seq<char>> {
    Seq::new(s.len(), |k: int| s[k].0)
}

impl View for WordCounts {
    type V = Seq<(Seq<char>, int)>;

    closed spec fn view(&self) -> Seq<(Seq<char>, int)> {
        entry_views(self.entries@)
    }
}

/// Where a word has its place: behind every word that does not come after it.
pub open spec fn slot(s: Seq<(Seq<char>, int)>, w: Seq<char>) -> int {
    order::place(keys(s), w, s.len() as int)
}

/// Whether a word is counted.
pub open spec fn is_counted(s: Seq<(Seq<char>, int)>, w: Seq<char>) -> bool {
    slot(s, w) > 0 && s[slot(s, w) - 1].0 == w
}

/// How often a word occurs.
pub open spec fn count_of(s: Seq<(Seq<char>, int)>, w: Seq<char>) -> int {
    if is_counted(s, w) {
        s[slot(s, w) - 1].1
    } else {
        0
    }
}

/// Counts in which a word occurs `n` times.
pub open spec fn with_count(s: Seq<(Seq<char>, int)>, w: Seq<char>, n: int) -> Seq<
    (Seq<char>, int),
> {
    if is_counted(s, w) {
        s.update(slot(s, w) - 1, (w, n))
    } else {
        s.insert(slot(s, w), (w, n))
    }
}

/// Counts after one more occurrence of a word.
pub open spec fn tally(s: Seq<(Seq<char>, int)>, w: Seq<char>) -> Seq<(Seq<char>, int)> {
    with_count(s, w, wordcount::capped((count_of(s, w) + 1) as nat) as int)
}

/// The counts of the first `k` words.
pub open spec fn tallied(words: Seq<Seq<char>>) -> Seq<(Seq<char>, int)>
    decreases words.len(),
{
    if words.len() == 0 {
        Seq::empty()
    } else {
        tally(tallied(words.drop_last()), words.last())
    }
}

impl WordCounts {
    #[verifier::type_invariant]
    spec fn in_order(self) -> bool {
        order::ascending(keys(entry_views(self.entries@)))
    }

    /// No words.
    pub fn new() -> (r: WordCounts)
        ensures
            r@ == Seq::<(Seq<char>, int)>::empty(),
    {
        let r = WordCounts { entries: Vec::new() };
        assert(r@ =~= Seq::<(Seq<char>, int)>::empty());
        r
    }

    fn slot_of(&self, w: &[char]) -> (r: usize)
        ensures
            r == slot(self@, w@),
            r <= self@.len() == self.entries@.len(),
    {
        let ghost s = keys(self@);
        let mut k: usize = self.entries.len();
        while k > 0 && order::before(w, self.entries[k - 1].0.as_slice())
            invariant
                k <= self.entries@.len(),
                s == keys(self@),
                slot(self@, w@) == order::place(s, w@, k as int),
            decreases k,
        {
            assert(s[k - 1] == self.entries@[k - 1].0@);
            k = k - 1;
        }
        assert(k > 0 ==> s[k - 1] == self.entries@[k - 1].0@);
        k
    }

    /// How often a word occurs, where it is counted.
    pub fn get(&self, word: &str) -> (r: Option<usize>)
        ensures
            order::ascending(keys(self@)),
            match r {
                Some(n) => is_counted(self@, word@) && n == count_of(self@, word@),
                None => !is_counted(self@, word@),
            },
    {
        proof {
            use_type_invariant(self);
        }
        let w = chars_of(word);
        let k = self.slot_of(w.as_slice());
        if k > 0 && text::same(self.entries[k - 1].0.as_slice(), w.as_slice()) {
            Some(self.entries[k - 1].1)
        } else {
            None
        }
    }

    /// Whether a word is counted.
    pub fn contains_key(&self, word: &str) -> (r: bool)
        ensures
            r == is_counted(self@, word@),
    {
        self.get(word).is_some()
    }

    /// Sets how often a word occurs.
    pub fn insert(&mut self, word: &str, count: usize)
        ensures
            final(self)@ == with_count(old(self)@, word@, count as int),
    {
        let w = chars_of(word);
        let k = self.slot_of(w.as_slice());
        let ghost before = self@;
        proof {
            use_type_invariant(&*self);
            lemma_with_count(before, word@, count as int, word@);
        }
        let mut entries: Vec<(Vec<char>, usize)> = Vec::new();
        std::mem::swap(&mut entries, &mut self.entries);
        if k > 0 && text::same(entries[k - 1].0.as_slice(), w.as_slice()) {
            entries.set(k - 1, (w, count));
            assert(entry_views(entries@) =~= before.update(k - 1, (word@, count as int)));
        } else {
            entries.insert(k, (w, count));
            assert(entry_views(entries@) =~= before.insert(k as int, (word@, count as int)));
        }
        self.entries = entries;
    }

    /// Counts one more occurrence of a word.
    fn tally(&mut self, word: &str)
        ensures
            final(self)@ == tally(old(self)@, word@),
    {
        let n = match self.get(word) {
            Some(n) => wordcount::saturating(n, 1),
            None => 1,
        };
        self.insert(word, n);
    }

    /// The number of words, which stand in order, each once.
    pub fn len(&self) -> (r: usize)
        ensures
            r == self@.len(),
            order::ascending(keys(self@)),
    {
        proof {
            use_type_invariant(self);
        }
        self.entries.len()
    }

    /// The `k`-th word and how often it occurs.
    pub fn entry(&self, k: usize) -> (r: (String, usize))
        requires
            k < self@.len(),
        ensures
            (r.0@, r.1 as int) == self@[k as int],
    {
        (string_of(self.entries[k].0.as_slice()), self.entries[k].1)
    }
}

/// Whether a character stands at the edge of a word and does not belong to it.
pub open spec fn is_edge(c: char) -> bool {
    !chars::alphanumeric(c) && c != '-' && c != '\''
}

/// A word without the punctuation before it.
pub open spec fn trim_edge_start(s: Seq<char>) -> Seq<char>
    decreases s.len(),
{
    if s.len() > 0 && is_edge(s[0]) {
        trim_edge_start(s.skip(1))
    } else {
        s
    }
}

/// A word without the punctuation behind it.
pub open spec fn trim_edge_end(s: Seq<char>) -> Seq<char>
    decreases s.len(),
{
    if s.len() > 0 && is_edge(s.last()) {
        trim_edge_end(s.drop_last())
    } else {
        s
    }
}

/// A word without the punctuation around it and without empty groups.
pub open spec fn bare_word(w: Seq<char>) -> Seq<char> {
    text::replace(trim_edge_end(trim_edge_start(w)), "{}"@, Seq::empty())
}

/// The significant words among the runs from the `k`-th on: those with a letter.
pub open spec fn bare_words(runs: Seq<Seq<char>>, k: int) -> Seq<Seq<char>>
    decreases runs.len() - k,
{
    if k < 0 || k >= runs.len() {
        Seq::empty()
    } else if wordcount::is_word(bare_word(runs[k])) {
        seq![bare_word(runs[k])] + bare_words(runs, k + 1)
    } else {
        bare_words(runs, k + 1)
    }
}

/// The significant words of a prose run.
pub open spec fn run_words(t: Seq<char>) -> Seq<Seq<char>> {
    bare_words(text::words(t), 0)
}

/// The significant words of the prose among the tokens from the `k`-th on.
pub open spec fn prose(tokens: Seq<TokenView>, k: int) -> Seq<Seq<char>>
    decreases tokens.len() - k,
{
    if k < 0 || k >= tokens.len() {
        Seq::empty()
    } else {
        match tokens[k] {
            TokenView::Text(t) => run_words(t) + prose(tokens, k + 1),
            _ => prose(tokens, k + 1),
        }
    }
}

/// The significant words that a token of a document brings.
pub open spec fn token_words(t: TokenView, in_document: bool) -> Seq<Seq<char>> {
    match t {
        TokenView::Section { level, title } => if in_document {
            prose(texparse::tokens_of(title), 0)
        } else {
            Seq::empty()
        },
        TokenView::Text(x) => if in_document {
            run_words(x)
        } else {
            Seq::empty()
        },
        _ => Seq::empty(),
    }
}

/// Whether the document is open after a token.
pub open spec fn open_after(t: TokenView, in_document: bool) -> bool {
    match t {
        TokenView::BeginDocument => true,
        TokenView::EndDocument => false,
        _ => in_document,
    }
}

/// Whether the document is open after the first `k` tokens of a file.
pub open spec fn open_at(tokens: Seq<TokenView>, k: int, in_document: bool) -> bool
    decreases k,
{
    if k <= 0 || k > tokens.len() {
        in_document
    } else {
        open_after(tokens[k - 1], open_at(tokens, k - 1, in_document))
    }
}

/// The significant words of the first `k` tokens of a file.
pub open spec fn file_words(tokens: Seq<TokenView>, k: int, in_document: bool) -> Seq<Seq<char>>
    decreases k,
{
    if k <= 0 || k > tokens.len() {
        Seq::empty()
    } else {
        file_words(tokens, k - 1, in_document) + token_words(
            tokens[k - 1],
            open_at(tokens, k - 1, in_document),
        )
    }
}

/// Whether the document is open after the first `k` files.
pub open spec fn open_files(files: Seq<(Seq<char>, Seq<TokenView>)>, k: int) -> bool
    decreases k,
{
    if k <= 0 || k > files.len() {
        false
    } else {
        let tokens = files[k - 1].1;
        open_at(tokens, tokens.len() as int, open_files(files, k - 1))
    }
}

/// The significant words of the first `k` files, which are one stream.
pub open spec fn document_words(files: Seq<(Seq<char>, Seq<TokenView>)>, k: int) -> Seq<Seq<char>>
    decreases k,
{
    if k <= 0 || k > files.len() {
        Seq::empty()
    } else {
        let tokens = files[k - 1].1;
        document_words(files, k - 1) + file_words(
            tokens,
            tokens.len() as int,
            open_files(files, k - 1),
        )
    }
}

fn edge(c: char) -> (r: bool)
    ensures
        r == is_edge(c),
{
    !c.is_alphanumeric() && c != '-' && c != '\''
}

fn trim_punct(w: &[char]) -> (r: &[char])
    ensures
        r@ == trim_edge_end(trim_edge_start(w@)),
{
    let mut s = w;
    while s.len() > 0 && edge(s[0])
        invariant
            trim_edge_start(w@) == trim_edge_start(s@),
        decreases s@.len(),
    {
        s = text::from(s, 1);
    }
    let ghost t = s@;
    while s.len() > 0 && edge(s[s.len() - 1])
        invariant
            trim_edge_end(t) == trim_edge_end(s@),
        decreases s@.len(),
    {
        let n: usize = s.len();
        assert(s@.drop_last() =~= s@.take(n - 1));
        s = text::upto(s, n - 1);
    }
    s
}

/// Appends the significant words of a prose run.
fn words_in_text(t: &str, out: &mut Vec<String>)
    ensures
        text::texts(final(out)@) == text::texts(old(out)@) + run_words(t@),
{
    let c = chars_of(t);
    let runs = text::words_of(c.as_slice());
    let ghost all = text::slices(runs@);
    let ghost start = text::texts(out@);
    let mut k: usize = 0;
    while k < runs.len()
        invariant
            k <= runs@.len(),
            all == text::slices(runs@),
            all == text::words(t@),
            text::texts(out@) + bare_words(all, k as int) == start + run_words(t@),
        decreases runs@.len() - k,
    {
        assert(all[k as int] == runs@[k as int]@);
        let trimmed = string_of(trim_punct(runs[k]));
        let word = texutil::strip_empty_groups(trimmed.as_str());
        let w = chars_of(word.as_str());
        if wordcount::has_letter(w.as_slice()) {
            let ghost done = text::texts(out@);
            out.push(word);
            assert(done + (seq![word@] + bare_words(all, k + 1)) =~= text::texts(out@)
                + bare_words(all, k + 1));
        }
        k = k + 1;
    }
    assert(text::texts(out@) + bare_words(all, k as int) =~= text::texts(out@));
}

/// Appends the significant words of a section title, math and commands aside.
fn words_in_title(title: &str, out: &mut Vec<String>)
    ensures
        text::texts(final(out)@) == text::texts(old(out)@) + prose(
            texparse::tokens_of(title@),
            0,
        ),
{
    let tokens = texparse::tokenize(title);
    let ghost all = texparse::token_views(tokens@);
    let ghost start = text::texts(out@);
    let mut k: usize = 0;
    while k < tokens.len()
        invariant
            k <= tokens@.len(),
            all == texparse::token_views(tokens@),
            text::texts(out@) + prose(all, k as int) == start + prose(all, 0),
        decreases tokens@.len() - k,
    {
        assert(all[k as int] == tokens@[k as int]@);
        if let Token::Text(t) = &tokens[k] {
            let ghost done = text::texts(out@);
            words_in_text(t.as_str(), out);
            assert(done + (run_words(t@) + prose(all, k + 1)) =~= (done + run_words(t@)) + prose(
                all,
                k + 1,
            ));
        }
        k = k + 1;
    }
    assert(text::texts(out@) + prose(all, k as int) =~= text::texts(out@));
}

/// Appends the significant words of a file; answers whether the document is open after it.
fn words_in_file(tokens: &Vec<Token>, in_document: bool, out: &mut Vec<String>) -> (r: bool)
    ensures
        text::texts(final(out)@) == text::texts(old(out)@) + file_words(
            texparse::token_views(tokens@),
            tokens@.len() as int,
            in_document,
        ),
        r == open_at(texparse::token_views(tokens@), tokens@.len() as int, in_document),
{
    let ghost all = texparse::token_views(tokens@);
    let ghost start = text::texts(out@);
    let mut open = in_document;
    let mut k: usize = 0;
    assert(start + file_words(all, 0, in_document) =~= start);
    while k < tokens.len()
        invariant
            k <= tokens@.len(),
            all == texparse::token_views(tokens@),
            open == open_at(all, k as int, in_document),
            text::texts(out@) == start + file_words(all, k as int, in_document),
        decreases tokens@.len() - k,
    {
        assert(all[k as int] == tokens@[k as int]@);
        let ghost more = token_words(all[k as int], open);
        let ghost done = file_words(all, k as int, in_document);
        assert((start + done) + more =~= start + (done + more));
        match &tokens[k] {
            Token::BeginDocument => {
                open = true;
            },
            Token::EndDocument => {
                open = false;
            },
            Token::Section { level: _, title } => {
                if open {
                    words_in_title(title.as_str(), out);
                }
            },
            Token::Text(t) => {
                if open {
                    words_in_text(t.as_str(), out);
                }
            },
            _ => {},
        }
        assert(text::texts(out@) =~= (start + done) + more);
        k = k + 1;
    }
    open
}

/// Significant prose words of a tokenized document: labels, references and math are no
/// prose, and nothing outside the document environment counts.
pub fn significant_words(files: &Vec<TokenizedFile>) -> (r: WordCounts)
    ensures
        r@ == tallied(
            document_words(texparse::document_view(files@), files@.len() as int),
        ),
{
    let ghost all = texparse::document_view(files@);
    let mut words: Vec<String> = Vec::new();
    let mut open = false;
    let mut k: usize = 0;
    assert(text::texts(words@) =~= document_words(all, 0));
    while k < files.len()
        invariant
            k <= files@.len(),
            all == texparse::document_view(files@),
            open == open_files(all, k as int),
            text::texts(words@) == document_words(all, k as int),
        decreases files@.len() - k,
    {
        assert(all[k as int].1 == texparse::token_views(files@[k as int].tokens@));
        open = words_in_file(&files[k].tokens, open, &mut words);
        k = k + 1;
    }
    let ghost list = text::texts(words@);
    let mut counts = WordCounts::new();
    let mut i: usize = 0;
    assert(list.take(0) =~= Seq::<Seq<char>>::empty());
    while i < words.len()
        invariant
            i <= words@.len(),
            list == text::texts(words@),
            counts@ == tallied(list.take(i as int)),
        decreases words@.len() - i,
    {
        assert(list.take(i + 1).drop_last() =~= list.take(i as int));
        assert(list.take(i + 1).last() == words@[i as int]@);
        counts.tally(words[i].as_str());
        i = i + 1;
    }
    assert(list.take(words@.len() as int) =~= list);
    counts
}

/// How often a word occurs in a list.
pub open spec fn occurrences(words: Seq<Seq<char>>, w: Seq<char>) -> nat
    decreases words.len(),
{
    if words.len() == 0 {
        0
    } else {
        occurrences(words.drop_last(), w) + if words.last() == w {
            1nat
        } else {
            0nat
        }
    }
}

proof fn lemma_count_at(s: Seq<(Seq<char>, int)>, i: int)
    requires
        order::ascending(keys(s)),
        0 <= i < s.len(),
    ensures
        is_counted(s, s[i].0),
        count_of(s, s[i].0) == s[i].1,
{
    order::lemma_ascending_at(keys(s), i);
}

proof fn lemma_with_count(s: Seq<(Seq<char>, int)>, w: Seq<char>, n: int, v: Seq<char>)
    requires
        order::ascending(keys(s)),
    ensures
        ({
            let t = with_count(s, w, n);
            &&& order::ascending(keys(t))
            &&& is_counted(t, v) == (v == w || is_counted(s, v))
            &&& count_of(t, v) == if v == w {
                n
            } else {
                count_of(s, v)
            }
        }),
{
    let t = with_count(s, w, n);
    let p = slot(s, w);
    order::lemma_ascending_place(keys(s), w);
    order::lemma_ascending_place(keys(s), v);
    if is_counted(s, w) {
        assert(keys(t) =~= keys(s));
        lemma_count_at(t, p - 1);
    } else {
        assert(keys(t) =~= keys(s).insert(p, w));
        order::lemma_ascending_insert(keys(s), w);
        lemma_count_at(t, p);
    }
    order::lemma_ascending_place(keys(t), v);
    if v != w {
        if is_counted(s, v) {
            let i = slot(s, v) - 1;
            if is_counted(s, w) || i < p {
                lemma_count_at(t, i);
            } else {
                lemma_count_at(t, i + 1);
            }
        } else if is_counted(t, v) {
            let i = slot(t, v) - 1;
            if is_counted(s, w) || i < p {
                lemma_count_at(s, i);
            } else {
                lemma_count_at(s, i - 1);
            }
        }
    }
}

/// Every word of a list is counted as often as it occurs, and the counts stand in the
/// order of the words.
pub proof fn law_tally(words: Seq<Seq<char>>, w: Seq<char>)
    ensures
        order::ascending(keys(tallied(words))),
        is_counted(tallied(words), w) <==> words.contains(w),
        count_of(tallied(words), w) == wordcount::capped(occurrences(words, w)),
    decreases words.len(),
{
    if words.len() > 0 {
        let t = words.drop_last();
        law_tally(t, w);
        law_tally(t, words.last());
        let before = tallied(t);
        let last = words.last();
        lemma_with_count(
            before,
            last,
            wordcount::capped((count_of(before, last) + 1) as nat) as int,
            w,
        );
        if w != last {
            assert(count_of(before, w) == wordcount::capped(occurrences(t, w)));
            if words.contains(w) {
                let i = choose|i: int| 0 <= i < words.len() && words[i] == w;
                assert(t[i] == w);
            }
            if t.contains(w) {
                let i = choose|i: int| 0 <= i < t.len() && t[i] == w;
                assert(words[i] == w);
            }
        } else {
            assert(words[words.len() - 1] == w);
        }
    }
}

// ---------------------------------------------------------------------------
// Fidelity
// ---------------------------------------------------------------------------

/// A distinct source word missing from the extracted PDF text.
#[derive(Debug, Clone, PartialEq, Eq)]
pub struct MissingWord {
    pub word: String,
    pub count: usize,
}

/// What missing words say.
pub open spec fn missing_views(v: Seq<MissingWord>) -> Seq<(Seq<char>, int)> {
    Seq::new(v.len(), |k: int| (v[k].word@, v[k].count as int))
}

/// The counted words, from the `k`-th on, that a text does not contain.
pub open spec fn missing(counts: Seq<(Seq<char>, int)>, pdf: Seq<char>, k: int) -> Seq<
    (Seq<char>, int),
>
    decreases counts.len() - k,
{
    if k < 0 || k >= counts.len() {
        Seq::empty()
    } else if text::contains(pdf, counts[k].0) {
        missing(counts, pdf, k + 1)
    } else {
        seq![counts[k]] + missing(counts, pdf, k + 1)
    }
}

/// Compare significant source words against normalized PDF text: the distinct words that
/// the text does not contain, with how often they occur in the source.
pub fn fidelity_missing_words(source_words: &WordCounts, pdf_text_normalized: &str) -> (r: Vec<
    MissingWord,
>)
    ensures
        missing_views(r@) == missing(source_words@, pdf_text_normalized@, 0),
{
    let pdf = chars_of(pdf_text_normalized);
    let ghost all = source_words@;
    let mut out: Vec<MissingWord> = Vec::new();
    let mut k: usize = 0;
    let n: usize = source_words.len();
    assert(missing_views(out@) + missing(all, pdf@, 0) =~= missing(all, pdf@, 0));
    while k < n
        invariant
            k <= n == source_words@.len(),
            all == source_words@,
            missing_views(out@) + missing(all, pdf@, k as int) == missing(all, pdf@, 0),
        decreases n - k,
    {
        let (word, count) = source_words.entry(k);
        if !text::has(pdf.as_slice(), word.as_str()) {
            let ghost done = missing_views(out@);
            out.push(MissingWord { word, count });
            assert(missing_views(out@) =~= done.push(all[k as int]));
            assert(done + (seq![all[k as int]] + missing(all, pdf@, k + 1)) =~= missing_views(out@)
                + missing(all, pdf@, k + 1));
        }
        k = k + 1;
    }
    assert(missing_views(out@) + missing(all, pdf@, k as int) =~= missing_views(out@));
    out
}

/// A source word is reported missing exactly where the text does not contain it.
pub proof fn law_missing(counts: Seq<(Seq<char>, int)>, pdf: Seq<char>, k: int, w: (Seq<char>, int))
    requires
        0 <= k,
    ensures
        missing(counts, pdf, k).contains(w) <==> !text::contains(pdf, w.0) && (exists|i: int|
            k <= i < counts.len() && #[trigger] counts[i] == w),
    decreases counts.len() - k,
{
    if k < counts.len() {
        law_missing(counts, pdf, k + 1, w);
        let rest = missing(counts, pdf, k + 1);
        let all = missing(counts, pdf, k);
        if rest.contains(w) {
            let i = choose|i: int| 0 <= i < rest.len() && rest[i] == w;
            if !text::contains(pdf, counts[k].0) {
                assert(all[i + 1] == w);
            }
        }
        if all.contains(w) {
            let i = choose|i: int| 0 <= i < all.len() && all[i] == w;
            if !text::contains(pdf, counts[k].0) && i > 0 {
                assert(rest[i - 1] == w);
            }
        }
        if !text::contains(pdf, w.0) && counts[k] == w {
            assert(all[0] == w);
        }
    }
}

/// How a word with a ligature is written so that the ligature is broken.
pub open spec fn break_at(word: Seq<char>, k: int) -> Seq<char> {
    "Break the ligature in the source with an empty group: `"@ + word.take(k + 1) + "{}"@
        + word.skip(k + 1)
        + "` (microtype/\\DisableLigatures and fontspec Ligatures=NoCommon do not work under Tectonic)"@
}

/// Whether a ligature pair, `ff`, `fi` or `fl`, stands at `k`; the pairs of three letters,
/// `ffi` and `ffl`, begin with the first of them.
pub open spec fn is_pair_at(lower: Seq<char>, k: int) -> bool {
    0 <= k && k + 1 < lower.len() && lower[k] == 'f' && (lower[k + 1] == 'f' || lower[k + 1]
        == 'i' || lower[k + 1] == 'l')
}

/// The first ligature pair from `k` on.
pub open spec fn first_pair(lower: Seq<char>, k: int) -> Option<int>
    decreases lower.len() - k,
{
    if k < 0 || k >= lower.len() {
        None
    } else if is_pair_at(lower, k) {
        Some(k)
    } else {
        first_pair(lower, k + 1)
    }
}

/// The advice on a missing word: break its first ligature pair behind the first letter of
/// the pair.
pub open spec fn break_advice(word: Seq<char>) -> Seq<char> {
    match first_pair(chars::ascii_lower(word), 0) {
        Some(k) => break_at(word, k),
        None =>
            "Ensure the word survives compilation; if a ligature is involved, break it with an empty group (e.g. `Artif{}icial`)"@,
    }
}

fn find_pair(lower: &[char]) -> (r: Option<usize>)
    ensures
        match r {
            Some(k) => first_pair(lower@, 0) == Some(k as int) && k < lower@.len(),
            None => first_pair(lower@, 0) is None,
        },
{
    let n: usize = lower.len();
    let mut k: usize = 0;
    while k < n
        invariant
            k <= n,
            n == lower@.len(),
            first_pair(lower@, 0) == first_pair(lower@, k as int),
        decreases n - k,
    {
        if n - k > 1 && lower[k] == 'f' && (lower[k + 1] == 'f' || lower[k + 1] == 'i'
            || lower[k + 1] == 'l') {
            return Some(k);
        }
        k = k + 1;
    }
    None
}

fn broken_at(word: &[char], k: usize) -> (r: String)
    requires
        k < word@.len(),
    ensures
        r@ == break_at(word@, k as int),
{
    let n: usize = word.len();
    assert(k < n);
    let mut out = text::lit("Break the ligature in the source with an empty group: `");
    text::append_chars(&mut out, text::upto(word, k + 1));
    text::push(&mut out, "{}");
    text::append_chars(&mut out, text::from(word, k + 1));
    text::push(
        &mut out,
        "` (microtype/\\DisableLigatures and fontspec Ligatures=NoCommon do not work under Tectonic)",
    );
    out
}

fn small_letters(w: &[char]) -> (r: Vec<char>)
    ensures
        r@ == chars::ascii_lower(w@),
{
    let mut out: Vec<char> = Vec::new();
    let mut i: usize = 0;
    while i < w.len()
        invariant
            i <= w@.len(),
            out@ == chars::ascii_lower(w@).take(i as int),
        decreases w@.len() - i,
    {
        out.push(chars::ascii_small(w[i]));
        assert(out@ =~= chars::ascii_lower(w@).take(i + 1));
        i = i + 1;
    }
    assert(out@ =~= chars::ascii_lower(w@));
    out
}

fn ligature_break_suggestion(word: &str) -> (r: String)
    ensures
        r@ == break_advice(word@),
{
    let w = chars_of(word);
    let lower = small_letters(w.as_slice());
    if let Some(k) = find_pair(lower.as_slice()) {
        return broken_at(w.as_slice(), k);
    }
    text::lit(
        "Ensure the word survives compilation; if a ligature is involved, break it with an empty group (e.g. `Artif{}icial`)",
    )
}

/// The finding on a missing word.
pub open spec fn missing_finding(m: (Seq<char>, int)) -> FindingView {
    let head = "source word `"@ + m.0 + "` not found in PDF text ("@;
    let message = if m.1 == 1 {
        head + "ligature, hyphenation, or encoding)"@
    } else {
        head + number::decimal(m.1 as nat)
            + " occurrences in source; ligature, hyphenation, or encoding)"@
    };
    linter::advice("pdf"@, 0, Severity::Warning, message, break_advice(m.0))
}

/// Turn missing words into warnings, each with the portable fix for a ligature: an empty
/// group that breaks it.
pub fn fidelity_findings(missing: &Vec<MissingWord>) -> (r: Vec<LintFinding>)
    ensures
        linter::findings_view(r@) == Seq::new(
            missing@.len(),
            |k: int| missing_finding(missing_views(missing@)[k]),
        ),
{
    let ghost whole = Seq::new(
        missing@.len(),
        |k: int| missing_finding(missing_views(missing@)[k]),
    );
    let mut out: Vec<LintFinding> = Vec::new();
    let mut k: usize = 0;
    assert(linter::findings_view(out@) =~= whole.take(0));
    while k < missing.len()
        invariant
            k <= missing@.len(),
            whole == Seq::new(
                missing@.len(),
                |k: int| missing_finding(missing_views(missing@)[k]),
            ),
            linter::findings_view(out@) == whole.take(k as int),
        decreases missing@.len() - k,
    {
        let m = &missing[k];
        let suggestion = ligature_break_suggestion(m.word.as_str());
        let mut message = text::cat3(
            "source word `",
            m.word.as_str(),
            "` not found in PDF text (",
        );
        if m.count == 1 {
            text::push(&mut message, "ligature, hyphenation, or encoding)");
        } else {
            text::push(&mut message, number::show_size(m.count).as_str());
            text::push(
                &mut message,
                " occurrences in source; ligature, hyphenation, or encoding)",
            );
        }
        let finding = linter::advise("pdf", 0, Severity::Warning, message, suggestion);
        assert(finding@ == whole[k as int]);
        out.push(finding);
        assert(whole.take(k + 1) =~= whole.take(k as int).push(whole[k as int]));
        k = k + 1;
    }
    assert(whole.take(k as int) =~= whole);
    out
}

/// The missing words of a document, given the text of its PDF.
pub open spec fn document_missing(
    root: Seq<char>,
    entry: Seq<char>,
    tree: Seq<(Seq<char>, Option<Seq<char>>)>,
    raw: Seq<char>,
) -> Seq<(Seq<char>, int)> {
    let files = texparse::tokenized(
        texutil::collected(TraversalView::start(root, entry), tree).files,
        tree,
        0,
    );
    missing(tallied(document_words(files, files.len() as int)), normalized(raw), 0)
}

/// Run the fidelity check for a project, given its files and the raw text of its PDF:
/// the distinct missing words as warnings.
pub fn check_fidelity(root: &str, entry: &str, tree: &Vec<SourceFile>, raw: &str) -> (r: Vec<
    LintFinding,
>)
    ensures
        ({
            let gone = document_missing(root@, entry@, texutil::tree_view(tree@), raw@);
            linter::findings_view(r@) == Seq::new(
                gone.len(),
                |k: int| missing_finding(gone[k]),
            )
        }),
{
    let files = texparse::tokenize_document(root, entry, tree);
    let source_words = significant_words(&files);
    let normalized = normalize_pdf_text(raw);
    let missing = fidelity_missing_words(&source_words, normalized.as_str());
    fidelity_findings(&missing)
}

// ---------------------------------------------------------------------------
// Fonts and metadata
// ---------------------------------------------------------------------------

/// The shape of a date in the Info dictionary, with an optional time zone behind it.
pub const PDF_DATE_EXPECTED: &'static str = "D:YYYYMMDDHHmmSS";

/// One font used by the PDF.
#[derive(Debug, Clone, PartialEq, Eq)]
pub struct PdfFontInfo {
    /// PostScript / `BaseFont` name.
    pub name: String,
    /// `/Subtype` (Type1, TrueType, Type0, …).
    pub subtype: String,
    /// Whether a `FontFile` / `FontFile2` / `FontFile3` stream is present.
    pub embedded: bool,
    /// 1-based page numbers that reference this font (sorted, unique).
    pub pages: Vec<usize>,
}

/// What a [`PdfFontInfo`] says.
#[verifier::ext_equal]
pub struct FontView {
    pub name: Seq<char>,
    pub subtype: Seq<char>,
    pub embedded: bool,
    pub pages: Seq<usize>,
}

impl View for PdfFontInfo {
    type V = FontView;

    open spec fn view(&self) -> FontView {
        FontView {
            name: self.name@,
            subtype: self.subtype@,
            embedded: self.embedded,
            pages: self.pages@,
        }
    }
}

/// What fonts say.
pub open spec fn font_views(v: Seq<PdfFontInfo>) -> Seq<FontView> {
    Seq::new(v.len(), |k: int| v[k]@)
}

/// Document-level metadata from the Info dictionary.
#[derive(Debug, Clone, PartialEq, Eq)]
pub struct PdfMetadata {
    pub title: Option<String>,
    pub author: Option<String>,
    pub subject: Option<String>,
    pub keywords: Option<String>,
    pub creator: Option<String>,
    pub producer: Option<String>,
    pub creation_date: Option<String>,
    pub mod_date: Option<String>,
}

/// What [`PdfMetadata`] say.
pub struct MetadataView {
    pub title: Option<Seq<char>>,
    pub author: Option<Seq<char>>,
    pub subject: Option<Seq<char>>,
    pub keywords: Option<Seq<char>>,
    pub creator: Option<Seq<char>>,
    pub producer: Option<Seq<char>>,
    pub creation_date: Option<Seq<char>>,
    pub mod_date: Option<Seq<char>>,
}

impl View for PdfMetadata {
    type V = MetadataView;

    open spec fn view(&self) -> MetadataView {
        MetadataView {
            title: text::opt_text(self.title),
            author: text::opt_text(self.author),
            subject: text::opt_text(self.subject),
            keywords: text::opt_text(self.keywords),
            creator: text::opt_text(self.creator),
            producer: text::opt_text(self.producer),
            creation_date: text::opt_text(self.creation_date),
            mod_date: text::opt_text(self.mod_date),
        }
    }
}

impl MetadataView {
    /// No metadata.
    pub open spec fn empty() -> MetadataView {
        MetadataView {
            title: None,
            author: None,
            subject: None,
            keywords: None,
            creator: None,
            producer: None,
            creation_date: None,
            mod_date: None,
        }
    }
}

impl Default for PdfMetadata {
    fn default() -> (r: PdfMetadata)
        ensures
            r@ == MetadataView::empty(),
    {
        PdfMetadata {
            title: None,
            author: None,
            subject: None,
            keywords: None,
            creator: None,
            producer: None,
            creation_date: None,
            mod_date: None,
        }
    }
}

/// Pages, fonts and metadata of a PDF.
#[derive(Debug, Clone, PartialEq, Eq)]
pub struct PdfInfo {
    pub pages: usize,
    pub fonts: Vec<PdfFontInfo>,
    pub metadata: PdfMetadata,
}

/// What a [`PdfInfo`] says.
pub struct InfoView {
    pub pages: nat,
    pub fonts: Seq<FontView>,
    pub metadata: MetadataView,
}

impl View for PdfInfo {
    type V = InfoView;

    open spec fn view(&self) -> InfoView {
        InfoView {
            pages: self.pages as nat,
            fonts: font_views(self.fonts@),
            metadata: self.metadata@,
        }
    }
}

/// Page numbers in decimal notation.
pub open spec fn page_texts(pages: Seq<usize>) -> Seq<Seq<char>> {
    Seq::new(pages.len(), |k: int| number::decimal(pages[k] as nat))
}

/// A list of page numbers.
pub open spec fn page_list(pages: Seq<usize>) -> Seq<char> {
    if pages.len() == 0 {
        "unknown"@
    } else {
        text::join(page_texts(pages), ", "@)
    }
}

/// The finding on a font that is not embedded.
pub open spec fn font_finding(f: FontView) -> FindingView {
    linter::advice(
        "pdf"@,
        0,
        Severity::Warning,
        "font `"@ + f.name + "` is referenced but not embedded (pages: "@ + page_list(f.pages)
            + ")"@,
        "Embed the font at compile time so the PDF travels; viewers on other machines may substitute a different face"@,
    )
}

/// The findings on the fonts from the `k`-th on: those that a page refers to and that are
/// not embedded.
pub open spec fn font_findings(fonts: Seq<FontView>, k: int) -> Seq<FindingView>
    decreases fonts.len() - k,
{
    if k < 0 || k >= fonts.len() {
        Seq::empty()
    } else if !fonts[k].embedded && fonts[k].pages.len() > 0 {
        seq![font_finding(fonts[k])] + font_findings(fonts, k + 1)
    } else {
        font_findings(fonts, k + 1)
    }
}

/// Whether the characters of a text from `a` to `b` are decimal digits.
pub open spec fn digits_between(s: Seq<char>, a: int, b: int) -> bool {
    forall|i: int| a <= i < b ==> chars::is_digit(#[trigger] s[i])
}

/// Whether a text is a time zone behind a date: nothing, `Z`, `z`, or hours and minutes
/// behind a sign, each followed by an apostrophe.
pub open spec fn is_zone(z: Seq<char>) -> bool {
    ||| z.len() == 0
    ||| z == seq!['Z']
    ||| z == seq!['z']
    ||| z.len() == 7 && (z[0] == '+' || z[0] == '-') && digits_between(z, 1, 3) && z[3] == '\''
        && digits_between(z, 4, 6) && z[6] == '\''
}

/// Whether a text is a PDF date: `D:`, 14 digits and an optional time zone.
pub open spec fn is_date(s: Seq<char>) -> bool {
    s.len() >= 16 && s[0] == 'D' && s[1] == ':' && digits_between(s, 2, 16) && is_zone(s.skip(16))
}

/// The finding on a date field, where its value is there and no date.
pub open spec fn date_finding(field: Seq<char>, value: Option<Seq<char>>) -> Seq<FindingView> {
    match value {
        Some(v) => if is_date(v) {
            Seq::empty()
        } else {
            seq![
                linter::advice(
                    "pdf"@,
                    0,
                    Severity::Warning,
                    "/"@ + field + " value `"@ + v + "` is not a valid PDF date (expected "@
                        + PDF_DATE_EXPECTED@ + ")"@,
                    "Set pdf"@ + field + " to a PDF date string like `"@ + PDF_DATE_EXPECTED@
                        + "` (e.g. via hyperref); avoid `\\today` which expands to a human date"@,
                ),
            ]
        },
        None => Seq::empty(),
    }
}

fn format_page_list(pages: &Vec<usize>) -> (r: String)
    ensures
        r@ == page_list(pages@),
{
    if pages.len() == 0 {
        return text::lit("unknown");
    }
    let ghost all = page_texts(pages@);
    let mut parts: Vec<String> = Vec::new();
    let mut k: usize = 0;
    assert(text::texts(parts@) =~= all.take(0));
    while k < pages.len()
        invariant
            k <= pages@.len(),
            all == page_texts(pages@),
            text::texts(parts@) == all.take(k as int),
        decreases pages@.len() - k,
    {
        parts.push(number::show_size(pages[k]));
        assert(all.take(k + 1) =~= all.take(k as int).push(all[k as int]));
        k = k + 1;
    }
    assert(all.take(k as int) =~= all);
    text::joined(&parts, ", ")
}

/// Warn for every font that a page refers to and that is not embedded. Descendant fonts
/// have no pages of their own: their parent covers them.
fn font_embedding_findings(fonts: &Vec<PdfFontInfo>) -> (r: Vec<LintFinding>)
    ensures
        linter::findings_view(r@) == font_findings(font_views(fonts@), 0),
{
    let ghost all = font_views(fonts@);
    let mut out: Vec<LintFinding> = Vec::new();
    let mut k: usize = 0;
    assert(linter::findings_view(out@) + font_findings(all, 0) =~= font_findings(all, 0));
    while k < fonts.len()
        invariant
            k <= fonts@.len(),
            all == font_views(fonts@),
            linter::findings_view(out@) + font_findings(all, k as int) == font_findings(all, 0),
        decreases fonts@.len() - k,
    {
        let f = &fonts[k];
        assert(all[k as int] == f@);
        if !f.embedded && f.pages.len() > 0 {
            let pages = format_page_list(&f.pages);
            let ghost done = linter::findings_view(out@);
            out.push(
                linter::advise(
                    "pdf",
                    0,
                    Severity::Warning,
                    text::cat5(
                        "font `",
                        f.name.as_str(),
                        "` is referenced but not embedded (pages: ",
                        pages.as_str(),
                        ")",
                    ),
                    text::lit(
                        "Embed the font at compile time so the PDF travels; viewers on other machines may substitute a different face",
                    ),
                ),
            );
            assert(done + (seq![font_finding(all[k as int])] + font_findings(all, k + 1))
                =~= linter::findings_view(out@) + font_findings(all, k + 1));
        }
        k = k + 1;
    }
    assert(linter::findings_view(out@) + font_findings(all, k as int) =~= linter::findings_view(
        out@,
    ));
    out
}

fn digits(s: &[char], a: usize, b: usize) -> (r: bool)
    requires
        a <= b <= s@.len(),
    ensures
        r == digits_between(s@, a as int, b as int),
{
    let mut i: usize = a;
    while i < b
        invariant
            a <= i <= b <= s@.len(),
            digits_between(s@, a as int, i as int),
        decreases b - i,
    {
        if !chars::digit(s[i]) {
            assert(!chars::is_digit(s@[i as int]));
            return false;
        }
        i = i + 1;
    }
    true
}

/// True when `value` is `D:` and 14 digits with an optional time zone: `Z`, `z` or
/// `±HH'mm'`.
pub fn is_valid_pdf_date(value: &str) -> (r: bool)
    ensures
        r == is_date(value@),
{
    let s = chars_of(value);
    if s.len() < 16 || s[0] != 'D' || s[1] != ':' || !digits(s.as_slice(), 2, 16) {
        return false;
    }
    let z = text::from(s.as_slice(), 16);
    if z.len() == 0 {
        return true;
    }
    if z.len() == 1 {
        assert(z@ =~= seq![z@[0]]);
        assert(seq!['Z'][0] == 'Z' && seq!['z'][0] == 'z');
        return z[0] == 'Z' || z[0] == 'z';
    }
    assert(z@.len() != seq!['Z'].len() && z@.len() != seq!['z'].len());
    z.len() == 7 && (z[0] == '+' || z[0] == '-') && digits(z, 1, 3) && z[3] == '\''
        && digits(z, 4, 6) && z[6] == '\''
}

fn date_findings(field: &str, value: &Option<String>) -> (r: Vec<LintFinding>)
    ensures
        linter::findings_view(r@) == date_finding(field@, text::opt_text(*value)),
{
    let mut out: Vec<LintFinding> = Vec::new();
    assert(linter::findings_view(out@) =~= Seq::<FindingView>::empty());
    if let Some(v) = value {
        if !is_valid_pdf_date(v.as_str()) {
            let mut message = text::cat5(
                "/",
                field,
                " value `",
                v.as_str(),
                "` is not a valid PDF date (expected ",
            );
            text::push(&mut message, PDF_DATE_EXPECTED);
            text::push(&mut message, ")");
            let suggestion = text::cat5(
                "Set pdf",
                field,
                " to a PDF date string like `",
                PDF_DATE_EXPECTED,
                "` (e.g. via hyperref); avoid `\\today` which expands to a human date",
            );
            let ghost done = linter::findings_view(out@);
            out.push(linter::advise("pdf", 0, Severity::Warning, message, suggestion));
            assert(linter::findings_view(out@) =~= date_finding(field@, text::opt_text(*value)));
        }
    }
    out
}

/// The findings on fonts and dates.
pub open spec fn quality(info: InfoView) -> Seq<FindingView> {
    font_findings(info.fonts, 0) + date_finding("CreationDate"@, info.metadata.creation_date)
        + date_finding("ModDate"@, info.metadata.mod_date)
}

/// Font embedding and date checks. Silent where every font that a page refers to is
/// embedded and the dates that are present have the expected shape.
pub fn quality_findings(info: &PdfInfo) -> (r: Vec<LintFinding>)
    ensures
        linter::findings_view(r@) == quality(info@),
{
    let mut out = font_embedding_findings(&info.fonts);
    linter::append(&mut out, date_findings("CreationDate", &info.metadata.creation_date));
    linter::append(&mut out, date_findings("ModDate", &info.metadata.mod_date));
    out
}

/// Pages, fonts and metadata of a PDF file.
pub fn pdf_info(doc: &PdfDocument) -> (r: Result<PdfInfo, PdfFault>)
    ensures
        match r {
            Ok(i) => pdfdoc::info(doc@) == Some(i@),
            Err(_) => pdfdoc::info(doc@) is None,
        },
{
    pdfdoc::info_from_document(doc)
}

/// Run the quality checks on a PDF file.
pub fn check_quality(doc: &PdfDocument) -> (r: Result<Vec<LintFinding>, PdfFault>)
    ensures
        match r {
            Ok(f) => pdfdoc::info(doc@) matches Some(i) && linter::findings_view(f@) == quality(i),
            Err(_) => pdfdoc::info(doc@) is None,
        },
{
    match pdf_info(doc) {
        Ok(i) => Ok(quality_findings(&i)),
        Err(f) => Err(f),
    }
}

proof fn lemma_font_findings(fonts: Seq<FontView>, k: int)
    requires
        0 <= k,
    ensures
        font_findings(fonts, k).len() == 0 <==> (forall|i: int|
            k <= i < fonts.len() ==> (#[trigger] fonts[i]).embedded || fonts[i].pages.len() == 0),
        forall|j: int|
            0 <= j < font_findings(fonts, k).len() ==> (#[trigger] font_findings(
                fonts,
                k,
            )[j]).severity == Severity::Warning,
    decreases fonts.len() - k,
{
    if k < fonts.len() {
        lemma_font_findings(fonts, k + 1);
        let rest = font_findings(fonts, k + 1);
        let all = font_findings(fonts, k);
        if !fonts[k].embedded && fonts[k].pages.len() > 0 {
            assert forall|j: int| 0 <= j < all.len() implies (#[trigger] all[j]).severity
                == Severity::Warning by {
                if j > 0 {
                    assert(all[j] == rest[j - 1]);
                }
            }
        }
    }
}

/// The quality checks are silent exactly where every font that a page refers to is
/// embedded and every date that is present is a PDF date; what they say is a warning.
pub proof fn law_quality_is_silent(info: InfoView)
    ensures
        quality(info).len() == 0 <==> {
            &&& forall|i: int|
                0 <= i < info.fonts.len() ==> (#[trigger] info.fonts[i]).embedded
                    || info.fonts[i].pages.len() == 0
            &&& info.metadata.creation_date matches Some(d) ==> is_date(d)
            &&& info.metadata.mod_date matches Some(d) ==> is_date(d)
        },
        forall|j: int|
            0 <= j < quality(info).len() ==> (#[trigger] quality(info)[j]).severity
                == Severity::Warning,
{
    lemma_font_findings(info.fonts, 0);
    let a = font_findings(info.fonts, 0);
    let b = date_finding("CreationDate"@, info.metadata.creation_date);
    assert forall|j: int| 0 <= j < quality(info).len() implies (#[trigger] quality(
        info,
    )[j]).severity == Severity::Warning by {
        if j < a.len() {
            assert(quality(info)[j] == a[j]);
        }
    }
}

// ---------------------------------------------------------------------------
// Page breaks
// ---------------------------------------------------------------------------

/// One page in the machine-readable pages report.
#[derive(Debug, Clone, PartialEq, Eq)]
pub struct PdfPageBreak {
    /// 1-based page number.
    pub page: usize,
    /// Dotted section number that opens this page, when known.
    pub section: Option<String>,
    /// Section title that opens this page, when known.
    pub title: Option<String>,
}

/// What a [`PdfPageBreak`] says.
pub struct BreakView {
    pub page: int,
    pub section: Option<Seq<char>>,
    pub title: Option<Seq<char>>,
}

impl View for PdfPageBreak {
    type V = BreakView;

    open spec fn view(&self) -> BreakView {
        BreakView {
            page: self.page as int,
            section: text::opt_text(self.section),
            title: text::opt_text(self.title),
        }
    }
}

/// What page breaks say.
pub open spec fn break_views(v: Seq<PdfPageBreak>) -> Seq<BreakView> {
    Seq::new(v.len(), |k: int| v[k]@)
}

/// What numbered titles say.
pub open spec fn section_views(v: Seq<(String, String)>) -> Seq<(Seq<char>, Seq<char>)> {
    Seq::new(v.len(), |k: int| (v[k].0@, v[k].1@))
}

/// Where the digits that stand at `i` end.
pub open spec fn past_digits(s: Seq<char>, i: int) -> int
    decreases s.len() - i,
{
    if 0 <= i < s.len() && chars::is_digit(s[i]) {
        past_digits(s, i + 1)
    } else {
        i
    }
}

/// Where the groups of digits behind dots that stand at `i` end: `.4.1` and the like, and
/// then one dot that no digit follows.
pub open spec fn past_groups(s: Seq<char>, i: int) -> int
    decreases s.len() - i,
    via past_groups_decreases
{
    if i < 0 || i >= s.len() || s[i] != '.' {
        i
    } else if i + 1 < s.len() && chars::is_digit(s[i + 1]) {
        past_groups(s, past_digits(s, i + 1))
    } else {
        i + 1
    }
}

#[via_fn]
proof fn past_groups_decreases(s: Seq<char>, i: int) {
    lemma_past_digits(s, i + 1);
}

proof fn lemma_past_digits(s: Seq<char>, i: int)
    ensures
        past_digits(s, i) >= i,
        i <= s.len() ==> past_digits(s, i) <= s.len(),
    decreases s.len() - i,
{
    if 0 <= i < s.len() && chars::is_digit(s[i]) {
        lemma_past_digits(s, i + 1);
    }
}

/// A line behind its number: groups of digits with dots between them, an optional dot,
/// and white space. `None` where the line does not begin with such a number.
pub open spec fn behind_number(line: Seq<char>) -> Option<Seq<char>> {
    let i = past_groups(line, past_digits(line, 0));
    if line.len() > 0 && chars::is_digit(line[0]) && i < line.len() && chars::is_space(line[i]) {
        Some(text::trim_start(line.skip(i)))
    } else {
        None
    }
}

/// Whether a trimmed line is the heading with the given title, with or without a number.
/// Whatever follows the title, such as the dots of a table of contents, makes it none.
pub open spec fn is_heading(line: Seq<char>, title: Seq<char>) -> bool {
    line == title || behind_number(line) == Some(title)
}

/// A title as it appears on a page.
pub open spec fn needle(title: Seq<char>) -> Seq<char> {
    text::trim(normalized(title))
}

/// Whether one of the lines is the heading with the given title.
pub open spec fn has_heading(ls: Seq<Seq<char>>, title: Seq<char>) -> bool {
    exists|k: int| 0 <= k < ls.len() && is_heading(text::trim(#[trigger] ls[k]), title)
}

/// Whether a page has a section title as a line of its own.
pub open spec fn title_in_page(page: Seq<char>, title: Seq<char>) -> bool {
    needle(title).len() > 0 && has_heading(text::lines(page), needle(title))
}

/// Whether the first of the lines, from the `k`-th on, that is not blank is the heading
/// with the given title.
pub open spec fn heading_first(ls: Seq<Seq<char>>, k: int, title: Seq<char>) -> bool
    decreases ls.len() - k,
{
    if k < 0 || k >= ls.len() {
        false
    } else if is_heading(text::trim(ls[k]), title) {
        true
    } else if text::trim(ls[k]).len() > 0 {
        false
    } else {
        heading_first(ls, k + 1, title)
    }
}

/// Whether nothing but white space stands before a section title on a page.
pub open spec fn title_opens_page(page: Seq<char>, title: Seq<char>) -> bool {
    needle(title).len() > 0 && heading_first(text::lines(page), 0, needle(title))
}

/// The first page, from the `k`-th on, with a section title.
pub open spec fn page_with(pages: Seq<Seq<char>>, k: int, title: Seq<char>) -> Option<int>
    decreases pages.len() - k,
{
    if k < 0 || k >= pages.len() {
        None
    } else if title_in_page(pages[k], title) {
        Some(k)
    } else {
        page_with(pages, k + 1, title)
    }
}

/// The sections, from the `k`-th on, that are found on a page from `from` on, each with
/// its page. A section that is not found is skipped and does not move the search.
pub open spec fn located(
    pages: Seq<Seq<char>>,
    sections: Seq<(Seq<char>, Seq<char>)>,
    k: int,
    from: int,
) -> Seq<(int, int)>
    decreases sections.len() - k,
{
    if k < 0 || k >= sections.len() {
        Seq::empty()
    } else {
        match page_with(pages, from, sections[k].1) {
            Some(p) => seq![(p, k)] + located(pages, sections, k + 1, p),
            None => located(pages, sections, k + 1, from),
        }
    }
}

/// The first located section, from the `j`-th on, that begins on a page.
pub open spec fn first_on(found: Seq<(int, int)>, j: int, page: int) -> Option<int>
    decreases found.len() - j,
{
    if j < 0 || j >= found.len() {
        None
    } else if found[j].0 == page {
        Some(found[j].1)
    } else {
        first_on(found, j + 1, page)
    }
}

/// The section that the `k`-th page belongs to at its top: the first heading on it, where
/// nothing stands before that heading or no section is known yet; else the section of the
/// page before.
pub open spec fn opener(
    pages: Seq<Seq<char>>,
    sections: Seq<(Seq<char>, Seq<char>)>,
    k: int,
) -> Option<int>
    decreases k + 1,
{
    if k < 0 || k >= pages.len() {
        None
    } else {
        let before = opener(pages, sections, k - 1);
        match first_on(located(pages, sections, 0, 0), 0, k) {
            Some(s) => if before is None || title_opens_page(pages[k], sections[s].1) {
                Some(s)
            } else {
                before
            },
            None => before,
        }
    }
}

/// The report on the `k`-th page.
pub open spec fn page_break(
    pages: Seq<Seq<char>>,
    sections: Seq<(Seq<char>, Seq<char>)>,
    k: int,
) -> BreakView {
    match opener(pages, sections, k) {
        Some(s) => BreakView {
            page: k + 1,
            section: Some(sections[s].0),
            title: Some(sections[s].1),
        },
        None => BreakView { page: k + 1, section: None, title: None },
    }
}

/// The pages as a reader sees them.
pub open spec fn normalized_pages(pages: Seq<Seq<char>>) -> Seq<Seq<char>> {
    Seq::new(pages.len(), |k: int| normalized(pages[k]))
}

fn strip_numbering_prefix(line: &[char]) -> (r: Option<&[char]>)
    ensures
        match r {
            Some(x) => behind_number(line@) == Some(x@),
            None => behind_number(line@) is None,
        },
{
    let n: usize = line.len();
    if n == 0 || !chars::digit(line[0]) {
        return None;
    }
    let mut i: usize = 0;
    while i < n && chars::digit(line[i])
        invariant
            i <= n == line@.len(),
            past_digits(line@, 0) == past_digits(line@, i as int),
        decreases n - i,
    {
        i = i + 1;
    }
    let ghost start = i as int;
    let mut more = true;
    while more && i < n && line[i] == '.'
        invariant
            i <= n == line@.len(),
            past_groups(line@, start) == if more {
                past_groups(line@, i as int)
            } else {
                i as int
            },
        decreases n - i,
    {
        if i + 1 < n && chars::digit(line[i + 1]) {
            let ghost at = i + 1;
            i = i + 1;
            while i < n && chars::digit(line[i])
                invariant
                    at <= i <= n == line@.len(),
                    past_digits(line@, at) == past_digits(line@, i as int),
                decreases n - i,
            {
                i = i + 1;
            }
        } else {
            i = i + 1;
            more = false;
        }
    }
    if i >= n || !chars::space(line[i]) {
        return None;
    }
    Some(text::trimmed_start(text::from(line, i)))
}

fn is_section_heading(line: &[char], needle: &[char]) -> (r: bool)
    ensures
        r == is_heading(line@, needle@),
{
    if text::same(line, needle) {
        return true;
    }
    match strip_numbering_prefix(line) {
        Some(rest) => text::same(rest, needle),
        None => false,
    }
}

/// True when a trimmed page line is the heading line for a title: the bare title, or the
/// title behind a number.
pub fn line_is_section_heading(line: &str, needle: &str) -> (r: bool)
    ensures
        r == is_heading(line@, needle@),
{
    let l = chars_of(line);
    let n = chars_of(needle);
    is_section_heading(l.as_slice(), n.as_slice())
}

fn section_title_in_page(page: &str, title: &str) -> (r: bool)
    ensures
        r == title_in_page(page@, title@),
{
    let shown = chars_of(normalize_pdf_text(title).as_str());
    let wanted = text::trimmed(shown.as_slice());
    if wanted.len() == 0 {
        return false;
    }
    let c = chars_of(page);
    let ls = text::lines_of(c.as_slice());
    let ghost all = text::slices(ls@);
    let mut k: usize = 0;
    while k < ls.len()
        invariant
            k <= ls@.len(),
            all == text::slices(ls@),
            all == text::lines(page@),
            wanted@ == needle(title@),
            wanted@.len() > 0,
            forall|j: int| 0 <= j < k ==> !is_heading(text::trim(#[trigger] all[j]), wanted@),
        decreases ls@.len() - k,
    {
        assert(all[k as int] == ls@[k as int]@);
        if is_section_heading(text::trimmed(ls[k]), wanted) {
            return true;
        }
        k = k + 1;
    }
    false
}

fn section_title_opens_page(page: &str, title: &str) -> (r: bool)
    ensures
        r == title_opens_page(page@, title@),
{
    let shown = chars_of(normalize_pdf_text(title).as_str());
    let wanted = text::trimmed(shown.as_slice());
    if wanted.len() == 0 {
        return false;
    }
    let c = chars_of(page);
    let ls = text::lines_of(c.as_slice());
    let ghost all = text::slices(ls@);
    let mut k: usize = 0;
    while k < ls.len()
        invariant
            k <= ls@.len(),
            all == text::slices(ls@),
            all == text::lines(page@),
            wanted@ == needle(title@),
            wanted@.len() > 0,
            heading_first(all, 0, wanted@) == heading_first(all, k as int, wanted@),
        decreases ls@.len() - k,
    {
        assert(all[k as int] == ls@[k as int]@);
        let trimmed = text::trimmed(ls[k]);
        if is_section_heading(trimmed, wanted) {
            return true;
        }
        if trimmed.len() > 0 {
            return false;
        }
        k = k + 1;
    }
    false
}

fn find_page(pages: &Vec<String>, from: usize, title: &str) -> (r: Option<usize>)
    requires
        from <= pages@.len(),
    ensures
        match r {
            Some(p) => page_with(text::texts(pages@), from as int, title@) == Some(p as int) && p
                < pages@.len(),
            None => page_with(text::texts(pages@), from as int, title@) is None,
        },
{
    let ghost all = text::texts(pages@);
    let mut k: usize = from;
    while k < pages.len()
        invariant
            from <= k <= pages@.len(),
            all == text::texts(pages@),
            page_with(all, from as int, title@) == page_with(all, k as int, title@),
        decreases pages@.len() - k,
    {
        assert(all[k as int] == pages@[k as int]@);
        if section_title_in_page(pages[k].as_str(), title) {
            return Some(k);
        }
        k = k + 1;
    }
    None
}

/// What located sections say.
spec fn pairs(v: Seq<(usize, usize)>) -> Seq<(int, int)> {
    Seq::new(v.len(), |k: int| (v[k].0 as int, v[k].1 as int))
}

fn locate(pages: &Vec<String>, sections: &Vec<(String, String)>) -> (r: Vec<(usize, usize)>)
    ensures
        pairs(r@) == located(text::texts(pages@), section_views(sections@), 0, 0),
        forall|j: int| 0 <= j < r@.len() ==> (#[trigger] r@[j]).1 < sections@.len(),
{
    let ghost all = text::texts(pages@);
    let ghost list = section_views(sections@);
    let mut out: Vec<(usize, usize)> = Vec::new();
    let mut from: usize = 0;
    let mut k: usize = 0;
    assert(pairs(out@) + located(all, list, 0, 0) =~= located(all, list, 0, 0));
    while k < sections.len()
        invariant
            k <= sections@.len(),
            from <= pages@.len(),
            all == text::texts(pages@),
            list == section_views(sections@),
            pairs(out@) + located(all, list, k as int, from as int) == located(all, list, 0, 0),
            forall|j: int| 0 <= j < out@.len() ==> (#[trigger] out@[j]).1 < sections@.len(),
        decreases sections@.len() - k,
    {
        assert(list[k as int].1 == sections@[k as int].1@);
        if let Some(p) = find_page(pages, from, sections[k].1.as_str()) {
            let ghost done = pairs(out@);
            out.push((p, k));
            assert(pairs(out@) =~= done.push((p as int, k as int)));
            assert(done + (seq![(p as int, k as int)] + located(all, list, k + 1, p as int))
                =~= pairs(out@) + located(all, list, k + 1, p as int));
            from = p;
        }
        k = k + 1;
    }
    assert(pairs(out@) + located(all, list, k as int, from as int) =~= pairs(out@));
    out
}

fn first_heading(found: &Vec<(usize, usize)>, page: usize) -> (r: Option<usize>)
    ensures
        match r {
            Some(s) => first_on(pairs(found@), 0, page as int) == Some(s as int) && (exists|j: int|
                0 <= j < found@.len() && (#[trigger] found@[j]).1 == s),
            None => first_on(pairs(found@), 0, page as int) is None,
        },
{
    let ghost all = pairs(found@);
    let mut j: usize = 0;
    while j < found.len()
        invariant
            j <= found@.len(),
            all == pairs(found@),
            first_on(all, 0, page as int) == first_on(all, j as int, page as int),
        decreases found@.len() - j,
    {
        assert(all[j as int].0 == found@[j as int].0);
        if found[j].0 == page {
            assert(found@[j as int].1 == found@[j as int].1);
            return Some(found[j].1);
        }
        j = j + 1;
    }
    None
}

/// Report which section opens each page, given the numbers and titles of the sections in
/// the order of the document.
///
/// A title belongs to a page where it is a line of its own there; a mention inside a
/// sentence and an entry of a table of contents do not count. Each section is looked for
/// from the page of the last one found, and one that is not found blocks no other.
///
/// A page is opened by the first heading on it where nothing but white space stands before
/// that heading. Else it keeps the section of the page before; where there is none, its
/// first heading opens it whatever stands before.
pub fn page_breaks(page_texts: &Vec<String>, sections: &Vec<(String, String)>) -> (r: Vec<
    PdfPageBreak,
>)
    ensures
        r@.len() == page_texts@.len(),
        forall|k: int|
            0 <= k < r@.len() ==> (#[trigger] r@[k])@ == page_break(
                normalized_pages(text::texts(page_texts@)),
                section_views(sections@),
                k,
            ),
{
    let ghost raw = text::texts(page_texts@);
    let ghost all = normalized_pages(raw);
    let ghost list = section_views(sections@);
    let mut pages: Vec<String> = Vec::new();
    let mut i: usize = 0;
    let n: usize = page_texts.len();
    while i < n
        invariant
            i <= n == page_texts@.len(),
            raw == text::texts(page_texts@),
            all == normalized_pages(raw),
            text::texts(pages@) == all.take(i as int),
        decreases n - i,
    {
        pages.push(normalize_pdf_text(page_texts[i].as_str()));
        assert(all.take(i + 1) =~= all.take(i as int).push(all[i as int]));
        i = i + 1;
    }
    assert(all.take(n as int) =~= all);
    let found = locate(&pages, sections);
    let mut out: Vec<PdfPageBreak> = Vec::new();
    let mut current: Option<usize> = None;
    let mut k: usize = 0;
    while k < n
        invariant
            k <= n == pages@.len() == page_texts@.len(),
            all == text::texts(pages@),
            list == section_views(sections@),
            pairs(found@) == located(all, list, 0, 0),
            forall|j: int| 0 <= j < found@.len() ==> (#[trigger] found@[j]).1 < sections@.len(),
            match current {
                Some(s) => opener(all, list, k - 1) == Some(s as int) && s < sections@.len(),
                None => opener(all, list, k - 1) is None,
            },
            out@.len() == k,
            forall|j: int| 0 <= j < k ==> (#[trigger] out@[j])@ == page_break(all, list, j),
        decreases n - k,
    {
        assert(all[k as int] == pages@[k as int]@);
        if let Some(s) = first_heading(&found, k) {
            assert(list[s as int] == (sections@[s as int].0@, sections@[s as int].1@));
            if current.is_none() || section_title_opens_page(
                pages[k].as_str(),
                sections[s].1.as_str(),
            ) {
                current = Some(s);
            }
        }
        let entry = match current {
            Some(s) => PdfPageBreak {
                page: k + 1,
                section: Some(text::lit(sections[s].0.as_str())),
                title: Some(text::lit(sections[s].1.as_str())),
            },
            None => PdfPageBreak { page: k + 1, section: None, title: None },
        };
        assert(entry@ == page_break(all, list, k as int));
        out.push(entry);
        k = k + 1;
    }
    out
}

/// The line of a page in the report.
pub open spec fn break_line(b: BreakView) -> Seq<char> {
    let head = "page="@ + number::decimal(b.page as nat);
    match (b.section, b.title) {
        (Some(n), Some(t)) => head + " section="@ + n + " title="@ + t,
        _ => head + " section= title="@,
    }
}

/// Format page breaks for diff-friendly output: one line per page.
pub fn format_page_breaks(breaks: &Vec<PdfPageBreak>) -> (r: String)
    ensures
        r@ == text::join(
            Seq::new(breaks@.len(), |k: int| break_line(break_views(breaks@)[k])),
            "\n"@,
        ),
{
    let ghost all = Seq::new(breaks@.len(), |k: int| break_line(break_views(breaks@)[k]));
    let mut lines: Vec<String> = Vec::new();
    let mut k: usize = 0;
    assert(text::texts(lines@) =~= all.take(0));
    while k < breaks.len()
        invariant
            k <= breaks@.len(),
            all == Seq::new(breaks@.len(), |k: int| break_line(break_views(breaks@)[k])),
            text::texts(lines@) == all.take(k as int),
        decreases breaks@.len() - k,
    {
        let b = &breaks[k];
        assert(break_views(breaks@)[k as int] == b@);
        let mut line = text::cat2("page=", number::show_size(b.page).as_str());
        match (&b.section, &b.title) {
            (Some(n), Some(t)) => {
                text::push(&mut line, " section=");
                text::push(&mut line, n.as_str());
                text::push(&mut line, " title=");
                text::push(&mut line, t.as_str());
            },
            _ => {
                text::push(&mut line, " section= title=");
            },
        }
        assert(line@ == all[k as int]);
        lines.push(line);
        assert(all.take(k + 1) =~= all.take(k as int).push(all[k as int]));
        k = k + 1;
    }
    assert(all.take(k as int) =~= all);
    text::joined(&lines, "\n")
}

proof fn lemma_page_with(pages: Seq<Seq<char>>, k: int, title: Seq<char>)
    ensures
        page_with(pages, k, title) matches Some(p) ==> k <= p < pages.len() && title_in_page(
            pages[p],
            title,
        ),
    decreases pages.len() - k,
{
    if 0 <= k < pages.len() && !title_in_page(pages[k], title) {
        lemma_page_with(pages, k + 1, title);
    }
}

spec fn is_found(
    pages: Seq<Seq<char>>,
    sections: Seq<(Seq<char>, Seq<char>)>,
    k: int,
    from: int,
    m: (int, int),
) -> bool {
    from <= m.0 < pages.len() && k <= m.1 < sections.len() && title_in_page(
        pages[m.0],
        sections[m.1].1,
    )
}

proof fn lemma_located(
    pages: Seq<Seq<char>>,
    sections: Seq<(Seq<char>, Seq<char>)>,
    k: int,
    from: int,
)
    requires
        0 <= k,
        0 <= from,
    ensures
        forall|j: int|
            0 <= j < located(pages, sections, k, from).len() ==> is_found(
                pages,
                sections,
                k,
                from,
                #[trigger] located(pages, sections, k, from)[j],
            ),
        forall|i: int, j: int|
            0 <= i < j < located(pages, sections, k, from).len() ==> (#[trigger] located(
                pages,
                sections,
                k,
                from,
            )[i]).0 <= (#[trigger] located(pages, sections, k, from)[j]).0,
    decreases sections.len() - k,
{
    if k < sections.len() {
        lemma_page_with(pages, from, sections[k].1);
        match page_with(pages, from, sections[k].1) {
            Some(p) => {
                lemma_located(pages, sections, k + 1, p);
                let rest = located(pages, sections, k + 1, p);
                let all = located(pages, sections, k, from);
                assert(all[0] == (p, k));
                assert forall|j: int| 0 <= j < all.len() implies is_found(
                    pages,
                    sections,
                    k,
                    from,
                    #[trigger] all[j],
                ) by {
                    if j > 0 {
                        assert(all[j] == rest[j - 1]);
                    }
                }
                assert forall|i: int, j: int| 0 <= i < j < all.len() implies (#[trigger] all[i]).0
                    <= (#[trigger] all[j]).0 by {
                    assert(all[j] == rest[j - 1]);
                    if i > 0 {
                        assert(all[i] == rest[i - 1]);
                    }
                }
            },
            None => {
                lemma_located(pages, sections, k + 1, from);
                let rest = located(pages, sections, k + 1, from);
                let all = located(pages, sections, k, from);
                assert(all == rest);
                assert forall|j: int| 0 <= j < all.len() implies is_found(
                    pages,
                    sections,
                    k,
                    from,
                    #[trigger] all[j],
                ) by {
                    assert(is_found(pages, sections, k + 1, from, rest[j]));
                }
            },
        }
    }
}

proof fn lemma_located_ascends(
    pages: Seq<Seq<char>>,
    sections: Seq<(Seq<char>, Seq<char>)>,
    k: int,
    from: int,
)
    requires
        0 <= k,
        0 <= from,
    ensures
        forall|i: int, j: int|
            0 <= i < j < located(pages, sections, k, from).len() ==> (#[trigger] located(
                pages,
                sections,
                k,
                from,
            )[i]).1 < (#[trigger] located(pages, sections, k, from)[j]).1,
    decreases sections.len() - k,
{
    if k < sections.len() {
        lemma_page_with(pages, from, sections[k].1);
        match page_with(pages, from, sections[k].1) {
            Some(p) => {
                lemma_located_ascends(pages, sections, k + 1, p);
                lemma_located(pages, sections, k + 1, p);
                let rest = located(pages, sections, k + 1, p);
                let all = located(pages, sections, k, from);
                assert(all[0] == (p, k));
                assert forall|i: int, j: int| 0 <= i < j < all.len() implies (#[trigger] all[i]).1
                    < (#[trigger] all[j]).1 by {
                    assert(all[j] == rest[j - 1]);
                    assert(is_found(pages, sections, k + 1, p, rest[j - 1]));
                    if i > 0 {
                        assert(all[i] == rest[i - 1]);
                    }
                }
            },
            None => {
                lemma_located_ascends(pages, sections, k + 1, from);
                let rest = located(pages, sections, k + 1, from);
                let all = located(pages, sections, k, from);
                assert(all == rest);
                assert forall|i: int, j: int| 0 <= i < j < all.len() implies (#[trigger] all[i]).1
                    < (#[trigger] all[j]).1 by {
                    assert(rest[i].1 < rest[j].1);
                }
            },
        }
    }
}

/// The pages on which sections are found never decrease: of two sections, the later one in
/// the document is found on the same page as the earlier one or on a later page.
pub proof fn law_found_pages_never_decrease(
    pages: Seq<Seq<char>>,
    sections: Seq<(Seq<char>, Seq<char>)>,
)
    ensures
        forall|i: int, j: int|
            0 <= i < j < located(pages, sections, 0, 0).len() ==> (#[trigger] located(
                pages,
                sections,
                0,
                0,
            )[i]).0 <= (#[trigger] located(pages, sections, 0, 0)[j]).0 && located(
                pages,
                sections,
                0,
                0,
            )[i].1 < located(pages, sections, 0, 0)[j].1,
{
    lemma_located(pages, sections, 0, 0);
    lemma_located_ascends(pages, sections, 0, 0);
}

/// The sections are found on pages in the order of the document, and each has its title
/// as a line of its own on its page.
pub proof fn law_sections_are_found_in_order(
    pages: Seq<Seq<char>>,
    sections: Seq<(Seq<char>, Seq<char>)>,
    i: int,
    j: int,
)
    requires
        0 <= i < j < located(pages, sections, 0, 0).len(),
    ensures
        located(pages, sections, 0, 0)[i].0 <= located(pages, sections, 0, 0)[j].0,
        title_in_page(
            pages[located(pages, sections, 0, 0)[j].0],
            sections[located(pages, sections, 0, 0)[j].1].1,
        ),
{
    lemma_located(pages, sections, 0, 0);
}

proof fn lemma_first_on(found: Seq<(int, int)>, j: int, page: int)
    requires
        0 <= j,
    ensures
        first_on(found, j, page) matches Some(s) ==> exists|i: int|
            j <= i < found.len() && #[trigger] found[i] == (page, s),
    decreases found.len() - j,
{
    if j < found.len() {
        if found[j].0 == page {
            assert(found[j] == (page, found[j].1));
        } else {
            lemma_first_on(found, j + 1, page);
        }
    }
}

/// A page is attributed only to a section whose title is a line of its own on that page
/// or on one before it; and once a page has a section, every later one has.
pub proof fn law_pages_carry_over(
    pages: Seq<Seq<char>>,
    sections: Seq<(Seq<char>, Seq<char>)>,
    k: int,
)
    requires
        0 <= k < pages.len(),
    ensures
        opener(pages, sections, k) matches Some(s) ==> 0 <= s < sections.len() && (exists|p: int|
            0 <= p <= k && title_in_page(#[trigger] pages[p], sections[s].1)),
        opener(pages, sections, k - 1) is Some ==> opener(pages, sections, k) is Some,
    decreases k,
{
    let found = located(pages, sections, 0, 0);
    if k > 0 {
        law_pages_carry_over(pages, sections, k - 1);
    }
    lemma_first_on(found, 0, k);
    lemma_located(pages, sections, 0, 0);
    match first_on(found, 0, k) {
        Some(s) => {
            let i = choose|i: int| 0 <= i < found.len() && #[trigger] found[i] == (k, s);
            assert(title_in_page(pages[found[i].0], sections[found[i].1].1));
        },
        None => {},
    }
}

/// The section of a page was found on that page or on one before it.
proof fn lemma_opener_found(pages: Seq<Seq<char>>, sections: Seq<(Seq<char>, Seq<char>)>, k: int)
    ensures
        opener(pages, sections, k) matches Some(s) ==> exists|i: int|
            0 <= i < located(pages, sections, 0, 0).len() && (#[trigger] located(
                pages,
                sections,
                0,
                0,
            )[i]).1 == s && located(pages, sections, 0, 0)[i].0 <= k,
    decreases k + 1,
{
    if 0 <= k < pages.len() {
        let found = located(pages, sections, 0, 0);
        lemma_opener_found(pages, sections, k - 1);
        lemma_first_on(found, 0, k);
        if let Some(s) = first_on(found, 0, k) {
            let i = choose|i: int| 0 <= i < found.len() && #[trigger] found[i] == (k, s);
            assert(found[i].1 == s && found[i].0 <= k);
        }
        if let Some(s) = opener(pages, sections, k - 1) {
            let i = choose|i: int|
                0 <= i < found.len() && (#[trigger] found[i]).1 == s && found[i].0 <= k - 1;
            assert(found[i].1 == s && found[i].0 <= k);
        }
    }
}

/// Pages are attributed to sections in the order of the document: a later page never
/// belongs to an earlier section.
pub proof fn law_sections_of_pages_ascend(
    pages: Seq<Seq<char>>,
    sections: Seq<(Seq<char>, Seq<char>)>,
    j: int,
    k: int,
)
    requires
        0 <= j <= k < pages.len(),
        opener(pages, sections, j) is Some,
    ensures
        opener(pages, sections, k) is Some,
        opener(pages, sections, j)->0 <= opener(pages, sections, k)->0,
    decreases k - j,
{
    if j < k {
        let found = located(pages, sections, 0, 0);
        law_sections_of_pages_ascend(pages, sections, j, k - 1);
        law_found_pages_never_decrease(pages, sections);
        lemma_opener_found(pages, sections, k - 1);
        lemma_first_on(found, 0, k);
        if let Some(s) = first_on(found, 0, k) {
            let before = opener(pages, sections, k - 1)->0;
            let a = choose|i: int|
                0 <= i < found.len() && (#[trigger] found[i]).1 == before && found[i].0 <= k - 1;
            let b = choose|i: int| 0 <= i < found.len() && #[trigger] found[i] == (k, s);
            assert(a < b) by {
                if b < a {
                    assert(found[b].0 <= found[a].0);
                }
            }
            assert(found[a].1 < found[b].1);
        }
    }
}

/// Where a section stands when the `j`-th one is left out.
spec fn moved(s: int, j: int) -> int {
    if s > j {
        s - 1
    } else {
        s
    }
}

spec fn all_moved(found: Seq<(int, int)>, j: int) -> Seq<(int, int)> {
    Seq::new(found.len(), |i: int| (found[i].0, moved(found[i].1, j)))
}

proof fn lemma_page_without(pages: Seq<Seq<char>>, k: int, title: Seq<char>)
    requires
        0 <= k,
        forall|p: int| 0 <= p < pages.len() ==> !title_in_page(#[trigger] pages[p], title),
    ensures
        page_with(pages, k, title) is None,
    decreases pages.len() - k,
{
    if k < pages.len() {
        assert(!title_in_page(pages[k], title));
        lemma_page_without(pages, k + 1, title);
    }
}

proof fn lemma_page_with_bounds(pages: Seq<Seq<char>>, k: int, title: Seq<char>)
    ensures
        page_with(pages, k, title) matches Some(p) ==> 0 <= k <= p < pages.len(),
    decreases pages.len() - k,
{
    if 0 <= k < pages.len() && !title_in_page(pages[k], title) {
        lemma_page_with_bounds(pages, k + 1, title);
    }
}

proof fn lemma_located_without(
    pages: Seq<Seq<char>>,
    sections: Seq<(Seq<char>, Seq<char>)>,
    j: int,
    k: int,
    from: int,
)
    requires
        0 <= j < sections.len(),
        0 <= k <= sections.len(),
        0 <= from,
        forall|p: int|
            0 <= p < pages.len() ==> !title_in_page(#[trigger] pages[p], sections[j].1),
    ensures
        located(pages, sections.remove(j), moved(k, j), from) == all_moved(
            located(pages, sections, k, from),
            j,
        ),
        forall|i: int|
            0 <= i < located(pages, sections, k, from).len() ==> 0 <= (#[trigger] located(
                pages,
                sections,
                k,
                from,
            )[i]).1 < sections.len() && located(pages, sections, k, from)[i].1 != j,
    decreases sections.len() - k,
{
    let t = sections.remove(j);
    let all = located(pages, sections, k, from);
    if k == sections.len() {
        assert(located(pages, t, moved(k, j), from) =~= all_moved(all, j));
    } else if k == j {
        lemma_page_without(pages, from, sections[j].1);
        lemma_located_without(pages, sections, j, k + 1, from);
    } else {
        assert(t[moved(k, j)] == sections[k]);
        lemma_page_with_bounds(pages, from, sections[k].1);
        match page_with(pages, from, sections[k].1) {
            Some(p) => {
                lemma_located_without(pages, sections, j, k + 1, p);
                let rest = located(pages, sections, k + 1, p);
                assert(moved(k + 1, j) == moved(k, j) + 1);
                assert(all_moved(all, j) =~= seq![(p, moved(k, j))] + all_moved(rest, j));
                assert forall|i: int| 0 <= i < all.len() implies 0 <= (#[trigger] all[i]).1
                    < sections.len() && all[i].1 != j by {
                    if i > 0 {
                        assert(all[i] == rest[i - 1]);
                    }
                }
            },
            None => {
                lemma_located_without(pages, sections, j, k + 1, from);
                assert(moved(k + 1, j) == moved(k, j) + 1);
            },
        }
    }
}

proof fn lemma_first_on_moved(found: Seq<(int, int)>, i: int, page: int, j: int)
    requires
        0 <= i,
    ensures
        first_on(all_moved(found, j), i, page) == match first_on(found, i, page) {
            Some(s) => Some(moved(s, j)),
            None => None,
        },
    decreases found.len() - i,
{
    if i < found.len() {
        lemma_first_on_moved(found, i + 1, page, j);
    }
}

proof fn lemma_opener_without(
    pages: Seq<Seq<char>>,
    sections: Seq<(Seq<char>, Seq<char>)>,
    j: int,
    k: int,
)
    requires
        0 <= j < sections.len(),
        forall|p: int|
            0 <= p < pages.len() ==> !title_in_page(#[trigger] pages[p], sections[j].1),
    ensures
        opener(pages, sections.remove(j), k) == match opener(pages, sections, k) {
            Some(s) => Some(moved(s, j)),
            None => None,
        },
        opener(pages, sections, k) matches Some(s) ==> 0 <= s < sections.len() && s != j,
    decreases k + 1,
{
    if 0 <= k < pages.len() {
        let found = located(pages, sections, 0, 0);
        lemma_opener_without(pages, sections, j, k - 1);
        lemma_located_without(pages, sections, j, 0, 0);
        assert(moved(0, j) == 0);
        lemma_first_on_moved(found, 0, k, j);
        lemma_first_on(found, 0, k);
        if let Some(s) = first_on(found, 0, k) {
            let i = choose|i: int| 0 <= i < found.len() && #[trigger] found[i] == (k, s);
            assert(found[i].1 == s);
            assert(sections.remove(j)[moved(s, j)] == sections[s]);
        }
    }
}

/// A section whose title is a line of its own on no page blocks nothing: leaving it out
/// changes the report on no page.
pub proof fn law_unmatched_sections_are_skipped(
    pages: Seq<Seq<char>>,
    sections: Seq<(Seq<char>, Seq<char>)>,
    j: int,
    k: int,
)
    requires
        0 <= j < sections.len(),
        forall|p: int|
            0 <= p < pages.len() ==> !title_in_page(#[trigger] pages[p], sections[j].1),
    ensures
        page_break(pages, sections.remove(j), k) == page_break(pages, sections, k),
{
    lemma_opener_without(pages, sections, j, k);
    if let Some(s) = opener(pages, sections, k) {
        assert(sections.remove(j)[moved(s, j)] == sections[s]);
    }
}

} // verus!
