//! Word counts of a document.
//!
//! A word is a maximal run of characters other than white space with at least one
//! alphabetic character: `Introduccion` counts, `50` does not, and `fig:cap` does.
//!
//! Only prose is counted: body text, section titles, and the prose arguments of
//! commands. What comes before `\begin{document}` is not counted, and what comes between
//! it and the first section belongs to no section. The files of a document are one
//! stream, in the order in which `\input` reaches them. Counts stop at the largest
//! number that a size can hold.

use vstd::prelude::*;

use crate::chars;
use crate::number;
use crate::paths;
use crate::text::{self, chars_of};
use crate::texparse::{self, Token, TokenView, TokenizedFile};

verus! {

/// A count within the sizes of the machine.
pub open spec fn capped(n: nat) -> nat {
    if n <= usize::MAX {
        n
    } else {
        usize::MAX as nat
    }
}

pub(crate) fn saturating(a: usize, b: usize) -> (r: usize)
    ensures
        r == capped((a + b) as nat),
{
    if a <= usize::MAX - b {
        a + b
    } else {
        usize::MAX
    }
}

/// Whether a run of characters has an alphabetic character.
pub open spec fn is_word(w: Seq<char>) -> bool {
    exists|i: int| 0 <= i < w.len() && chars::alphabetic(#[trigger] w[i])
}

/// The number of words among the runs from the `k`-th on.
pub open spec fn words_from(runs: Seq<Seq<char>>, k: int) -> nat
    decreases runs.len() - k,
{
    if k < 0 || k >= runs.len() {
        0
    } else if is_word(runs[k]) {
        1 + words_from(runs, k + 1)
    } else {
        words_from(runs, k + 1)
    }
}

/// The number of words in a text.
pub open spec fn word_count(t: Seq<char>) -> nat {
    words_from(text::words(t), 0)
}

pub(crate) fn has_letter(w: &[char]) -> (r: bool)
    ensures
        r == is_word(w@),
{
    let mut i: usize = 0;
    while i < w.len()
        invariant
            i <= w@.len(),
            forall|j: int| 0 <= j < i ==> !chars::alphabetic(#[trigger] w@[j]),
        decreases w@.len() - i,
    {
        if w[i].is_alphabetic() {
            return true;
        }
        i = i + 1;
    }
    false
}

/// Count the words in a text run.
pub fn count_words(t: &str) -> (r: usize)
    ensures
        r == word_count(t@),
{
    let c = chars_of(t);
    let runs = text::words_of(c.as_slice());
    let ghost all = text::slices(runs@);
    let mut n: usize = 0;
    let mut k: usize = 0;
    while k < runs.len()
        invariant
            k <= runs@.len(),
            n <= k,
            all == text::slices(runs@),
            n + words_from(all, k as int) == words_from(all, 0),
        decreases runs@.len() - k,
    {
        assert(all[k as int] == runs@[k as int]@);
        if has_letter(runs[k]) {
            n = n + 1;
        }
        k = k + 1;
    }
    n
}

/// The number of words in the prose of the tokens from the `k`-th on.
pub open spec fn prose_words(tokens: Seq<TokenView>, k: int) -> nat
    decreases tokens.len() - k,
{
    if k < 0 || k >= tokens.len() {
        0
    } else {
        match tokens[k] {
            TokenView::Text(t) => word_count(t) + prose_words(tokens, k + 1),
            _ => prose_words(tokens, k + 1),
        }
    }
}

/// The number of words in a section title, math and commands aside.
pub open spec fn title_words(title: Seq<char>) -> nat {
    prose_words(texparse::tokens_of(title), 0)
}

/// Count the words of a section title after tokenizing it, so that math and commands
/// inside the title do not count.
pub fn count_title_words(title: &str) -> (r: usize)
    ensures
        r == capped(title_words(title@)),
{
    let tokens = texparse::tokenize(title);
    let ghost all = texparse::token_views(tokens@);
    let ghost mut sum: nat = 0;
    let mut n: usize = 0;
    let mut k: usize = 0;
    while k < tokens.len()
        invariant
            k <= tokens@.len(),
            all == texparse::token_views(tokens@),
            n == capped(sum),
            sum + prose_words(all, k as int) == prose_words(all, 0),
        decreases tokens@.len() - k,
    {
        assert(all[k as int] == tokens@[k as int]@);
        if let Token::Text(t) = &tokens[k] {
            let words = count_words(t.as_str());
            n = saturating(n, words);
            proof {
                sum = sum + word_count(t@);
            }
        }
        k = k + 1;
    }
    n
}

// ---------------------------------------------------------------------------
// Section numbers
// ---------------------------------------------------------------------------

/// Produces dotted section numbers such as `1`, `1.1` and `2.1.1`: one counter per level.
/// Entering a level bumps its counter and resets every deeper one. Leading zeros are
/// dropped, so a document with sections only numbers them `1`, `2`, and so on.
pub struct SectionTracker {
    counters: Vec<usize>,
}

/// What counters say.
pub open spec fn counts(v: Seq<usize>) -> Seq<nat> {
    Seq::new(v.len(), |k: int| v[k] as nat)
}

impl View for SectionTracker {
    type V = Seq<nat>;

    closed spec fn view(&self) -> Seq<nat> {
        counts(self.counters@)
    }
}

/// The counters after a section of the given level.
pub open spec fn entered(c: Seq<nat>, level: int) -> Seq<nat> {
    Seq::new(
        c.len(),
        |i: int|
            if i < level {
                c[i]
            } else if i == level {
                capped(c[i] + 1)
            } else {
                0
            },
    )
}

/// The first counter from the `k`-th on that is not zero, at most the `last`-th.
pub open spec fn first_used(c: Seq<nat>, k: int, last: int) -> int
    decreases last - k,
{
    if k >= last || c[k] != 0 {
        k
    } else {
        first_used(c, k + 1, last)
    }
}

/// Counters in decimal notation.
pub open spec fn decimals(c: Seq<nat>) -> Seq<Seq<char>> {
    Seq::new(c.len(), |k: int| number::decimal(c[k]))
}

/// The dotted number of a section of the given level.
pub open spec fn dotted(c: Seq<nat>, level: int) -> Seq<char> {
    text::join(decimals(c.subrange(first_used(c, 0, level), level + 1)), "."@)
}

impl SectionTracker {
    /// A tracker for the levels up to `max_level`.
    pub fn new(max_level: u8) -> (r: SectionTracker)
        ensures
            r@ == Seq::new((max_level + 1) as nat, |k: int| 0nat),
    {
        let mut counters: Vec<usize> = Vec::new();
        let mut i: u16 = 0;
        let n: u16 = max_level as u16 + 1;
        while i < n
            invariant
                i <= n,
                counters@.len() == i,
                forall|k: int| 0 <= k < i ==> counters@[k] == 0,
            decreases n - i,
        {
            counters.push(0);
            i = i + 1;
        }
        let r = SectionTracker { counters };
        assert(r@ =~= Seq::new((max_level + 1) as nat, |k: int| 0nat));
        r
    }

    /// Enter a section, returning its dotted number.
    pub fn enter(&mut self, level: u8) -> (r: String)
        requires
            level < old(self)@.len(),
        ensures
            final(self)@ == entered(old(self)@, level as int),
            r@ == dotted(final(self)@, level as int),
    {
        broadcast use text::lemma_texts_push;

        let ghost before = self@;
        let l: usize = level as usize;
        let bumped = saturating(self.counters[l], 1);
        self.counters.set(l, bumped);
        let n: usize = self.counters.len();
        let mut i: usize = l + 1;
        while i < n
            invariant
                l < i <= n == self.counters@.len(),
                before.len() == n,
                forall|k: int| 0 <= k < l ==> self.counters@[k] == before[k],
                self.counters@[l as int] == capped(before[l as int] + 1),
                forall|k: int| l < k < i ==> self.counters@[k] == 0,
            decreases n - i,
        {
            self.counters.set(i, 0);
            i = i + 1;
        }
        assert(self@ =~= entered(before, level as int));
        let ghost c = self@;
        let mut start: usize = 0;
        while start < l && self.counters[start] == 0
            invariant
                start <= l < n == self.counters@.len(),
                c == counts(self.counters@),
                first_used(c, 0, l as int) == first_used(c, start as int, l as int),
            decreases l - start,
        {
            start = start + 1;
        }
        let mut parts: Vec<String> = Vec::new();
        let mut k: usize = start;
        let ghost used = decimals(c.subrange(start as int, l + 1));
        assert(text::texts(parts@) =~= used.take(0));
        while k <= l
            invariant
                start <= k <= l + 1 <= n == self.counters@.len(),
                c == counts(self.counters@),
                used == decimals(c.subrange(start as int, l + 1)),
                text::texts(parts@) == used.take(k - start),
            decreases l + 1 - k,
        {
            assert(used.take(k + 1 - start) =~= used.take(k - start).push(used[k - start]));
            parts.push(number::show_size(self.counters[k]));
            k = k + 1;
        }
        assert(used.take(k - start) =~= used);
        text::joined(&parts, ".")
    }
}

pub proof fn lemma_first_used(c: Seq<nat>, k: int, last: int)
    requires
        0 <= k <= last,
    ensures
        k <= first_used(c, k, last) <= last,
        first_used(c, k, last) < last ==> c[first_used(c, k, last)] != 0,
        forall|i: int| k <= i < first_used(c, k, last) ==> c[i] == 0,
    decreases last - k,
{
    if k < last && c[k] == 0 {
        lemma_first_used(c, k + 1, last);
    }
}

/// A section number never begins with a zero: its first counter is at least 1.
pub proof fn law_number_begins_above_zero(c: Seq<nat>, level: int)
    requires
        0 <= level < c.len(),
    ensures
        ({
            let d = entered(c, level);
            d[first_used(d, 0, level)] > 0
        }),
{
    lemma_first_used(entered(c, level), 0, level);
}

/// Entering a level twice gives the next number of that level, under the same numbers
/// above it, and every level below starts anew.
pub proof fn law_siblings_count_up(c: Seq<nat>, level: int)
    requires
        0 <= level < c.len(),
    ensures
        ({
            let a = entered(c, level);
            let b = entered(a, level);
            b[level] == capped(a[level] + 1) && (forall|i: int|
                0 <= i < level ==> a[i] == c[i] && b[i] == c[i]) && (forall|i: int|
                level < i < c.len() ==> a[i] == 0)
        }),
{
}

// ---------------------------------------------------------------------------
// Counting
// ---------------------------------------------------------------------------

/// A section and its words.
pub struct SectionCount {
    pub level: u8,
    pub number: Seq<char>,
    pub title: Seq<char>,
    pub words: nat,
}

/// The counter on its way: whether the document has begun, the section counters, the
/// words before the first section, the sections, and the words of the present file.
#[verifier::ext_equal]
pub struct Counter {
    pub in_document: bool,
    pub counters: Seq<nat>,
    pub preamble: nat,
    pub sections: Seq<SectionCount>,
    pub here: nat,
}

/// The counter at the start.
pub open spec fn count_start() -> Counter {
    Counter {
        in_document: false,
        counters: Seq::new(7, |k: int| 0nat),
        preamble: 0,
        sections: Seq::empty(),
        here: 0,
    }
}

/// A section with more words.
pub open spec fn with_words(s: SectionCount, n: nat) -> SectionCount {
    SectionCount { words: s.words + n, ..s }
}

/// The counter after a token. Prose belongs to the last section, or to the words before
/// the first one.
pub open spec fn counted(c: Counter, t: TokenView) -> Counter {
    match t {
        TokenView::BeginDocument => Counter { in_document: true, ..c },
        TokenView::Section { level, title } => if c.in_document && level < 7 {
            let counters = entered(c.counters, level as int);
            Counter {
                counters,
                sections: c.sections.push(
                    SectionCount {
                        level,
                        number: dotted(counters, level as int),
                        title,
                        words: title_words(title),
                    },
                ),
                here: c.here + title_words(title),
                ..c
            }
        } else {
            c
        },
        TokenView::Text(x) => if !c.in_document {
            c
        } else if c.sections.len() > 0 {
            Counter {
                sections: c.sections.update(
                    c.sections.len() - 1,
                    with_words(c.sections.last(), word_count(x)),
                ),
                here: c.here + word_count(x),
                ..c
            }
        } else {
            Counter { preamble: c.preamble + word_count(x), here: c.here + word_count(x), ..c }
        },
        _ => c,
    }
}

/// The counter after the first `k` tokens of a file.
pub open spec fn counted_tokens(c: Counter, tokens: Seq<TokenView>, k: int) -> Counter
    decreases k,
{
    if k <= 0 || k > tokens.len() {
        c
    } else {
        counted(counted_tokens(c, tokens, k - 1), tokens[k - 1])
    }
}

/// The counter after the first `k` files.
pub open spec fn counted_files(files: Seq<(Seq<char>, Seq<TokenView>)>, k: int) -> Counter
    decreases k,
{
    if k <= 0 || k > files.len() {
        count_start()
    } else {
        let c = counted_files(files, k - 1);
        counted_tokens(Counter { here: 0, ..c }, files[k - 1].1, files[k - 1].1.len() as int)
    }
}

/// The words of each of the first `k` files.
pub open spec fn file_words(files: Seq<(Seq<char>, Seq<TokenView>)>, k: int) -> Seq<nat>
    decreases k,
{
    if k <= 0 || k > files.len() {
        Seq::empty()
    } else {
        file_words(files, k - 1).push(counted_files(files, k).here)
    }
}

/// The sum of the words of sections.
pub open spec fn section_sum(s: Seq<SectionCount>) -> nat
    decreases s.len(),
{
    if s.len() == 0 {
        0
    } else {
        section_sum(s.drop_last()) + s.last().words
    }
}

/// The sum of numbers.
pub open spec fn sum(s: Seq<nat>) -> nat
    decreases s.len(),
{
    if s.len() == 0 {
        0
    } else {
        sum(s.drop_last()) + s.last()
    }
}

proof fn lemma_counted_sum(c: Counter, t: TokenView)
    ensures
        ({
            let d = counted(c, t);
            d.preamble + section_sum(d.sections) + c.here == c.preamble + section_sum(c.sections)
                + d.here
        }),
{
    let d = counted(c, t);
    match t {
        TokenView::Section { level, title } => {
            if c.in_document && level < 7 {
                assert(d.sections.drop_last() =~= c.sections);
            }
        },
        TokenView::Text(x) => {
            if c.in_document && c.sections.len() > 0 {
                assert(d.sections.drop_last() =~= c.sections.drop_last());
            }
        },
        _ => {},
    }
}

proof fn lemma_tokens_sum(c: Counter, tokens: Seq<TokenView>, k: int)
    ensures
        ({
            let d = counted_tokens(c, tokens, k);
            d.preamble + section_sum(d.sections) + c.here == c.preamble + section_sum(c.sections)
                + d.here
        }),
    decreases k,
{
    if 0 < k <= tokens.len() {
        lemma_tokens_sum(c, tokens, k - 1);
        lemma_counted_sum(counted_tokens(c, tokens, k - 1), tokens[k - 1]);
    }
}

/// The words of the files add up to the words of the sections and those before the
/// first one: counting by file and by section gives the same total.
pub proof fn law_totals_agree(files: Seq<(Seq<char>, Seq<TokenView>)>, k: int)
    requires
        0 <= k <= files.len(),
    ensures
        sum(file_words(files, k)) == counted_files(files, k).preamble + section_sum(
            counted_files(files, k).sections,
        ),
    decreases k,
{
    if k > 0 {
        law_totals_agree(files, k - 1);
        let c = counted_files(files, k - 1);
        lemma_tokens_sum(Counter { here: 0, ..c }, files[k - 1].1, files[k - 1].1.len() as int);
        assert(file_words(files, k).drop_last() =~= file_words(files, k - 1));
    }
}

/// One counted section, or one file when counting by file.
#[derive(Debug, Clone, PartialEq, Eq)]
pub struct SectionStat {
    /// Dotted section number, or the file name when counting by file.
    pub path: String,
    /// Section level.
    pub level: Option<u8>,
    /// Raw section title.
    pub title: Option<String>,
    pub words: usize,
}

/// What a [`SectionStat`] says.
pub struct StatView {
    pub path: Seq<char>,
    pub level: Option<u8>,
    pub title: Option<Seq<char>>,
    pub words: nat,
}

impl View for SectionStat {
    type V = StatView;

    open spec fn view(&self) -> StatView {
        StatView {
            path: self.path@,
            level: self.level,
            title: text::opt_text(self.title),
            words: self.words as nat,
        }
    }
}

/// What a sequence of statistics says.
pub open spec fn stat_views(v: Seq<SectionStat>) -> Seq<StatView> {
    Seq::new(v.len(), |k: int| v[k]@)
}

/// Complete statistics for a document.
#[derive(Debug, Clone, PartialEq, Eq)]
pub struct DocumentStats {
    pub document: String,
    /// All counted words.
    pub total_words: usize,
    /// Number of `.tex` files scanned.
    pub file_count: usize,
    /// Words between `\begin{document}` and the first section.
    pub preamble_words: usize,
    /// Breakdown by section or by file.
    pub sections: Vec<SectionStat>,
}

/// The statistics of sections.
pub open spec fn section_stats(s: Seq<SectionCount>) -> Seq<StatView> {
    Seq::new(
        s.len(),
        |k: int|
            StatView {
                path: s[k].number,
                level: Some(s[k].level),
                title: Some(s[k].title),
                words: capped(s[k].words),
            },
    )
}

/// The name of a file, empty where its path has none.
pub open spec fn name_of(path: Seq<char>) -> Seq<char> {
    match paths::file_name(path) {
        Some(n) => n,
        None => Seq::empty(),
    }
}

/// The statistics of files.
pub open spec fn file_stats(files: Seq<(Seq<char>, Seq<TokenView>)>, words: Seq<nat>) -> Seq<
    StatView,
> {
    Seq::new(
        files.len(),
        |k: int|
            StatView {
                path: name_of(files[k].0),
                level: None,
                title: None,
                words: capped(words[k]),
            },
    )
}

/// The sum of the words in statistics.
pub open spec fn stat_sum(s: Seq<StatView>) -> nat
    decreases s.len(),
{
    if s.len() == 0 {
        0
    } else {
        stat_sum(s.drop_last()) + s.last().words
    }
}

proof fn lemma_file_words_len(files: Seq<(Seq<char>, Seq<TokenView>)>, k: int)
    requires
        0 <= k <= files.len(),
    ensures
        file_words(files, k).len() == k,
    decreases k,
{
    if k > 0 {
        lemma_file_words_len(files, k - 1);
    }
}

proof fn lemma_stats_add_up(files: Seq<(Seq<char>, Seq<TokenView>)>, w: Seq<nat>, k: int)
    requires
        0 <= k <= files.len() == w.len(),
        sum(w.take(k)) <= usize::MAX,
    ensures
        stat_sum(file_stats(files, w).take(k)) == sum(w.take(k)),
    decreases k,
{
    let stats = file_stats(files, w);
    if k > 0 {
        assert(w.take(k).drop_last() =~= w.take(k - 1));
        assert(stats.take(k).drop_last() =~= stats.take(k - 1));
        lemma_stats_add_up(files, w, k - 1);
    }
}

/// Every counted word belongs to exactly one file: the report by file has one entry for
/// each file, its total is that of the report by section, and the words of its entries add
/// up to the total, as long as the total fits the size of a counter.
pub proof fn law_files_add_up(files: Seq<(Seq<char>, Seq<TokenView>)>)
    ensures
        ({
            let n = files.len() as int;
            let w = file_words(files, n);
            let c = counted_files(files, n);
            &&& file_stats(files, w).len() == files.len()
            &&& capped(sum(w)) == capped(c.preamble + section_sum(c.sections))
            &&& sum(w) <= usize::MAX ==> stat_sum(file_stats(files, w)) == capped(sum(w))
        }),
{
    let n = files.len() as int;
    let w = file_words(files, n);
    law_totals_agree(files, n);
    lemma_file_words_len(files, n);
    assert(w.take(n) =~= w);
    assert(file_stats(files, w).take(n) =~= file_stats(files, w));
    if sum(w) <= usize::MAX {
        lemma_stats_add_up(files, w, n);
    }
}

/// A section as counted.
struct Section {
    level: u8,
    number: String,
    title: String,
    words: usize,
}

spec fn is_section(s: Section, v: SectionCount) -> bool {
    s.level == v.level && s.number@ == v.number && s.title@ == v.title && s.words == capped(v.words)
}

spec fn are_sections(s: Seq<Section>, v: Seq<SectionCount>) -> bool {
    s.len() == v.len() && forall|k: int| 0 <= k < s.len() ==> is_section(#[trigger] s[k], v[k])
}

/// The counter as it runs.
struct RawCounts {
    in_document: bool,
    tracker: SectionTracker,
    preamble: usize,
    sections: Vec<Section>,
    here: usize,
}

impl RawCounts {
    spec fn is(self, c: Counter) -> bool {
        &&& self.in_document == c.in_document
        &&& self.tracker@ == c.counters
        &&& self.preamble == capped(c.preamble)
        &&& are_sections(self.sections@, c.sections)
        &&& self.here == capped(c.here)
        &&& c.counters.len() == 7
    }

    fn take(&mut self, t: &Token, Ghost(c): Ghost<Counter>)
        requires
            old(self).is(c),
        ensures
            final(self).is(counted(c, t@)),
    {
        match t {
            Token::BeginDocument => {
                self.in_document = true;
            },
            Token::Section { level, title } => {
                if self.in_document && *level < 7 {
                    let number = self.tracker.enter(*level);
                    let words = count_title_words(title.as_str());
                    self.here = saturating(self.here, words);
                    self.sections.push(
                        Section { level: *level, number, title: text::lit(title.as_str()), words },
                    );
                }
            },
            Token::Text(x) => {
                if self.in_document {
                    let words = count_words(x.as_str());
                    self.here = saturating(self.here, words);
                    let n: usize = self.sections.len();
                    if n > 0 {
                        let ghost before = self.sections@;
                        let last = self.sections.pop();
                        if let Some(s) = last {
                            assert(is_section(before[n - 1], c.sections[n - 1]));
                            self.sections.push(
                                Section {
                                    level: s.level,
                                    number: s.number,
                                    title: s.title,
                                    words: saturating(s.words, words),
                                },
                            );
                        }
                        proof {
                            let next = counted(c, t@).sections;
                            assert forall|k: int| 0 <= k < self.sections@.len() implies is_section(
                                #[trigger] self.sections@[k],
                                next[k],
                            ) by {
                                if k < n - 1 {
                                    assert(self.sections@[k] == before[k]);
                                    assert(is_section(before[k], c.sections[k]));
                                }
                            }
                        }
                    } else {
                        self.preamble = saturating(self.preamble, words);
                    }
                }
            },
            _ => {},
        }
    }
}

/// Counts the words of all files, in order: per section, before the first section, and
/// per file.
fn count_files(files: &Vec<TokenizedFile>) -> (r: (RawCounts, Vec<usize>))
    ensures
        r.0.is(counted_files(texparse::document_view(files@), files@.len() as int)),
        r.1@.len() == files@.len(),
        forall|k: int|
            0 <= k < files@.len() ==> #[trigger] r.1@[k] == capped(
                file_words(texparse::document_view(files@), files@.len() as int)[k],
            ),
        file_words(texparse::document_view(files@), files@.len() as int).len() == files@.len(),
{
    let ghost all = texparse::document_view(files@);
    let mut raw = RawCounts {
        in_document: false,
        tracker: SectionTracker::new(6),
        preamble: 0,
        sections: Vec::new(),
        here: 0,
    };
    let mut words: Vec<usize> = Vec::new();
    let mut i: usize = 0;
    assert(raw.tracker@ =~= count_start().counters);
    while i < files.len()
        invariant
            i <= files@.len(),
            all == texparse::document_view(files@),
            raw.is(counted_files(all, i as int)),
            words@.len() == i,
            file_words(all, i as int).len() == i,
            forall|k: int| 0 <= k < i ==> #[trigger] words@[k] == capped(file_words(all, i as int)[k]),
        decreases files@.len() - i,
    {
        let ghost c = Counter { here: 0, ..counted_files(all, i as int) };
        raw.here = 0;
        let file = &files[i];
        let ghost tokens = texparse::token_views(file.tokens@);
        assert(all[i as int].1 == tokens);
        let mut k: usize = 0;
        while k < file.tokens.len()
            invariant
                k <= file.tokens@.len(),
                tokens == texparse::token_views(file.tokens@),
                raw.is(counted_tokens(c, tokens, k as int)),
            decreases file.tokens@.len() - k,
        {
            assert(tokens[k as int] == file.tokens@[k as int]@);
            raw.take(&file.tokens[k], Ghost(counted_tokens(c, tokens, k as int)));
            k = k + 1;
        }
        assert(counted_files(all, i + 1) == counted_tokens(c, tokens, tokens.len() as int));
        let ghost before = file_words(all, i as int);
        words.push(raw.here);
        proof {
            let next = file_words(all, i + 1);
            assert(next == before.push(counted_files(all, i + 1).here));
            assert forall|j: int| 0 <= j < i + 1 implies #[trigger] words@[j] == capped(next[j]) by {
                if j < i {
                    assert(next[j] == before[j]);
                }
            }
        }
        i = i + 1;
    }
    (raw, words)
}

proof fn lemma_section_sum(s: Seq<SectionCount>, k: int)
    requires
        0 <= k < s.len(),
    ensures
        section_sum(s.take(k + 1)) == section_sum(s.take(k)) + s[k].words,
{
    assert(s.take(k + 1).drop_last() =~= s.take(k));
}

/// Count words per section for a document.
pub fn count_document(document: &str, files: &Vec<TokenizedFile>) -> (r: DocumentStats)
    ensures
        ({
            let c = counted_files(texparse::document_view(files@), files@.len() as int);
            r.document@ == document@ && r.total_words == capped(
                c.preamble + section_sum(c.sections),
            ) && r.file_count == files@.len() && r.preamble_words == capped(c.preamble)
                && stat_views(r.sections@) == section_stats(c.sections)
        }),
{
    let (raw, words) = count_files(files);
    let ghost c = counted_files(texparse::document_view(files@), files@.len() as int);
    let ghost whole = section_stats(c.sections);
    let mut sections: Vec<SectionStat> = Vec::new();
    let mut total: usize = raw.preamble;
    let mut k: usize = 0;
    assert(stat_views(sections@) =~= whole.take(0));
    assert(c.sections.take(0) =~= Seq::<SectionCount>::empty());
    while k < raw.sections.len()
        invariant
            k <= raw.sections@.len(),
            raw.is(c),
            whole == section_stats(c.sections),
            stat_views(sections@) == whole.take(k as int),
            total == capped(c.preamble + section_sum(c.sections.take(k as int))),
        decreases raw.sections@.len() - k,
    {
        let s = &raw.sections[k];
        assert(is_section(*s, c.sections[k as int]));
        proof {
            lemma_section_sum(c.sections, k as int);
        }
        let stat = SectionStat {
            path: text::lit(s.number.as_str()),
            level: Some(s.level),
            title: Some(text::lit(s.title.as_str())),
            words: s.words,
        };
        total = saturating(total, s.words);
        let ghost before = stat_views(sections@);
        sections.push(stat);
        assert(stat_views(sections@) =~= before.push(stat@));
        assert(whole.take(k + 1) =~= whole.take(k as int).push(whole[k as int]));
        k = k + 1;
    }
    assert(c.sections.take(k as int) =~= c.sections);
    assert(whole.take(k as int) =~= whole);
    DocumentStats {
        document: text::lit(document),
        total_words: total,
        file_count: files.len(),
        preamble_words: raw.preamble,
        sections,
    }
}

/// Count words per `.tex` file for a document.
pub fn count_by_file(document: &str, files: &Vec<TokenizedFile>) -> (r: DocumentStats)
    ensures
        ({
            let all = texparse::document_view(files@);
            let c = counted_files(all, files@.len() as int);
            let w = file_words(all, files@.len() as int);
            r.document@ == document@ && r.total_words == capped(sum(w)) && r.file_count
                == files@.len() && r.preamble_words == capped(c.preamble) && stat_views(
                r.sections@,
            ) == file_stats(all, w)
        }),
{
    let (raw, words) = count_files(files);
    let ghost all = texparse::document_view(files@);
    let ghost w = file_words(all, files@.len() as int);
    let ghost whole = file_stats(all, w);
    let mut sections: Vec<SectionStat> = Vec::new();
    let mut total: usize = 0;
    let mut k: usize = 0;
    assert(stat_views(sections@) =~= whole.take(0));
    assert(w.take(0) =~= Seq::<nat>::empty());
    while k < files.len()
        invariant
            k <= files@.len(),
            all == texparse::document_view(files@),
            w.len() == files@.len(),
            words@.len() == files@.len(),
            forall|j: int| 0 <= j < files@.len() ==> #[trigger] words@[j] == capped(w[j]),
            whole == file_stats(all, w),
            stat_views(sections@) == whole.take(k as int),
            total == capped(sum(w.take(k as int))),
        decreases files@.len() - k,
    {
        assert(all[k as int].0 == files@[k as int].path@);
        assert(w.take(k + 1).drop_last() =~= w.take(k as int));
        let path = match paths::file_name_of(files[k].path.as_str()) {
            Some(n) => n,
            None => String::new(),
        };
        let stat = SectionStat { path, level: None, title: None, words: words[k] };
        total = saturating(total, words[k]);
        let ghost before = stat_views(sections@);
        sections.push(stat);
        assert(stat_views(sections@) =~= before.push(stat@));
        assert(whole.take(k + 1) =~= whole.take(k as int).push(whole[k as int]));
        k = k + 1;
    }
    assert(w.take(k as int) =~= w);
    assert(whole.take(k as int) =~= whole);
    DocumentStats {
        document: text::lit(document),
        total_words: total,
        file_count: files.len(),
        preamble_words: raw.preamble,
        sections,
    }
}

} // verus!
