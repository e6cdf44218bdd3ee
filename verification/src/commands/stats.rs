//! The `stats` command: the words of a document, for people to read.

use vstd::prelude::*;

use crate::number;
use crate::text::{self, chars_of};
use crate::wordcount::{self, DocumentStats, SectionStat, StatView};

verus! {

/// How the words are broken down.
#[derive(Debug, Clone, Copy, PartialEq, Eq, Structural)]
pub enum ByMode {
    /// By section.
    Section,
    /// By `.tex` file.
    File,
}

/// The width that a line is filled to.
pub const WIDTH: usize = 60;

/// Two texts with as many dots between them as fill the line.
pub open spec fn dotted(left: Seq<char>, right: Seq<char>) -> Seq<char> {
    let n = left.len() + right.len();
    left + text::repeat(
        "."@,
        if n < WIDTH {
            (WIDTH - n) as nat
        } else {
            0
        },
    ) + right
}

/// Two texts with as many dots between them as fill the line.
pub fn dotted_line(left: &str, right: &str) -> (r: String)
    ensures
        r@ == dotted(left@, right@),
{
    let a: usize = chars_of(left).len();
    let b: usize = chars_of(right).len();
    let dots: usize = if a < WIDTH && b < WIDTH - a {
        WIDTH - a - b
    } else {
        0
    };
    text::cat3(left, text::repeated(".", dots as u128).as_str(), right)
}

/// What stands for a section or a file.
pub open spec fn stat_label(s: StatView, by: ByMode) -> Seq<char> {
    match by {
        ByMode::Section => s.path + " "@ + match s.title {
            Some(t) => t,
            None => Seq::empty(),
        },
        ByMode::File => s.path,
    }
}

/// A line of the breakdown.
pub open spec fn stat_line(label: Seq<char>, words: nat) -> Seq<char> {
    "  "@ + dotted(label, number::decimal(words)) + "\n"@
}

/// The lines on the first `k` sections or files.
pub open spec fn stat_lines(s: Seq<StatView>, by: ByMode, k: int) -> Seq<char>
    decreases k,
{
    if k <= 0 || k > s.len() {
        Seq::empty()
    } else {
        stat_lines(s, by, k - 1) + stat_line(stat_label(s[k - 1], by), s[k - 1].words)
    }
}

/// Statistics for people to read.
pub open spec fn report_text(
    document: Seq<char>,
    preamble: nat,
    sections: Seq<StatView>,
    total: nat,
    by: ByMode,
) -> Seq<char> {
    document + "\n"@ + (if preamble > 0 {
        stat_line("preamble"@, preamble)
    } else {
        Seq::empty()
    }) + stat_lines(sections, by, sections.len() as int) + if preamble > 0 || sections.len() > 0 {
        stat_line("Total"@, total)
    } else {
        Seq::empty()
    }
}

fn line(label: &str, words: usize) -> (r: String)
    ensures
        r@ == stat_line(label@, words as nat),
{
    text::cat3("  ", dotted_line(label, number::show_size(words).as_str()).as_str(), "\n")
}

fn label(s: &SectionStat, by: ByMode) -> (r: String)
    ensures
        r@ == stat_label(s@, by),
{
    match by {
        ByMode::Section => {
            let head = text::cat2(s.path.as_str(), " ");
            match &s.title {
                Some(t) => text::cat2(head.as_str(), t.as_str()),
                None => {
                    assert(head@ + Seq::<char>::empty() =~= head@);
                    head
                },
            }
        },
        ByMode::File => text::lit(s.path.as_str()),
    }
}

fn lines(sections: &Vec<SectionStat>, by: ByMode) -> (r: String)
    ensures
        r@ == stat_lines(wordcount::stat_views(sections@), by, sections@.len() as int),
{
    let ghost all = wordcount::stat_views(sections@);
    let mut out = String::new();
    let mut k: usize = 0;
    assert(out@ =~= stat_lines(all, by, 0));
    while k < sections.len()
        invariant
            k <= sections@.len(),
            all == wordcount::stat_views(sections@),
            out@ == stat_lines(all, by, k as int),
        decreases sections@.len() - k,
    {
        assert(all[k as int] == sections@[k as int]@);
        let one = line(label(&sections[k], by).as_str(), sections[k].words);
        text::push(&mut out, one.as_str());
        k = k + 1;
    }
    out
}

/// Statistics for people to read.
pub fn report(stats: &DocumentStats, by: ByMode) -> (r: String)
    ensures
        r@ == report_text(
            stats.document@,
            stats.preamble_words as nat,
            wordcount::stat_views(stats.sections@),
            stats.total_words as nat,
            by,
        ),
{
    assert(wordcount::stat_views(stats.sections@).len() == stats.sections@.len());
    let head = text::cat2(stats.document.as_str(), "\n");
    let before = if stats.preamble_words > 0 {
        line("preamble", stats.preamble_words)
    } else {
        String::new()
    };
    let body = lines(&stats.sections, by);
    let total = if stats.preamble_words > 0 || stats.sections.len() > 0 {
        line("Total", stats.total_words)
    } else {
        String::new()
    };
    text::cat4(head.as_str(), before.as_str(), body.as_str(), total.as_str())
}

proof fn lemma_dots(n: nat)
    ensures
        text::repeat("."@, n).len() == n,
    decreases n,
{
    reveal_strlit(".");
    if n > 0 {
        lemma_dots((n - 1) as nat);
    }
}

/// A line of the breakdown is as wide as lines are, or wider only where its two texts do
/// not leave room for a dot.
pub proof fn law_lines_are_filled(left: Seq<char>, right: Seq<char>)
    ensures
        left.len() + right.len() <= WIDTH ==> dotted(left, right).len() == WIDTH,
        left.len() + right.len() > WIDTH ==> dotted(left, right).len() == left.len() + right.len(),
{
    let n = left.len() + right.len();
    lemma_dots(
        if n < WIDTH {
            (WIDTH - n) as nat
        } else {
            0
        },
    );
}

} // verus!
