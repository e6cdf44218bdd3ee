//! Sets of words that remember the order in which the words came.

use vstd::prelude::*;

use crate::order;
use crate::text::{self, chars_of, string_of};

verus! {

/// The number of buckets of a set.
const BUCKETS: u64 = 16384;

/// The bucket of a word.
spec fn bucket(w: Seq<char>) -> int
    decreases w.len(),
{
    if w.len() == 0 {
        0
    } else {
        (bucket(w.drop_last()) * 31 + w.last() as u32) % (BUCKETS as int)
    }
}

/// The words of a sequence, each where it comes first.
pub open spec fn distinct(s: Seq<Seq<char>>) -> Seq<Seq<char>>
    decreases s.len(),
{
    if s.len() == 0 {
        Seq::empty()
    } else {
        with_word(distinct(s.drop_last()), s.last())
    }
}

/// The words after one more has come.
pub open spec fn with_word(words: Seq<Seq<char>>, w: Seq<char>) -> Seq<Seq<char>> {
    if words.contains(w) {
        words
    } else {
        words.push(w)
    }
}

pub proof fn lemma_distinct(s: Seq<Seq<char>>)
    ensures
        distinct(s).no_duplicates(),
        forall|w: Seq<char>| distinct(s).contains(w) <==> s.contains(w),
    decreases s.len(),
{
    if s.len() > 0 {
        let t = s.drop_last();
        lemma_distinct(t);
        let d = distinct(t);
        assert forall|w: Seq<char>| distinct(s).contains(w) <==> s.contains(w) by {
            if s.contains(w) {
                let i = choose|i: int| 0 <= i < s.len() && s[i] == w;
                if i < t.len() {
                    assert(t[i] == w);
                    assert(t.contains(w));
                    assert(d.contains(w));
                    let j = choose|j: int| 0 <= j < d.len() && d[j] == w;
                    assert(distinct(s)[j] == w);
                } else if !d.contains(w) {
                    assert(distinct(s)[d.len() as int] == w);
                }
            }
            if distinct(s).contains(w) {
                let j = choose|j: int| 0 <= j < distinct(s).len() && distinct(s)[j] == w;
                if j < d.len() {
                    assert(d[j] == w);
                    assert(t.contains(w));
                    let i = choose|i: int| 0 <= i < t.len() && t[i] == w;
                    assert(s[i] == w);
                } else {
                    assert(s[s.len() - 1] == w);
                }
            }
        }
    }
}

/// The texts of rows of characters.
pub open spec fn rows(v: Seq<Vec<char>>) -> Seq<Seq<char>> {
    Seq::new(v.len(), |k: int| v[k]@)
}

/// A set of words.
#[derive(Debug)]
pub struct WordSet {
    words: Vec<Vec<char>>,
    buckets: Vec<Vec<usize>>,
}

impl View for WordSet {
    type V = Seq<Seq<char>>;

    closed spec fn view(&self) -> Seq<Seq<char>> {
        rows(self.words@)
    }
}

fn bucket_of(w: &[char]) -> (r: usize)
    ensures
        r == bucket(w@),
        r < BUCKETS,
{
    let mut h: u64 = 0;
    let mut i: usize = 0;
    assert(w@.take(0) =~= Seq::<char>::empty());
    while i < w.len()
        invariant
            i <= w@.len(),
            h == bucket(w@.take(i as int)),
            h < BUCKETS,
        decreases w@.len() - i,
    {
        let ghost t = w@.take(i + 1);
        assert(t.drop_last() =~= w@.take(i as int));
        assert(t.last() == w@[i as int]);
        let c: u32 = w[i] as u32;
        h = (h * 31 + c as u64) % BUCKETS;
        i = i + 1;
    }
    assert(w@.take(w@.len() as int) =~= w@);
    h as usize
}

impl WordSet {
    /// Whether the set is well formed: no word comes twice, and each stands in its
    /// bucket.
    pub closed spec fn wf(self) -> bool {
        &&& rows(self.words@).no_duplicates()
        &&& self.buckets@.len() == BUCKETS
        &&& forall|b: int, k: int|
            0 <= b < self.buckets@.len() && 0 <= k < self.buckets@[b]@.len() ==> (
            #[trigger] self.buckets@[b]@[k]) < self.words@.len()
        &&& forall|i: int|
            0 <= i < self.words@.len() ==> self.buckets@[bucket((#[trigger] self.words@[i])@)]@.contains(
            i as usize)
    }

    /// The empty set.
    pub fn new() -> (r: WordSet)
        ensures
            r.wf(),
            r@ == Seq::<Seq<char>>::empty(),
    {
        let mut buckets: Vec<Vec<usize>> = Vec::new();
        let mut i: u64 = 0;
        while i < BUCKETS
            invariant
                i <= BUCKETS,
                buckets@.len() == i,
                forall|b: int| 0 <= b < i ==> (#[trigger] buckets@[b])@.len() == 0,
            decreases BUCKETS - i,
        {
            buckets.push(Vec::new());
            i = i + 1;
        }
        let r = WordSet { words: Vec::new(), buckets };
        assert(r@ =~= Seq::<Seq<char>>::empty());
        r
    }

    /// Whether a word is in the set.
    pub fn has(&self, w: &[char]) -> (r: bool)
        requires
            self.wf(),
        ensures
            r == self@.contains(w@),
    {
        let total: usize = self.words.len();
        let b = bucket_of(w);
        let row = &self.buckets[b];
        let mut k: usize = 0;
        while k < row.len()
            invariant
                k <= row@.len(),
                self.wf(),
                b == bucket(w@),
                b < self.buckets@.len(),
                *row == self.buckets@[b as int],
                forall|j: int| 0 <= j < k ==> self.words@[(#[trigger] row@[j]) as int]@ != w@,
            decreases row@.len() - k,
        {
            assert(self.buckets@[b as int]@[k as int] < self.words@.len());
            let i = row[k];
            if text::same(self.words[i].as_slice(), w) {
                assert(self@[i as int] == w@);
                return true;
            }
            k = k + 1;
        }
        proof {
            assert(total == self.words@.len());
            if self@.contains(w@) {
                let i = choose|i: int| 0 <= i < self@.len() && self@[i] == w@;
                assert(self.words@[i]@ == w@);
                assert(row@.contains(i as usize));
                let j = choose|j: int| 0 <= j < row@.len() && row@[j] == i as usize;
                assert(self.words@[row@[j] as int]@ != w@);
            }
        }
        false
    }

    /// Whether a word is in the set.
    pub fn contains(&self, w: &str) -> (r: bool)
        requires
            self.wf(),
        ensures
            r == self@.contains(w@),
    {
        let c = chars_of(w);
        self.has(c.as_slice())
    }

    /// The number of words in the set.
    pub fn len(&self) -> (r: usize)
        requires
            self.wf(),
        ensures
            r == self@.len(),
            self@.no_duplicates(),
    {
        self.words.len()
    }

    /// The `i`-th word of the set.
    pub fn word(&self, i: usize) -> (r: String)
        requires
            self.wf(),
            i < self@.len(),
        ensures
            r@ == self@[i as int],
    {
        string_of(self.words[i].as_slice())
    }

    /// Puts a word into the set.
    pub fn insert(&mut self, w: &str)
        requires
            old(self).wf(),
        ensures
            final(self).wf(),
            final(self)@ == with_word(old(self)@, w@),
    {
        let c = chars_of(w);
        if self.has(c.as_slice()) {
            return;
        }
        let ghost words = self.words@;
        let ghost before = self.buckets@;
        let b = bucket_of(c.as_slice());
        let n: usize = self.words.len();
        let ghost row = self.buckets@[b as int]@;
        self.buckets[b].push(n);
        self.words.push(c);
        proof {
            let after = self.buckets@;
            assert(rows(self.words@) =~= rows(words).push(w@));
            assert(after[b as int]@ == row.push(n));
            assert forall|d: int, k: int|
                0 <= d < after.len() && 0 <= k < after[d]@.len() implies (
            #[trigger] after[d]@[k]) < self.words@.len() by {
                if d == b && k == row.len() {
                } else {
                    assert(after[d]@[k] == before[d]@[k]);
                }
            }
            assert forall|i: int| 0 <= i < self.words@.len() implies after[bucket(
                (#[trigger] self.words@[i])@,
            )]@.contains(i as usize) by {
                if i == n {
                    assert(after[b as int]@[row.len() as int] == n);
                } else {
                    let x = bucket(words[i]@);
                    assert(before[x]@.contains(i as usize));
                    let j = choose|j: int| 0 <= j < before[x]@.len() && before[x]@[j] == i as usize;
                    assert(after[x]@[j] == i as usize);
                }
            }
        }
    }
}

/// The distinct texts of a sequence, in order.
pub open spec fn sorted_distinct(s: Seq<Seq<char>>) -> Seq<Seq<char>> {
    order::sorted(distinct(s))
}

/// The distinct texts of a list, in order.
pub fn distinct_sorted(v: &Vec<String>) -> (r: Vec<String>)
    ensures
        text::texts(r@) == sorted_distinct(text::texts(v@)),
{
    broadcast use text::lemma_texts_push;

    let ghost all = text::texts(v@);
    let mut set = WordSet::new();
    let mut k: usize = 0;
    assert(all.take(0) =~= Seq::<Seq<char>>::empty());
    while k < v.len()
        invariant
            k <= v@.len(),
            set.wf(),
            all == text::texts(v@),
            set@ == distinct(all.take(k as int)),
        decreases v@.len() - k,
    {
        assert(all.take(k + 1).drop_last() =~= all.take(k as int));
        assert(all.take(k + 1).last() == v@[k as int]@);
        set.insert(v[k].as_str());
        k = k + 1;
    }
    assert(all.take(k as int) =~= all);
    let n: usize = set.len();
    let ghost words = set@;
    let mut out: Vec<String> = Vec::new();
    let mut i: usize = 0;
    assert(text::texts(out@) =~= words.take(0));
    while i < n
        invariant
            i <= n == words.len(),
            set.wf(),
            words == set@,
            text::texts(out@) == words.take(i as int),
        decreases n - i,
    {
        out.push(set.word(i));
        assert(words.take(i + 1) =~= words.take(i as int).push(words[i as int]));
        i = i + 1;
    }
    assert(words.take(n as int) =~= words);
    order::sort(&out)
}

} // verus!
