//! The order of texts by their characters, and sorting by it.

use vstd::prelude::*;

use crate::text::{self, chars_of};

verus! {

/// Whether `a` comes before `b`: at the first difference its character is the smaller
/// one, or it ends there.
pub open spec fn precedes(a: Seq<char>, b: Seq<char>) -> bool
    decreases a.len(),
{
    if b.len() == 0 {
        false
    } else if a.len() == 0 {
        true
    } else if a[0] != b[0] {
        a[0] < b[0]
    } else {
        precedes(a.skip(1), b.skip(1))
    }
}

/// Where a text belongs among the first `k` of a sorted sequence: behind those that it
/// does not precede.
pub open spec fn place(s: Seq<Seq<char>>, x: Seq<char>, k: int) -> int
    decreases k,
{
    if k <= 0 || k > s.len() || !precedes(x, s[k - 1]) {
        k
    } else {
        place(s, x, k - 1)
    }
}

/// A sorted sequence with one more text.
pub open spec fn inserted(s: Seq<Seq<char>>, x: Seq<char>) -> Seq<Seq<char>> {
    s.insert(place(s, x, s.len() as int), x)
}

/// A sequence in order; equal texts keep their order.
pub open spec fn sorted(s: Seq<Seq<char>>) -> Seq<Seq<char>>
    decreases s.len(),
{
    if s.len() == 0 {
        s
    } else {
        inserted(sorted(s.drop_last()), s.last())
    }
}

/// Whether no text of a sequence comes before an earlier one.
pub open spec fn is_sorted(s: Seq<Seq<char>>) -> bool {
    forall|i: int, j: int| 0 <= i < j < s.len() ==> !precedes(#[trigger] s[j], #[trigger] s[i])
}

pub proof fn lemma_asymmetric(a: Seq<char>, b: Seq<char>)
    ensures
        !(precedes(a, b) && precedes(b, a)),
    decreases a.len(),
{
    if a.len() > 0 && b.len() > 0 && a[0] == b[0] {
        lemma_asymmetric(a.skip(1), b.skip(1));
    }
}

/// Of two different texts one comes before the other.
pub proof fn law_order_is_total(a: Seq<char>, b: Seq<char>)
    requires
        a != b,
    ensures
        precedes(a, b) != precedes(b, a),
    decreases a.len(),
{
    lemma_asymmetric(a, b);
    if a.len() > 0 && b.len() > 0 && a[0] == b[0] {
        if a.skip(1) == b.skip(1) {
            assert(a =~= seq![a[0]] + a.skip(1));
            assert(b =~= seq![b[0]] + b.skip(1));
        }
        law_order_is_total(a.skip(1), b.skip(1));
    } else if a.len() == 0 && b.len() == 0 {
        assert(a =~= b);
    }
}

/// What comes before a text comes before all that the text comes before.
pub proof fn law_order_is_transitive(a: Seq<char>, b: Seq<char>, c: Seq<char>)
    requires
        precedes(a, b),
        precedes(b, c),
    ensures
        precedes(a, c),
    decreases a.len(),
{
    if a.len() > 0 && a[0] == b[0] && b[0] == c[0] {
        law_order_is_transitive(a.skip(1), b.skip(1), c.skip(1));
    }
}

proof fn lemma_not_before_transitive(a: Seq<char>, b: Seq<char>, c: Seq<char>)
    requires
        !precedes(b, a),
        !precedes(c, b),
    ensures
        !precedes(c, a),
{
    if precedes(c, a) {
        if b == c {
        } else {
            law_order_is_total(b, c);
            law_order_is_transitive(b, c, a);
        }
    }
}

proof fn lemma_place(s: Seq<Seq<char>>, x: Seq<char>, k: int)
    requires
        0 <= k <= s.len(),
    ensures
        0 <= place(s, x, k) <= k,
        forall|j: int| place(s, x, k) <= j < k ==> precedes(x, #[trigger] s[j]),
        place(s, x, k) > 0 ==> !precedes(x, s[place(s, x, k) - 1]),
    decreases k,
{
    if k > 0 && precedes(x, s[k - 1]) {
        lemma_place(s, x, k - 1);
    }
}

/// Whether texts stand in strictly ascending order.
pub open spec fn ascending(s: Seq<Seq<char>>) -> bool {
    forall|i: int, j: int| 0 <= i < j < s.len() ==> precedes(#[trigger] s[i], #[trigger] s[j])
}

pub proof fn lemma_ascending_place(s: Seq<Seq<char>>, w: Seq<char>)
    requires
        ascending(s),
    ensures
        ({
            let p = place(s, w, s.len() as int);
            &&& 0 <= p <= s.len()
            &&& forall|i: int| p <= i < s.len() ==> precedes(w, #[trigger] s[i])
            &&& p > 0 && s[p - 1] != w ==> precedes(s[p - 1], w)
            &&& forall|i: int| 0 <= i < p - 1 ==> precedes(#[trigger] s[i], w)
        }),
{
    let p = place(s, w, s.len() as int);
    lemma_place(s, w, s.len() as int);
    if p > 0 {
        if s[p - 1] != w {
            law_order_is_total(w, s[p - 1]);
        }
        assert forall|i: int| 0 <= i < p - 1 implies precedes(#[trigger] s[i], w) by {
            if s[p - 1] != w {
                law_order_is_transitive(s[i], s[p - 1], w);
            }
        }
    }
}

pub proof fn lemma_ascending_insert(s: Seq<Seq<char>>, w: Seq<char>)
    requires
        ascending(s),
        ({
            let p = place(s, w, s.len() as int);
            !(p > 0 && s[p - 1] == w)
        }),
    ensures
        ascending(s.insert(place(s, w, s.len() as int), w)),
{
    let p = place(s, w, s.len() as int);
    let t = s.insert(p, w);
    lemma_ascending_place(s, w);
    assert forall|i: int, j: int| 0 <= i < j < t.len() implies precedes(
        #[trigger] t[i],
        #[trigger] t[j],
    ) by {
        if i < p && j > p {
            assert(t[i] == s[i] && t[j] == s[j - 1]);
        } else if i == p {
            assert(t[j] == s[j - 1]);
        } else if j == p {
            assert(t[i] == s[i]);
        } else if i > p {
            assert(t[i] == s[i - 1] && t[j] == s[j - 1]);
        } else {
            assert(t[i] == s[i] && t[j] == s[j]);
        }
    }
}

pub proof fn lemma_ascending_at(s: Seq<Seq<char>>, i: int)
    requires
        ascending(s),
        0 <= i < s.len(),
    ensures
        place(s, s[i], s.len() as int) == i + 1,
{
    lemma_ascending_place(s, s[i]);
    lemma_asymmetric(s[i], s[i]);
    let p = place(s, s[i], s.len() as int);
    if p > i + 1 {
        assert(precedes(s[i], s[i]));
    }
}

proof fn lemma_inserted(s: Seq<Seq<char>>, x: Seq<char>)
    requires
        is_sorted(s),
    ensures
        is_sorted(inserted(s, x)),
        inserted(s, x).to_multiset() == s.to_multiset().insert(x),
{
    let p = place(s, x, s.len() as int);
    lemma_place(s, x, s.len() as int);
    let t = inserted(s, x);
    assert forall|i: int, j: int| 0 <= i < j < t.len() implies !precedes(
        #[trigger] t[j],
        #[trigger] t[i],
    ) by {
        if j < p {
            assert(t[i] == s[i] && t[j] == s[j]);
        } else if j == p {
            assert(t[i] == s[i] && t[j] == x);
            if i < p - 1 {
                lemma_not_before_transitive(s[i], s[p - 1], x);
            }
        } else if i < p {
            assert(t[i] == s[i] && t[j] == s[j - 1]);
        } else if i == p {
            assert(t[i] == x && t[j] == s[j - 1]);
            lemma_asymmetric(x, s[j - 1]);
        } else {
            assert(t[i] == s[i - 1] && t[j] == s[j - 1]);
        }
    }
    broadcast use vstd::seq_lib::group_to_multiset_ensures;

}

/// Sorting puts the texts in order, and neither drops nor adds one.
pub proof fn law_sorted(s: Seq<Seq<char>>)
    ensures
        is_sorted(sorted(s)),
        sorted(s).to_multiset() == s.to_multiset(),
        sorted(s).len() == s.len(),
    decreases s.len(),
{
    if s.len() > 0 {
        law_sorted(s.drop_last());
        lemma_inserted(sorted(s.drop_last()), s.last());
        lemma_place(sorted(s.drop_last()), s.last(), sorted(s.drop_last()).len() as int);
        assert(s =~= s.drop_last().push(s.last()));
        broadcast use vstd::seq_lib::group_to_multiset_ensures;

    }
}

/// Whether `a` comes before `b`.
pub fn before(a: &[char], b: &[char]) -> (r: bool)
    ensures
        r == precedes(a@, b@),
{
    let mut i: usize = 0;
    assert(a@.skip(0) =~= a@);
    assert(b@.skip(0) =~= b@);
    while i < a.len() && i < b.len()
        invariant
            i <= a@.len(),
            i <= b@.len(),
            precedes(a@, b@) == precedes(a@.skip(i as int), b@.skip(i as int)),
        decreases a@.len() - i,
    {
        if a[i] != b[i] {
            return a[i] < b[i];
        }
        assert(a@.skip(i as int).skip(1) =~= a@.skip(i + 1));
        assert(b@.skip(i as int).skip(1) =~= b@.skip(i + 1));
        i = i + 1;
    }
    i < b.len()
}

/// Whether `a` comes before `b`.
pub fn before_str(a: &str, b: &str) -> (r: bool)
    ensures
        r == precedes(a@, b@),
{
    let x = chars_of(a);
    let y = chars_of(b);
    before(x.as_slice(), y.as_slice())
}

/// Puts a text into its place.
pub fn insert(v: &mut Vec<String>, x: String)
    ensures
        text::texts(final(v)@) == inserted(text::texts(old(v)@), x@),
{
    let ghost s = text::texts(v@);
    let mut k: usize = v.len();
    while k > 0 && before_str(x.as_str(), v[k - 1].as_str())
        invariant
            k <= v@.len(),
            s == text::texts(v@),
            place(s, x@, s.len() as int) == place(s, x@, k as int),
        decreases k,
    {
        assert(s[k - 1] == v@[k - 1]@);
        k = k - 1;
    }
    assert(k > 0 ==> s[k - 1] == v@[k - 1]@);
    v.insert(k, x);
    assert(text::texts(v@) =~= s.insert(k as int, x@));
}

/// The texts in order.
pub fn sort(v: &Vec<String>) -> (r: Vec<String>)
    ensures
        text::texts(r@) == sorted(text::texts(v@)),
{
    let ghost s = text::texts(v@);
    let mut out: Vec<String> = Vec::new();
    let mut i: usize = 0;
    assert(text::texts(out@) =~= sorted(s.take(0)));
    while i < v.len()
        invariant
            i <= v@.len(),
            s == text::texts(v@),
            text::texts(out@) == sorted(s.take(i as int)),
        decreases v@.len() - i,
    {
        assert(s.take(i + 1).drop_last() =~= s.take(i as int));
        assert(s.take(i + 1).last() == v@[i as int]@);
        insert(&mut out, text::lit(v[i].as_str()));
        i = i + 1;
    }
    assert(s.take(v@.len() as int) =~= s);
    out
}

} // verus!
