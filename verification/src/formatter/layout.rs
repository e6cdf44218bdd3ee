//! Where formatting puts a line: how deep, and with how many blank lines before it.

use vstd::prelude::*;

use super::listing;
use crate::chars;
use crate::text;

verus! {

/// Whether a text stands at a position.
pub open spec fn stands(s: Seq<char>, i: int, p: Seq<char>) -> bool {
    0 <= i && i + p.len() <= s.len() && forall|k: int|
        0 <= k < p.len() ==> s[i + k] == #[trigger] p[k]
}

/// At how many positions from `i` on a text stands.
pub open spec fn occurrences(s: Seq<char>, p: Seq<char>, i: int) -> nat
    decreases s.len() - i,
{
    if i < 0 || i >= s.len() {
        0
    } else if stands(s, i, p) {
        1 + occurrences(s, p, i + 1)
    } else {
        occurrences(s, p, i + 1)
    }
}

/// By how much the opening braces and brackets from `i` on outnumber the closing ones, up to
/// a comment. A character behind a backslash, which `escaped` tells of, does not count.
pub open spec fn surplus(s: Seq<char>, i: int, escaped: bool) -> int
    decreases s.len() - i,
{
    if i < 0 || i >= s.len() {
        0
    } else if escaped {
        surplus(s, i + 1, false)
    } else if s[i] == '\\' {
        surplus(s, i + 1, true)
    } else if s[i] == '%' {
        0
    } else if s[i] == '{' || s[i] == '[' {
        surplus(s, i + 1, false) + 1
    } else if s[i] == '}' || s[i] == ']' {
        surplus(s, i + 1, false) - 1
    } else {
        surplus(s, i + 1, false)
    }
}

/// What a line opens, less what it closes: environments, braces and brackets.
pub open spec fn opened_by(t: Seq<char>) -> int {
    occurrences(t, "\\begin{"@, 0) - occurrences(t, "\\end{"@, 0) + surplus(t, 0, false)
}

/// Whether a line is nothing but white space.
pub open spec fn is_blank(l: Seq<char>) -> bool {
    forall|i: int| 0 <= i < l.len() ==> chars::is_space(#[trigger] l[i])
}

/// A number, or zero where it is below.
pub open spec fn above_zero(n: int) -> nat {
    if n > 0 {
        n as nat
    } else {
        0
    }
}

/// How deep what stands behind the first `k` lines is nested.
pub open spec fn level_at(ls: Seq<Seq<char>>, k: int) -> nat
    decreases k,
{
    if k <= 0 || k > ls.len() {
        0
    } else {
        let before = level_at(ls, k - 1);
        let l = ls[k - 1];
        match (listing::listing_at(ls, k - 1), listing::listing_at(ls, k)) {
            (Some(_), Some(_)) => before,
            (Some(_), None) => above_zero(before - 1),
            (None, Some(_)) => before + 1,
            (None, None) => if is_blank(l) {
                before
            } else {
                above_zero(before + opened_by(text::trim(l)))
            },
        }
    }
}

/// How many closing braces and brackets a text begins with.
pub open spec fn closers(t: Seq<char>, i: int) -> nat
    decreases t.len() - i,
{
    if 0 <= i < t.len() && (t[i] == '}' || t[i] == ']') {
        1 + closers(t, i + 1)
    } else {
        0
    }
}

/// How many levels a line closes before it is placed.
pub open spec fn closed_first(t: Seq<char>) -> nat {
    if stands(t, 0, "\\end{"@) {
        1
    } else {
        closers(t, 0)
    }
}

/// Whether the `k`-th line is blank and stands in no listing.
pub open spec fn is_gap(ls: Seq<Seq<char>>, k: int) -> bool {
    0 <= k < ls.len() && listing::listing_at(ls, k) is None && is_blank(ls[k])
}

/// Where the `k`-th line goes: how many lines are put out before it. Of blank lines in a row
/// outside listings only the first is put out, and none at the start.
pub open spec fn place(ls: Seq<Seq<char>>, k: int) -> nat
    decreases k,
{
    if k <= 0 || k > ls.len() {
        0
    } else if is_gap(ls, k - 1) && (place(ls, k - 1) == 0 || is_gap(ls, k - 2)) {
        place(ls, k - 1)
    } else {
        place(ls, k - 1) + 1
    }
}

/// Whether a line is two spaces for each level, and a text.
pub open spec fn is_placed(out: Seq<char>, level: nat, t: Seq<char>) -> bool {
    &&& out.len() == 2 * level + t.len()
    &&& forall|i: int| 0 <= i < 2 * level ==> #[trigger] out[i] == ' '
    &&& forall|i: int| 0 <= i < t.len() ==> out[2 * level + i] == #[trigger] t[i]
}

// ---------------------------------------------------------------------------
// Counting
// ---------------------------------------------------------------------------

proof fn lemma_stands(s: Seq<char>, i: int, p: Seq<char>)
    ensures
        stands(s, i, p) <==> text::matches_at(s, i, p),
{
    if stands(s, i, p) {
        assert(s.subrange(i, i + p.len()) =~= p);
    }
    if text::matches_at(s, i, p) {
        assert forall|k: int| 0 <= k < p.len() implies s[i + k] == #[trigger] p[k] by {
            assert(s.subrange(i, i + p.len())[k] == s[i + k]);
        }
    }
}

proof fn lemma_occurrences_behind(s: Seq<char>, p: Seq<char>, n: int, i: int)
    requires
        0 <= n <= s.len(),
        0 <= i,
    ensures
        occurrences(s, p, n + i) == occurrences(s.skip(n), p, i),
    decreases s.len() - n - i,
{
    if n + i < s.len() {
        lemma_occurrences_behind(s, p, n, i + 1);
        let t = s.skip(n);
        if stands(s, n + i, p) {
            assert forall|k: int| 0 <= k < p.len() implies t[i + k] == #[trigger] p[k] by {
                assert(s[n + i + k] == p[k]);
            }
        }
        if stands(t, i, p) {
            assert forall|k: int| 0 <= k < p.len() implies s[n + i + k] == #[trigger] p[k] by {
                assert(t[i + k] == p[k]);
            }
        }
    }
}

proof fn lemma_occurrences_none(s: Seq<char>, p: Seq<char>, i: int, e: int)
    requires
        0 <= i <= e <= s.len(),
        forall|k: int| i <= k < e ==> !#[trigger] stands(s, k, p),
    ensures
        occurrences(s, p, i) == occurrences(s, p, e),
    decreases e - i,
{
    if i < e {
        assert(!stands(s, i, p));
        lemma_occurrences_none(s, p, i + 1, e);
    }
}

proof fn lemma_count(s: Seq<char>, p: Seq<char>)
    requires
        p.len() > 0,
        forall|k: int| 0 < k < p.len() ==> #[trigger] p[k] != p[0],
    ensures
        text::count(s, p) == occurrences(s, p, 0),
    decreases s.len(),
{
    text::lemma_find_bounds(s, p, 0);
    match text::find(s, p) {
        None => {
            assert forall|k: int| 0 <= k < s.len() implies !#[trigger] stands(s, k, p) by {
                lemma_stands(s, k, p);
            }
            lemma_occurrences_none(s, p, 0, s.len() as int);
        },
        Some(k) => {
            let n = k + p.len();
            assert forall|j: int| 0 <= j < k implies !#[trigger] stands(s, j, p) by {
                lemma_stands(s, j, p);
            }
            lemma_occurrences_none(s, p, 0, k);
            lemma_stands(s, k, p);
            assert forall|j: int| k + 1 <= j < n implies !#[trigger] stands(s, j, p) by {
                assert(s[k + (j - k)] == p[j - k]);
                if stands(s, j, p) {
                    assert(s[j + 0] == p[0]);
                }
            }
            lemma_occurrences_none(s, p, k + 1, n);
            lemma_occurrences_behind(s, p, n, 0);
            lemma_count(s.skip(n), p);
        },
    }
}

proof fn lemma_surplus(s: Seq<char>, i: int)
    requires
        0 <= i,
    ensures
        super::balance(s, i) == surplus(s, i, false),
    decreases s.len() + 1 - i,
{
    if i < s.len() {
        lemma_surplus(s, i + 1);
        if s[i] == '\\' {
            lemma_surplus(s, i + 2);
            assert(surplus(s, i + 1, true) == surplus(s, i + 2, false));
        }
    }
}

proof fn lemma_opened(t: Seq<char>)
    ensures
        super::delta(t) == opened_by(t),
{
    reveal_strlit("\\begin{");
    reveal_strlit("\\end{");
    lemma_count(t, "\\begin{"@);
    lemma_count(t, "\\end{"@);
    lemma_surplus(t, 0);
}

proof fn lemma_closers(t: Seq<char>, i: int)
    requires
        0 <= i <= t.len(),
    ensures
        super::leading_closers(t.skip(i)) == closers(t, i),
    decreases t.len() - i,
{
    if i < t.len() {
        lemma_closers(t, i + 1);
        assert(t.skip(i)[0] == t[i]);
        assert(t.skip(i).skip(1) =~= t.skip(i + 1));
    }
}

proof fn lemma_closed_first(t: Seq<char>)
    ensures
        super::dedent(t) == closed_first(t),
{
    lemma_stands(t, 0, "\\end{"@);
    lemma_closers(t, 0);
    assert(t.skip(0) =~= t);
}

proof fn lemma_blank(l: Seq<char>)
    ensures
        is_blank(l) <==> text::trim(l).len() == 0,
{
    let x = text::trim_start(l);
    text::lemma_trim_start_len(l);
    text::lemma_trim_end_len(x);
    if x.len() > 0 {
        assert(x[0] == l[l.len() - x.len()]);
        assert(!chars::is_space(l[l.len() - x.len()]));
        if text::trim_end(x).len() == 0 {
            assert(chars::is_space(x[0]));
        }
    }
}

// ---------------------------------------------------------------------------
// Lines
// ---------------------------------------------------------------------------

spec fn is_at(ls: Seq<Seq<char>>, k: int, s: super::State) -> bool {
    &&& s.verbatim == listing::listing_at(ls, k)
    &&& s.depth == level_at(ls, k)
    &&& s.out.len() == place(ls, k)
    &&& s.blank == is_gap(ls, k - 1)
}

proof fn lemma_listing_lines(ls: Seq<Seq<char>>, k: int)
    requires
        0 < k <= ls.len(),
    ensures
        listing::listing_at(ls, k - 1) is None && listing::listing_at(ls, k) is Some ==> !is_blank(
            ls[k - 1],
        ),
        listing::listing_at(ls, k - 1) is Some && listing::listing_at(ls, k) is None ==> !is_blank(
            ls[k - 1],
        ),
{
    let l = ls[k - 1];
    lemma_blank(l);
    listing::lemma_listing_at(ls, k - 1);
    listing::lemma_listing_at(ls, k);
    assert(ls.take(k).drop_last() =~= ls.take(k - 1));
    if let Some(env) = listing::listing_at(ls, k - 1) {
        listing::lemma_closes(l, env);
    }
}

/// The lines after the `k`-th one are open or not as the state of the formatter says.
proof fn lemma_at(ls: Seq<Seq<char>>, k: int)
    requires
        0 <= k <= ls.len(),
    ensures
        is_at(ls, k, super::run(ls.take(k))),
    decreases k,
{
    listing::lemma_listing_at(ls, k);
    if k == 0 {
        assert(ls.take(0) =~= Seq::<Seq<char>>::empty());
    } else {
        lemma_at(ls, k - 1);
        listing::lemma_listing_at(ls, k - 1);
        assert(ls.take(k).drop_last() =~= ls.take(k - 1));
        let l = ls[k - 1];
        let s = super::run(ls.take(k - 1));
        let u = super::run(ls.take(k));
        assert(u == super::after(s, l));
        lemma_listing_lines(ls, k);
        lemma_blank(l);
        lemma_opened(text::trim(l));
        if listing::listing_at(ls, k - 1) is Some {
            lemma_gap_in_listing(ls, k - 1);
        }
    }
}

/// Right behind a line of a listing there is no gap yet.
proof fn lemma_gap_in_listing(ls: Seq<Seq<char>>, k: int)
    requires
        0 <= k <= ls.len(),
        listing::listing_at(ls, k) is Some,
    ensures
        !is_gap(ls, k - 1),
{
    if k > 0 {
        lemma_listing_lines(ls, k);
    }
}

proof fn lemma_indented(d: nat, t: Seq<char>)
    ensures
        is_placed(super::indented(d, t), d, t),
    decreases d,
{
    reveal_strlit("  ");
    super::lemma_indent_spaces(d);
    lemma_indent_length(d);
}

proof fn lemma_indent_length(d: nat)
    ensures
        text::repeat("  "@, d).len() == 2 * d,
    decreases d,
{
    reveal_strlit("  ");
    if d > 0 {
        lemma_indent_length((d - 1) as nat);
    }
}

/// What the `k`-th line adds is at its place in all that is put out.
proof fn lemma_put_out(ls: Seq<Seq<char>>, k: int)
    requires
        0 <= k < ls.len(),
    ensures
        super::run(ls.take(k + 1)) == super::after(super::run(ls.take(k)), ls[k]),
        forall|i: int|
            0 <= i < super::run(ls.take(k + 1)).out.len() ==> i < super::run(ls).out.len()
                && super::run(ls).out[i] == #[trigger] super::run(ls.take(k + 1)).out[i],
{
    assert(ls.take(k + 1).drop_last() =~= ls.take(k));
    super::lemma_out_grows(ls, k + 1);
    let o = super::run(ls).out;
    let h = super::run(ls.take(k + 1)).out;
    assert forall|i: int| 0 <= i < h.len() implies i < o.len() && o[i] == #[trigger] h[i] by {
        assert(o.take(h.len() as int)[i] == o[i]);
    }
}

/// Every line that is not blank is put out at its place. Outside listings it is its text
/// without the white space around it, behind two spaces for each environment, brace and
/// bracket that is open before it and that it does not begin by closing. The `\end` of a
/// listing stands one level out.
pub proof fn law_lines_are_indented_by_what_is_open(source: Seq<char>, k: int)
    requires
        0 <= k < text::lines(source).len(),
        !is_blank(text::lines(source)[k]),
    ensures
        ({
            let ls = text::lines(source);
            let out = super::formatted_lines(source);
            let t = text::trim(ls[k]);
            let p = place(ls, k) as int;
            &&& p < out.len()
            &&& listing::listing_at(ls, k) is None ==> is_placed(
                out[p],
                above_zero(level_at(ls, k) - closed_first(t)),
                t,
            )
            &&& listing::listing_at(ls, k) is Some && listing::listing_at(ls, k + 1) is None
                ==> is_placed(out[p], above_zero(level_at(ls, k) - 1), t)
            &&& listing::listing_at(ls, k) is Some && listing::listing_at(ls, k + 1) is Some
                ==> out[p] == ls[k]
        }),
{
    let ls = text::lines(source);
    let t = text::trim(ls[k]);
    let s = super::run(ls.take(k));
    let u = super::run(ls.take(k + 1));
    let p = place(ls, k) as int;
    lemma_at(ls, k);
    lemma_at(ls, k + 1);
    lemma_blank(ls[k]);
    lemma_put_out(ls, k);
    lemma_closed_first(t);
    lemma_indented(super::less(s.depth, super::dedent(t)), t);
    lemma_indented(super::less(s.depth, 1), t);
    assert(u.out.len() == p + 1);
    let o = super::run(ls).out;
    assert(o[p] == u.out[p]);
    assert(o[p].len() > 0) by {
        if ls[k].len() == 0 {
            assert(is_blank(ls[k]));
        }
    }
    super::lemma_solid_stays(o, p);
}

/// A blank line outside listings is put out as an empty line at its place, where it is put
/// out and text follows; and the lines of a listing are put out blank or not.
pub proof fn law_blank_lines_are_kept_once(source: Seq<char>, k: int, m: int)
    requires
        0 <= k < m < text::lines(source).len(),
        is_blank(text::lines(source)[k]),
        !is_blank(text::lines(source)[m]),
    ensures
        ({
            let ls = text::lines(source);
            let out = super::formatted_lines(source);
            let p = place(ls, k) as int;
            &&& p <= place(ls, m) < out.len()
            &&& is_gap(ls, k) && place(ls, k + 1) > place(ls, k) ==> out[p].len() == 0
            &&& !is_gap(ls, k) ==> out[p] == ls[k]
        }),
{
    let ls = text::lines(source);
    let p = place(ls, k) as int;
    law_lines_are_indented_by_what_is_open(source, m);
    lemma_place_grows(ls, k, m);
    lemma_at(ls, k);
    lemma_at(ls, k + 1);
    lemma_blank(ls[k]);
    lemma_put_out(ls, k);
    let o = super::run(ls).out;
    super::lemma_without_trailing(o);
    let out = super::formatted_lines(source);
    assert(out[p] == o[p]);
    lemma_listing_lines(ls, k + 1);
    let u = super::run(ls.take(k + 1)).out;
    if u.len() > p {
        assert(o[p] == u[p]);
    }
}

proof fn lemma_place_grows(ls: Seq<Seq<char>>, k: int, m: int)
    requires
        0 <= k <= m <= ls.len(),
    ensures
        place(ls, k) <= place(ls, m),
    decreases m - k,
{
    if k < m {
        lemma_place_grows(ls, k, m - 1);
    }
}

/// A formatted source is its lines, each with a line feed behind it; an empty one is a
/// single line feed. Nothing is put out that has no place.
pub proof fn law_formatted_source_is_its_lines(source: Seq<char>)
    ensures
        ({
            let out = super::formatted_lines(source);
            &&& out.len() > 0 ==> super::formatted(source) == listing::rows(
                out,
                0,
                out.len() as int,
            )
            &&& out.len() == 0 ==> super::formatted(source) == seq!['\n']
            &&& out.len() <= place(text::lines(source), text::lines(source).len() as int)
        }),
{
    let ls = text::lines(source);
    let out = super::formatted_lines(source);
    if out.len() > 0 {
        listing::lemma_rows_joined(out);
    } else {
        assert(super::formatted(source) =~= seq!['\n']);
    }
    lemma_at(ls, ls.len() as int);
    assert(ls.take(ls.len() as int) =~= ls);
    super::lemma_without_trailing(super::run(ls).out);
}

} // verus!
