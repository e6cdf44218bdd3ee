//! What formatting leaves alone: the lines of a listing, from its `\begin` to its `\end`.

use vstd::prelude::*;

use crate::chars;
use crate::text;

verus! {

/// Whether a line begins with a tag, behind white space.
pub open spec fn has_tag(l: Seq<char>, tag: Seq<char>) -> bool {
    exists|i: int|
        0 <= i && i + tag.len() <= l.len() && #[trigger] l.subrange(i, i + tag.len()) == tag && (
        forall|j: int| 0 <= j < i ==> chars::is_space(#[trigger] l[j]))
}

/// Whether an environment holds a listing.
pub open spec fn is_listing(env: Seq<char>) -> bool {
    ||| env == seq!['v', 'e', 'r', 'b', 'a', 't', 'i', 'm']
    ||| env == seq!['V', 'e', 'r', 'b', 'a', 't', 'i', 'm']
    ||| env == seq!['l', 's', 't', 'l', 'i', 's', 't', 'i', 'n', 'g']
    ||| env == seq!['m', 'i', 'n', 't', 'e', 'd']
}

/// Whether a line opens a listing, whatever follows the brace.
pub open spec fn opens(l: Seq<char>, env: Seq<char>) -> bool {
    is_listing(env) && has_tag(l, "\\begin{"@ + env + "}"@)
}

/// Whether a line closes a listing.
pub open spec fn closes(l: Seq<char>, env: Seq<char>) -> bool {
    has_tag(l, "\\end{"@ + env + "}"@)
}

/// The listing in which the `k`-th line stands: the one that a line before it opened and
/// that no line since has closed.
pub open spec fn listing_at(ls: Seq<Seq<char>>, k: int) -> Option<Seq<char>>
    decreases k,
{
    if k <= 0 || k > ls.len() {
        None
    } else {
        match listing_at(ls, k - 1) {
            Some(env) => if closes(ls[k - 1], env) {
                None
            } else {
                Some(env)
            },
            None => if exists|env: Seq<char>| #[trigger] opens(ls[k - 1], env) {
                Some(choose|env: Seq<char>| #[trigger] opens(ls[k - 1], env))
            } else {
                None
            },
        }
    }
}

/// The lines from the `a`-th up to the `b`-th, each with a line feed behind it.
pub open spec fn rows(ls: Seq<Seq<char>>, a: int, b: int) -> Seq<char>
    decreases b - a,
{
    if b <= a {
        Seq::empty()
    } else {
        rows(ls, a, b - 1) + ls[b - 1] + seq!['\n']
    }
}

/// Whether a text is nothing but spaces.
pub open spec fn is_indent(u: Seq<char>) -> bool {
    forall|i: int| 0 <= i < u.len() ==> #[trigger] u[i] == ' '
}

// ---------------------------------------------------------------------------
// Tags
// ---------------------------------------------------------------------------

proof fn lemma_tag_of_start(l: Seq<char>, tag: Seq<char>)
    requires
        tag.len() > 0,
        !chars::is_space(tag[0]),
    ensures
        has_tag(l, tag) <==> text::starts_with(text::trim_start(l), tag),
{
    let t = text::trim_start(l);
    text::lemma_trim_start_len(l);
    let n = l.len() - t.len();
    if text::starts_with(t, tag) {
        assert(l.subrange(n, n + tag.len()) =~= t.subrange(0, tag.len() as int));
    }
    if has_tag(l, tag) {
        let i = choose|i: int|
            0 <= i && i + tag.len() <= l.len() && #[trigger] l.subrange(i, i + tag.len()) == tag && (
            forall|j: int| 0 <= j < i ==> chars::is_space(#[trigger] l[j]));
        assert(l.subrange(i, i + tag.len())[0] == l[i]);
        if i < n {
            assert(chars::is_space(l[i]));
        } else if n < i {
            assert(chars::is_space(l[n]));
            assert(t[0] == l[n]);
        }
        assert(t.subrange(0, tag.len() as int) =~= l.subrange(i, i + tag.len()));
    }
}

/// White space behind a tag makes no difference.
pub proof fn lemma_tag_of_trim(l: Seq<char>, tag: Seq<char>)
    requires
        tag.len() > 0,
        !chars::is_space(tag[0]),
        !chars::is_space(tag.last()),
    ensures
        has_tag(l, tag) <==> text::starts_with(text::trim(l), tag),
{
    lemma_tag_of_start(l, tag);
    let x = text::trim_start(l);
    let y = text::trim_end(x);
    text::lemma_trim_end_len(x);
    let n = tag.len() as int;
    if text::starts_with(y, tag) {
        assert(x.subrange(0, n) =~= y.subrange(0, n));
    }
    if text::starts_with(x, tag) {
        assert(x.subrange(0, n)[n - 1] == x[n - 1]);
        assert(tag[n - 1] == tag.last());
        assert(!chars::is_space(x[n - 1]));
        assert(y.len() >= n);
        assert(x.subrange(0, n) =~= y.subrange(0, n));
    }
}

proof fn lemma_listing_names(env: Seq<char>)
    ensures
        is_listing(env) <==> super::is_verbatim(env),
        is_listing(env) ==> !env.contains('}'),
{
    reveal_strlit("verbatim");
    reveal_strlit("Verbatim");
    reveal_strlit("lstlisting");
    reveal_strlit("minted");
    assert("verbatim"@ =~= seq!['v', 'e', 'r', 'b', 'a', 't', 'i', 'm']);
    assert("Verbatim"@ =~= seq!['V', 'e', 'r', 'b', 'a', 't', 'i', 'm']);
    assert("lstlisting"@ =~= seq!['l', 's', 't', 'l', 'i', 's', 't', 'i', 'n', 'g']);
    assert("minted"@ =~= seq!['m', 'i', 'n', 't', 'e', 'd']);
}

/// A trimmed line opens at most one listing: the one whose name stands in the braces.
proof fn lemma_opener(t: Seq<char>, env: Seq<char>)
    requires
        is_listing(env),
    ensures
        text::starts_with(t, "\\begin{"@ + env + "}"@) <==> super::opens_verbatim(t) == Some(env),
{
    reveal_strlit("\\begin{");
    reveal_strlit("}");
    let head = "\\begin{"@;
    let tag = head + env + "}"@;
    let n = head.len() as int;
    let m = env.len() as int;
    lemma_listing_names(env);
    text::lemma_find_bounds(t, head, 0);
    if text::starts_with(t, head) {
        assert(text::matches_at(t, 0, head));
        let rest = t.skip(n);
        text::lemma_find_char_bounds(rest, '}', 0);
        if text::starts_with(t, tag) {
            let w = t.subrange(0, tag.len() as int);
            assert(w == tag);
            assert forall|j: int| 0 <= j < m implies rest[j] == env[j] by {
                assert(w[n + j] == t[n + j]);
                assert(tag[n + j] == env[j]);
            }
            assert(w[n + m] == t[n + m]);
            assert(rest[m] == '}');
            let e = text::find_char(rest, '}')->0;
            if e < m {
                assert(env[e] == '}');
                assert(env.contains('}'));
            }
            assert(e == m);
            assert(rest.take(m) =~= env);
        }
        if super::opens_verbatim(t) == Some(env) {
            let e = text::find_char(rest, '}')->0;
            assert(rest.take(e) == env);
            assert(t.subrange(0, tag.len() as int) =~= tag) by {
                assert forall|j: int| 0 <= j < tag.len() implies t[j] == tag[j] by {
                    if j < n {
                        assert(t.subrange(0, n)[j] == t[j]);
                    } else if j < n + m {
                        assert(rest.take(e)[j - n] == t[j]);
                    } else {
                        assert(rest[e] == t[n + e]);
                    }
                }
            }
        }
    } else if text::starts_with(t, tag) {
        assert(t.subrange(0, n) =~= head) by {
            assert forall|j: int| 0 <= j < n implies t[j] == head[j] by {
                assert(t.subrange(0, tag.len() as int)[j] == t[j]);
            }
        }
    }
}

proof fn lemma_opens(l: Seq<char>, env: Seq<char>)
    ensures
        opens(l, env) <==> super::opens_verbatim(text::trim(l)) == Some(env),
        opens(l, env) ==> text::trim(l).len() > 0,
{
    lemma_listing_names(env);
    reveal_strlit("\\begin{");
    reveal_strlit("}");
    let tag = "\\begin{"@ + env + "}"@;
    assert(tag[0] == '\\');
    assert(tag.last() == '}');
    lemma_tag_of_trim(l, tag);
    if is_listing(env) {
        lemma_opener(text::trim(l), env);
    }
}

pub proof fn lemma_closes(l: Seq<char>, env: Seq<char>)
    ensures
        closes(l, env) <==> super::ends_verbatim(l, env),
        closes(l, env) ==> text::trim(l).len() > 0,
{
    reveal_strlit("\\end{");
    reveal_strlit("}");
    let tag = "\\end{"@ + env + "}"@;
    assert(tag[0] == '\\');
    assert(tag.last() == '}');
    lemma_tag_of_start(l, tag);
    lemma_tag_of_trim(l, tag);
}

pub proof fn lemma_listing_at(ls: Seq<Seq<char>>, k: int)
    requires
        0 <= k <= ls.len(),
    ensures
        super::run(ls.take(k)).verbatim == listing_at(ls, k),
    decreases k,
{
    if k == 0 {
        assert(ls.take(0) =~= Seq::<Seq<char>>::empty());
    } else {
        lemma_listing_at(ls, k - 1);
        assert(ls.take(k).drop_last() =~= ls.take(k - 1));
        let l = ls[k - 1];
        match listing_at(ls, k - 1) {
            Some(env) => {
                lemma_closes(l, env);
            },
            None => {
                if let Some(e) = super::opens_verbatim(text::trim(l)) {
                    lemma_opens(l, e);
                }
                if exists|env: Seq<char>| #[trigger] opens(l, env) {
                    let env = choose|env: Seq<char>| #[trigger] opens(l, env);
                    lemma_opens(l, env);
                }
            },
        }
    }
}

// ---------------------------------------------------------------------------
// Lines
// ---------------------------------------------------------------------------

proof fn lemma_inside(ls: Seq<Seq<char>>, a: int, k: int, env: Seq<char>)
    requires
        0 <= a < k <= ls.len(),
        listing_at(ls, a) is None,
        opens(ls[a], env),
        forall|j: int| a < j < k ==> !closes(#[trigger] ls[j], env),
    ensures
        super::run(ls.take(k)).verbatim == Some(env),
        exists|u: Seq<char>|
            is_indent(u) && super::run(ls.take(k)).out == super::run(ls.take(a)).out + seq![
                #[trigger] (u + text::trim(ls[a])),
            ] + ls.subrange(a + 1, k),
    decreases k,
{
    let l = ls[k - 1];
    assert(ls.take(k).drop_last() =~= ls.take(k - 1));
    if k == a + 1 {
        lemma_listing_at(ls, a);
        lemma_opens(l, env);
        let s = super::run(ls.take(a));
        let d = super::less(s.depth, super::dedent(text::trim(l)));
        let u = text::repeat("  "@, d);
        super::lemma_indent_spaces(d);
        assert(is_indent(u));
        assert(s.out.push(u + text::trim(l)) =~= s.out + seq![u + text::trim(l)] + ls.subrange(
            a + 1,
            k,
        ));
    } else {
        lemma_inside(ls, a, k - 1, env);
        assert(!closes(ls[k - 1], env));
        lemma_closes(l, env);
        let before = super::run(ls.take(a)).out;
        let u = choose|u: Seq<char>|
            is_indent(u) && super::run(ls.take(k - 1)).out == before + seq![
                #[trigger] (u + text::trim(ls[a])),
            ] + ls.subrange(a + 1, k - 1);
        let first = u + text::trim(ls[a]);
        assert(super::run(ls.take(k)).out =~= before + seq![first] + ls.subrange(a + 1, k));
    }
}

proof fn lemma_rows_split(ls: Seq<Seq<char>>, a: int, m: int, b: int)
    requires
        a <= m <= b,
    ensures
        rows(ls, a, b) == rows(ls, a, m) + rows(ls, m, b),
    decreases b - m,
{
    if m == b {
        assert(rows(ls, a, b) =~= rows(ls, a, m) + rows(ls, m, b));
    } else {
        lemma_rows_split(ls, a, m, b - 1);
        assert(rows(ls, a, b) =~= rows(ls, a, m) + rows(ls, m, b));
    }
}

proof fn lemma_rows_same(ls: Seq<Seq<char>>, a: int, b: int, ms: Seq<Seq<char>>, c: int)
    requires
        a <= b,
        forall|i: int| a <= i < b ==> #[trigger] ls[i] == ms[i - a + c],
    ensures
        rows(ls, a, b) == rows(ms, c, c + b - a),
    decreases b - a,
{
    if a < b {
        lemma_rows_same(ls, a, b - 1, ms, c);
        assert(ls[b - 1] == ms[b - 1 - a + c]);
    }
}

pub proof fn lemma_rows_joined(ls: Seq<Seq<char>>)
    requires
        ls.len() > 0,
    ensures
        text::join(ls, "\n"@).push('\n') == rows(ls, 0, ls.len() as int),
    decreases ls.len(),
{
    reveal_strlit("\n");
    let n = ls.len() as int;
    if n == 1 {
        assert(rows(ls, 0, 0) =~= Seq::<char>::empty());
        assert(text::join(ls, "\n"@).push('\n') =~= rows(ls, 0, 1));
    } else {
        let front = ls.drop_last();
        lemma_rows_joined(front);
        lemma_rows_same(ls, 0, n - 1, front, 0);
        assert(text::join(ls, "\n"@).push('\n') =~= rows(ls, 0, n));
    }
}

proof fn lemma_rows_end(ls: Seq<Seq<char>>, b: int)
    ensures
        rows(ls, 0, b).len() > 0 ==> rows(ls, 0, b).last() == '\n',
{
}

/// Whether a text holds lines between a first and a last one: on rows of their own, the
/// first and the last one with some indent before them.
pub open spec fn holds_listing(
    out: Seq<char>,
    first: Seq<char>,
    between: Seq<char>,
    last: Seq<char>,
) -> bool {
    exists|x: Seq<char>, u: Seq<char>, v: Seq<char>, y: Seq<char>|
        is_indent(u) && is_indent(v) && (x.len() == 0 || x.last() == '\n') && out == #[trigger] (x + u
            + first + seq!['\n'] + between + v + last + seq!['\n'] + y)
}

proof fn lemma_five(x: Seq<char>, f: Seq<char>, m: Seq<char>, l: Seq<char>, y: Seq<char>)
    ensures
        x + (f + (m + (l + y))) == x + f + m + l + y,
{
    assert(x + (f + (m + (l + y))) =~= x + f + m + l + y);
}

proof fn lemma_listing_text(
    p: Seq<Seq<char>>,
    c: int,
    e: int,
    u: Seq<char>,
    first: Seq<char>,
    v: Seq<char>,
    last: Seq<char>,
)
    requires
        0 <= c < e < p.len(),
        p[c] == u + first,
        p[e] == v + last,
        is_indent(u),
        is_indent(v),
    ensures
        holds_listing(text::join(p, "\n"@).push('\n'), first, rows(p, c + 1, e), last),
{
    let n = p.len() as int;
    let feed = seq!['\n'];
    lemma_rows_joined(p);
    lemma_rows_split(p, 0, c, n);
    lemma_rows_split(p, c, c + 1, n);
    lemma_rows_split(p, c + 1, e, n);
    lemma_rows_split(p, e, e + 1, n);
    lemma_one_row(p, c);
    lemma_one_row(p, e);
    let x = rows(p, 0, c);
    let m = rows(p, c + 1, e);
    let y = rows(p, e + 1, n);
    lemma_rows_end(p, c);
    lemma_five(x, p[c] + feed, m, p[e] + feed, y);
    assert(x + (p[c] + feed) + m + (p[e] + feed) + y =~= x + u + first + feed + m + v + last + feed
        + y);
}

proof fn lemma_one_row(p: Seq<Seq<char>>, c: int)
    ensures
        rows(p, c, c + 1) == p[c] + seq!['\n'],
{
    assert(rows(p, c, c) =~= Seq::<char>::empty());
    assert(rows(p, c, c + 1) =~= p[c] + seq!['\n']);
}

/// A listing passes through formatting character for character: where a line outside any
/// listing begins with `\begin{..}`, whatever follows, the lines behind it come out as they
/// are, and in one piece, up to the first that begins with the `\end{..}` of it.
pub proof fn law_listings_are_untouched(source: Seq<char>, a: int, b: int, env: Seq<char>)
    requires
        0 <= a < b < text::lines(source).len(),
        listing_at(text::lines(source), a) is None,
        opens(text::lines(source)[a], env),
        forall|j: int| a < j < b ==> !closes(#[trigger] text::lines(source)[j], env),
        closes(text::lines(source)[b], env),
    ensures
        holds_listing(
            super::formatted(source),
            text::trim(text::lines(source)[a]),
            rows(text::lines(source), a + 1, b),
            text::trim(text::lines(source)[b]),
        ),
{
    let ls = text::lines(source);
    let before = super::run(ls.take(a)).out;
    let s = super::run(ls.take(b));
    lemma_inside(ls, a, b, env);
    let u = choose|u: Seq<char>|
        is_indent(u) && s.out == before + seq![#[trigger] (u + text::trim(ls[a]))] + ls.subrange(
            a + 1,
            b,
        );
    let first = u + text::trim(ls[a]);
    lemma_closes(ls[b], env);
    assert(ls.take(b + 1).drop_last() =~= ls.take(b));
    let d = super::less(s.depth, 1);
    let v = text::repeat("  "@, d);
    super::lemma_indent_spaces(d);
    let last = v + text::trim(ls[b]);
    let here = super::run(ls.take(b + 1)).out;
    assert(here =~= s.out.push(last));
    let o = super::run(ls).out;
    super::lemma_out_grows(ls, b + 1);
    let p = super::formatted_lines(source);
    let c = before.len() as int;
    let e = c + (b - a);
    assert(here.len() == e + 1);
    assert(o.take(e + 1)[e] == o[e]);
    assert(o[e] == last);
    super::lemma_solid_stays(o, e);
    super::lemma_without_trailing(o);
    assert forall|i: int| 0 <= i <= e implies #[trigger] p[i] == here[i] by {
        assert(o.take(e + 1)[i] == o[i]);
        assert(p[i] == o[i]);
    }
    assert(p[c] == first);
    assert(p[e] == last);
    assert forall|i: int| a + 1 <= i < b implies #[trigger] ls[i] == p[i - (a + 1) + (c + 1)] by {
        assert(p[i - a + c] == here[i - a + c]);
        assert(ls.subrange(a + 1, b)[i - a - 1] == ls[i]);
    }
    lemma_rows_same(ls, a + 1, b, p, c + 1);
    lemma_listing_text(p, c, e, u, text::trim(ls[a]), v, text::trim(ls[b]));
}

/// Whether a text holds lines behind a first one, which has some indent before it.
pub open spec fn holds_rows(out: Seq<char>, first: Seq<char>, behind: Seq<char>) -> bool {
    exists|x: Seq<char>, u: Seq<char>, y: Seq<char>|
        is_indent(u) && (x.len() == 0 || x.last() == '\n') && out == #[trigger] (x + u + first + seq![
            '\n',
        ] + behind + y)
}

proof fn lemma_rows_text(
    p: Seq<Seq<char>>,
    c: int,
    e: int,
    u: Seq<char>,
    first: Seq<char>,
)
    requires
        0 <= c < e < p.len(),
        p[c] == u + first,
        is_indent(u),
    ensures
        holds_rows(text::join(p, "\n"@).push('\n'), first, rows(p, c + 1, e + 1)),
{
    let n = p.len() as int;
    let feed = seq!['\n'];
    lemma_rows_joined(p);
    lemma_rows_split(p, 0, c, n);
    lemma_rows_split(p, c, c + 1, n);
    lemma_rows_split(p, c + 1, e + 1, n);
    lemma_one_row(p, c);
    let x = rows(p, 0, c);
    let m = rows(p, c + 1, e + 1);
    let y = rows(p, e + 1, n);
    lemma_rows_end(p, c);
    assert(x + ((p[c] + feed) + (m + y)) =~= x + u + first + feed + m + y);
}

/// The same of a listing that is never closed, up to its last line that is not empty.
pub proof fn law_open_listings_are_untouched(source: Seq<char>, a: int, b: int, env: Seq<char>)
    requires
        0 <= a < b < text::lines(source).len(),
        listing_at(text::lines(source), a) is None,
        opens(text::lines(source)[a], env),
        forall|j: int| a < j <= b ==> !closes(#[trigger] text::lines(source)[j], env),
        text::lines(source)[b].len() > 0,
    ensures
        holds_rows(
            super::formatted(source),
            text::trim(text::lines(source)[a]),
            rows(text::lines(source), a + 1, b + 1),
        ),
{
    let ls = text::lines(source);
    let before = super::run(ls.take(a)).out;
    let here = super::run(ls.take(b + 1)).out;
    lemma_inside(ls, a, b + 1, env);
    let u = choose|u: Seq<char>|
        is_indent(u) && here == before + seq![#[trigger] (u + text::trim(ls[a]))] + ls.subrange(
            a + 1,
            b + 1,
        );
    let o = super::run(ls).out;
    super::lemma_out_grows(ls, b + 1);
    let p = super::formatted_lines(source);
    let c = before.len() as int;
    let e = c + (b - a);
    assert(here.len() == e + 1);
    assert(o.take(e + 1)[e] == o[e]);
    assert(here[e] == ls.subrange(a + 1, b + 1)[b - a - 1]);
    assert(o[e] == ls[b]);
    super::lemma_solid_stays(o, e);
    super::lemma_without_trailing(o);
    assert forall|i: int| 0 <= i <= e implies #[trigger] p[i] == here[i] by {
        assert(o.take(e + 1)[i] == o[i]);
        assert(p[i] == o[i]);
    }
    assert forall|i: int| a + 1 <= i < b + 1 implies #[trigger] ls[i] == p[i - (a + 1) + (c + 1)] by {
        assert(p[i - a + c] == here[i - a + c]);
        assert(ls.subrange(a + 1, b + 1)[i - a - 1] == ls[i]);
    }
    lemma_rows_same(ls, a + 1, b + 1, p, c + 1);
    lemma_rows_text(p, c, e, u, text::trim(ls[a]));
}

} // verus!
