//! When the environments of a file are in order: what they nest in, and what is told where
//! they do not.

use vstd::prelude::*;

use super::checks::{self, Nesting};
use super::{FindingView, Severity};
use crate::text;
use crate::texutil;

verus! {

/// A `\begin` or an `\end`, the name of its environment, and its line.
pub struct Tag {
    pub begins: bool,
    pub name: Seq<char>,
    pub line: int,
}

/// The tags with the given names on a line.
pub open spec fn tags(names: Seq<Seq<char>>, begins: bool, line: int) -> Seq<Tag> {
    Seq::new(names.len(), |k: int| Tag { begins, name: names[k], line })
}

/// The tags of a line: where it is no comment, its `\begin`s and then its `\end`s.
pub open spec fn line_tags(l: Seq<char>, line: int) -> Seq<Tag> {
    if text::starts_with(text::trim(l), "%"@) {
        Seq::empty()
    } else {
        tags(texutil::commands_in(text::trim(l), "begin"@), true, line) + tags(
            texutil::commands_in(text::trim(l), "end"@),
            false,
            line,
        )
    }
}

/// The tags of the first `k` lines.
pub open spec fn tags_of(ls: Seq<Seq<char>>, k: int) -> Seq<Tag>
    decreases k,
{
    if k <= 0 || k > ls.len() {
        Seq::empty()
    } else {
        tags_of(ls, k - 1) + line_tags(ls[k - 1], k)
    }
}

/// The tags of a file.
pub open spec fn file_tags(content: Seq<char>) -> Seq<Tag> {
    tags_of(text::lines(content), text::lines(content).len() as int)
}

/// By how much the `\begin`s outnumber the `\end`s among the first `n` tags.
pub open spec fn depth(ts: Seq<Tag>, n: int) -> int
    decreases n,
{
    if n <= 0 {
        0
    } else if ts[n - 1].begins {
        depth(ts, n - 1) + 1
    } else {
        depth(ts, n - 1) - 1
    }
}

/// Whether what the `i`-th tag begins is not closed before the `n`-th.
pub open spec fn stays_open(ts: Seq<Tag>, i: int, n: int) -> bool {
    ts[i].begins && forall|k: int| i < k <= n ==> depth(ts, i) < #[trigger] depth(ts, k)
}

/// Whether the `i`-th tag is the innermost `\begin` that is open before the `j`-th: what
/// stands between the two is balanced and never closes it.
pub open spec fn is_innermost(ts: Seq<Tag>, i: int, j: int) -> bool {
    0 <= i < j && stays_open(ts, i, j) && depth(ts, j) == depth(ts, i) + 1
}

/// Whether the `\end` at `j` has the name of the innermost `\begin` that is open.
pub open spec fn is_matched(ts: Seq<Tag>, j: int) -> bool {
    exists|i: int| #[trigger] is_innermost(ts, i, j) && ts[i].name == ts[j].name
}

/// Whether every `\end` among the first `n` tags is matched.
pub open spec fn are_matched(ts: Seq<Tag>, n: int) -> bool {
    forall|j: int| 0 <= j < n && !(#[trigger] ts[j]).begins ==> is_matched(ts, j)
}

/// Whether environments are well nested: every `\end` is matched, at any depth, and none
/// is open at the end.
pub open spec fn is_well_nested(ts: Seq<Tag>) -> bool {
    are_matched(ts, ts.len() as int) && depth(ts, ts.len() as int) == 0
}

// ---------------------------------------------------------------------------
// Tag by tag
// ---------------------------------------------------------------------------

/// The state after a tag.
spec fn after_tag(s: Nesting, rel: Seq<char>, t: Tag) -> Nesting {
    if t.begins {
        Nesting { open: s.open.push((t.name, t.line)), ..s }
    } else {
        checks::after_end(s, rel, t.line, t.name)
    }
}

/// The state after the first `n` tags.
spec fn after_tags(s: Nesting, rel: Seq<char>, ts: Seq<Tag>, n: int) -> Nesting
    decreases n,
{
    if n <= 0 || n > ts.len() {
        s
    } else {
        after_tag(after_tags(s, rel, ts, n - 1), rel, ts[n - 1])
    }
}

spec fn nothing_open() -> Nesting {
    Nesting { open: Seq::empty(), findings: Seq::empty() }
}

proof fn lemma_tags_join(s: Nesting, rel: Seq<char>, a: Seq<Tag>, b: Seq<Tag>, n: int)
    requires
        0 <= n <= a.len() + b.len(),
    ensures
        n <= a.len() ==> after_tags(s, rel, a + b, n) == after_tags(s, rel, a, n),
        n >= a.len() ==> after_tags(s, rel, a + b, n) == after_tags(
            after_tags(s, rel, a, a.len() as int),
            rel,
            b,
            n - a.len(),
        ),
    decreases n,
{
    if n > 0 {
        lemma_tags_join(s, rel, a, b, n - 1);
        if n <= a.len() {
            assert((a + b)[n - 1] == a[n - 1]);
        } else {
            assert((a + b)[n - 1] == b[n - 1 - a.len()]);
        }
    }
}

proof fn lemma_begins(s: Nesting, rel: Seq<char>, names: Seq<Seq<char>>, line: int, n: int)
    requires
        0 <= n <= names.len(),
    ensures
        after_tags(s, rel, tags(names, true, line), n) == (Nesting {
            open: s.open + checks::opened(names, line).take(n),
            ..s
        }),
    decreases n,
{
    let o = checks::opened(names, line);
    if n == 0 {
        assert(s.open + o.take(0) =~= s.open);
    } else {
        lemma_begins(s, rel, names, line, n - 1);
        assert(s.open + o.take(n) =~= (s.open + o.take(n - 1)).push(o[n - 1]));
    }
}

proof fn lemma_ends(s: Nesting, rel: Seq<char>, names: Seq<Seq<char>>, line: int, n: int)
    requires
        0 <= n <= names.len(),
    ensures
        checks::after_ends(after_tags(s, rel, tags(names, false, line), n), rel, line, names, n)
            == checks::after_ends(s, rel, line, names, 0),
    decreases n,
{
    if n > 0 {
        lemma_ends(s, rel, names, line, n - 1);
    }
}

proof fn lemma_line(s: Nesting, rel: Seq<char>, l: Seq<char>, line: int)
    ensures
        checks::after_line(s, rel, line, l) == after_tags(
            s,
            rel,
            line_tags(l, line),
            line_tags(l, line).len() as int,
        ),
{
    reveal_strlit("%");
    let t = text::trim(l);
    if t.len() > 0 {
        assert(t.subrange(0, 1)[0] == t[0]);
        if t[0] == '%' {
            assert(t.subrange(0, 1) =~= "%"@);
        }
    }
    if !text::starts_with(t, "%"@) {
        let begins = texutil::commands_in(t, "begin"@);
        let ends = texutil::commands_in(t, "end"@);
        let a = tags(begins, true, line);
        let b = tags(ends, false, line);
        lemma_tags_join(s, rel, a, b, (a.len() + b.len()) as int);
        lemma_begins(s, rel, begins, line, begins.len() as int);
        assert(checks::opened(begins, line).take(begins.len() as int) =~= checks::opened(
            begins,
            line,
        ));
        let m = after_tags(s, rel, a, a.len() as int);
        lemma_ends(m, rel, ends, line, ends.len() as int);
    }
}

proof fn lemma_lines(rel: Seq<char>, ls: Seq<Seq<char>>, k: int)
    requires
        0 <= k <= ls.len(),
    ensures
        checks::after_lines(
            after_tags(nothing_open(), rel, tags_of(ls, k), tags_of(ls, k).len() as int),
            rel,
            ls,
            k,
        ) == checks::after_lines(nothing_open(), rel, ls, 0),
    decreases k,
{
    if k > 0 {
        lemma_lines(rel, ls, k - 1);
        let before = tags_of(ls, k - 1);
        let here = line_tags(ls[k - 1], k);
        lemma_tags_join(nothing_open(), rel, before, here, (before.len() + here.len()) as int);
        lemma_line(
            after_tags(nothing_open(), rel, before, before.len() as int),
            rel,
            ls[k - 1],
            k,
        );
    }
}

/// The state at the end of a file, tag by tag.
spec fn at_end(rel: Seq<char>, content: Seq<char>) -> Nesting {
    after_tags(nothing_open(), rel, file_tags(content), file_tags(content).len() as int)
}

proof fn lemma_findings(rel: Seq<char>, content: Seq<char>)
    ensures
        checks::environment_findings(rel, content) == at_end(rel, content).findings + Seq::new(
            at_end(rel, content).open.len(),
            |k: int| checks::never_closed(rel, at_end(rel, content).open[k]),
        ),
{
    let ls = text::lines(content);
    lemma_lines(rel, ls, ls.len() as int);
    assert(checks::environment_findings(rel, content) =~= at_end(rel, content).findings + Seq::new(
        at_end(rel, content).open.len(),
        |k: int| checks::never_closed(rel, at_end(rel, content).open[k]),
    ));
}

// ---------------------------------------------------------------------------
// Nesting
// ---------------------------------------------------------------------------

/// Whether the open environments after `n` tags are those whose `\begin` is not closed.
spec fn is_stack(ts: Seq<Tag>, n: int, open: Seq<(Seq<char>, int)>, at: Seq<int>) -> bool {
    &&& open.len() == at.len() == depth(ts, n)
    &&& forall|m: int|
        0 <= m < at.len() ==> {
            &&& 0 <= #[trigger] at[m] < n
            &&& stays_open(ts, at[m], n)
            &&& open[m] == (ts[at[m]].name, ts[at[m]].line)
            &&& depth(ts, at[m]) == m
        }
}

proof fn lemma_one_innermost(ts: Seq<Tag>, i: int, p: int, j: int)
    requires
        is_innermost(ts, i, j),
        is_innermost(ts, p, j),
    ensures
        i == p,
{
    if i < p {
        assert(depth(ts, i) < depth(ts, p));
    } else if p < i {
        assert(depth(ts, p) < depth(ts, i));
    }
}

proof fn lemma_stack_push(ts: Seq<Tag>, n: int, open: Seq<(Seq<char>, int)>, at: Seq<int>)
    requires
        0 < n <= ts.len(),
        ts[n - 1].begins,
        is_stack(ts, n - 1, open, at),
    ensures
        is_stack(ts, n, open.push((ts[n - 1].name, ts[n - 1].line)), at.push(n - 1)),
{
    let now = at.push(n - 1);
    let o = open.push((ts[n - 1].name, ts[n - 1].line));
    assert forall|m: int| 0 <= m < now.len() implies {
        &&& 0 <= #[trigger] now[m] < n
        &&& stays_open(ts, now[m], n)
        &&& o[m] == (ts[now[m]].name, ts[now[m]].line)
        &&& depth(ts, now[m]) == m
    } by {
        if m < at.len() {
            assert(now[m] == at[m]);
            assert(stays_open(ts, at[m], n - 1));
        }
    }
}

proof fn lemma_stack_pop(ts: Seq<Tag>, n: int, open: Seq<(Seq<char>, int)>, at: Seq<int>)
    requires
        0 < n <= ts.len(),
        !ts[n - 1].begins,
        at.len() > 0,
        is_stack(ts, n - 1, open, at),
    ensures
        is_stack(ts, n, open.drop_last(), at.drop_last()),
{
    let now = at.drop_last();
    let o = open.drop_last();
    assert forall|m: int| 0 <= m < now.len() implies {
        &&& 0 <= #[trigger] now[m] < n
        &&& stays_open(ts, now[m], n)
        &&& o[m] == (ts[now[m]].name, ts[now[m]].line)
        &&& depth(ts, now[m]) == m
    } by {
        assert(now[m] == at[m]);
        assert(stays_open(ts, at[m], n - 1));
    }
}

/// What was opened last and not closed is the innermost.
proof fn lemma_top(ts: Seq<Tag>, j: int, open: Seq<(Seq<char>, int)>, at: Seq<int>)
    requires
        is_stack(ts, j, open, at),
        at.len() > 0,
    ensures
        is_innermost(ts, at.last(), j),
        open.last() == (ts[at.last()].name, ts[at.last()].line),
{
    let top = at.len() - 1;
    assert(at[top] == at.last());
}

/// An `\end` is matched if and only if something is open and has its name.
proof fn lemma_end(rel: Seq<char>, ts: Seq<Tag>, j: int, open: Seq<(Seq<char>, int)>, at: Seq<int>)
    requires
        0 <= j < ts.len(),
        are_matched(ts, j),
        is_stack(ts, j, open, at),
    ensures
        is_matched(ts, j) <==> open.len() > 0 && open.last().0 == ts[j].name,
    decreases j, 2int,
{
    if open.len() > 0 {
        lemma_top(ts, j, open, at);
    }
    if is_matched(ts, j) {
        let i = choose|i: int| #[trigger] is_innermost(ts, i, j) && ts[i].name == ts[j].name;
        lemma_depths(rel, ts, j, i);
        assert(open.len() > 0);
        lemma_one_innermost(ts, i, at.last(), j);
    }
}

proof fn lemma_matched_step(ts: Seq<Tag>, n: int)
    requires
        0 < n <= ts.len(),
    ensures
        are_matched(ts, n) <==> are_matched(ts, n - 1) && (ts[n - 1].begins || is_matched(
            ts,
            n - 1,
        )),
{
    if are_matched(ts, n) {
        assert forall|j: int| 0 <= j < n - 1 && !(#[trigger] ts[j]).begins implies is_matched(
            ts,
            j,
        ) by {}
        if !ts[n - 1].begins {
            assert(is_matched(ts, n - 1));
        }
    }
}

/// As long as every `\end` is matched nothing is told, and what is open is what was not
/// closed; and where nothing is told every `\end` is matched.
proof fn lemma_stack(rel: Seq<char>, ts: Seq<Tag>, n: int) -> (at: Seq<int>)
    requires
        0 <= n <= ts.len(),
    ensures
        after_tags(nothing_open(), rel, ts, n).findings.len() == 0 <==> are_matched(ts, n),
        are_matched(ts, n) ==> is_stack(
            ts,
            n,
            after_tags(nothing_open(), rel, ts, n).open,
            at,
        ),
    decreases n, 0int,
{
    if n == 0 {
        Seq::empty()
    } else {
        let before = lemma_stack(rel, ts, n - 1);
        lemma_matched_step(ts, n);
        let s = after_tags(nothing_open(), rel, ts, n - 1);
        if !are_matched(ts, n - 1) {
            Seq::empty()
        } else if ts[n - 1].begins {
            lemma_stack_push(ts, n, s.open, before);
            before.push(n - 1)
        } else {
            lemma_end(rel, ts, n - 1, s.open, before);
            if is_matched(ts, n - 1) {
                lemma_stack_pop(ts, n, s.open, before);
            }
            before.drop_last()
        }
    }
}

/// Where every `\end` before `n` is matched, no more environments were closed than opened.
proof fn lemma_depths(rel: Seq<char>, ts: Seq<Tag>, n: int, i: int)
    requires
        0 <= i <= n <= ts.len(),
        are_matched(ts, n),
    ensures
        depth(ts, i) >= 0,
    decreases n, 1int,
{
    assert(are_matched(ts, i));
    let at = lemma_stack(rel, ts, i);
}

// ---------------------------------------------------------------------------
// Laws
// ---------------------------------------------------------------------------

/// Nothing is told about the environments of a file if and only if they are well nested.
pub proof fn law_silent_where_well_nested(rel: Seq<char>, content: Seq<char>)
    ensures
        checks::environment_findings(rel, content).len() == 0 <==> is_well_nested(
            file_tags(content),
        ),
{
    let ts = file_tags(content);
    let n = ts.len() as int;
    lemma_findings(rel, content);
    let at = lemma_stack(rel, ts, n);
}

proof fn lemma_findings_stay(s: Nesting, rel: Seq<char>, ts: Seq<Tag>, n: int, k: int)
    requires
        0 <= k <= n <= ts.len(),
    ensures
        after_tags(s, rel, ts, k).findings.is_prefix_of(after_tags(s, rel, ts, n).findings),
    decreases n - k,
{
    let a = after_tags(s, rel, ts, k).findings;
    let b = after_tags(s, rel, ts, n).findings;
    if k < n {
        lemma_findings_stay(s, rel, ts, n - 1, k);
        let m = after_tags(s, rel, ts, n - 1).findings;
        assert(b.subrange(0, a.len() as int) =~= m.subrange(0, a.len() as int));
    } else {
        assert(a =~= b.subrange(0, a.len() as int));
    }
}

/// Whether findings hold an error with a message on a line of a file.
pub open spec fn tells(
    findings: Seq<FindingView>,
    rel: Seq<char>,
    line: int,
    message: Seq<char>,
) -> bool {
    exists|k: int|
        0 <= k < findings.len() && (#[trigger] findings[k]).file == rel && findings[k].line == line
            && findings[k].message == message && findings[k].severity == Severity::Error
}

/// The first `\end` that is not matched is told, on its line: that it does not match the
/// innermost `\begin` that is open, or that none is.
pub proof fn law_first_unmatched_end_is_told(rel: Seq<char>, content: Seq<char>, i: int, j: int)
    requires
        0 <= j < file_tags(content).len(),
        !file_tags(content)[j].begins,
        are_matched(file_tags(content), j),
    ensures
        ({
            let ts = file_tags(content);
            let found = checks::environment_findings(rel, content);
            &&& is_innermost(ts, i, j) && ts[i].name != ts[j].name ==> tells(
                found,
                rel,
                ts[j].line,
                "\\end{"@ + ts[j].name + "} does not match \\begin{"@ + ts[i].name + "}"@,
            )
            &&& depth(ts, j) == 0 ==> tells(
                found,
                rel,
                ts[j].line,
                "\\end{"@ + ts[j].name + "} without matching \\begin"@,
            )
        }),
{
    let ts = file_tags(content);
    let n = ts.len() as int;
    let found = checks::environment_findings(rel, content);
    lemma_findings(rel, content);
    let at = lemma_stack(rel, ts, j);
    let s = after_tags(nothing_open(), rel, ts, j);
    let u = after_tags(nothing_open(), rel, ts, j + 1);
    lemma_findings_stay(nothing_open(), rel, ts, n, j + 1);
    let last = after_tags(nothing_open(), rel, ts, n).findings;
    if is_innermost(ts, i, j) && ts[i].name != ts[j].name {
        lemma_depths(rel, ts, j, i);
        lemma_top(ts, j, s.open, at);
        lemma_one_innermost(ts, i, at.last(), j);
        assert(u.findings.len() == 1);
        assert(last[0] == u.findings[0]);
        assert(found[0] == u.findings[0]);
    }
    if depth(ts, j) == 0 {
        assert(u.findings.len() == 1);
        assert(last[0] == u.findings[0]);
        assert(found[0] == u.findings[0]);
    }
}

/// An environment that is still open at the end of a file in which every `\end` is matched
/// is told on the line of its `\begin`.
pub proof fn law_open_environments_are_told(rel: Seq<char>, content: Seq<char>, i: int)
    requires
        are_matched(file_tags(content), file_tags(content).len() as int),
        0 <= i < file_tags(content).len(),
        stays_open(file_tags(content), i, file_tags(content).len() as int),
    ensures
        tells(
            checks::environment_findings(rel, content),
            rel,
            file_tags(content)[i].line,
            "\\begin{"@ + file_tags(content)[i].name + "} never closed"@,
        ),
{
    let ts = file_tags(content);
    let n = ts.len() as int;
    let found = checks::environment_findings(rel, content);
    lemma_findings(rel, content);
    let at = lemma_stack(rel, ts, n);
    lemma_depths(rel, ts, n, i);
    let m = depth(ts, i);
    assert(m < depth(ts, n));
    let p = at[m];
    if p < i {
        assert(depth(ts, p) < depth(ts, i));
    } else if i < p {
        assert(depth(ts, i) < depth(ts, p));
    }
    assert(p == i);
    assert(found[m] == checks::never_closed(rel, at_end(rel, content).open[m]));
}

} // verus!
