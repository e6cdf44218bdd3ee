//! LaTeX code formatter.
//!
//! One canonical output regardless of input style: lines are indented by nesting level
//! (environments and unbalanced braces), trailing white space is trimmed, and runs of
//! blank lines are collapsed. Paragraph text is never reflowed, and the contents of
//! verbatim environments are left alone.

pub mod bib;
pub mod canon;
pub mod layout;
pub mod listing;
pub mod roundtrip;
pub mod tidy;

use vstd::prelude::*;

use crate::chars;
use crate::text::{self, chars_of, string_of};

verus! {

/// An environment whose content is passed through untouched.
pub open spec fn is_verbatim(env: Seq<char>) -> bool {
    env == "verbatim"@ || env == "lstlisting"@ || env == "minted"@ || env == "Verbatim"@
}

/// The number of closing braces and brackets at the start of a line.
pub open spec fn leading_closers(line: Seq<char>) -> nat
    decreases line.len(),
{
    if line.len() > 0 && (line[0] == '}' || line[0] == ']') {
        1 + leading_closers(line.skip(1))
    } else {
        0
    }
}

/// How many levels a line moves left before it is placed, by the closers it begins with.
pub open spec fn dedent(line: Seq<char>) -> nat {
    if text::starts_with(line, "\\end{"@) {
        1
    } else {
        leading_closers(line)
    }
}

/// The balance of the braces and brackets of a line from `i` on. A character behind a
/// backslash does not count, and a `%` ends the line.
pub open spec fn balance(line: Seq<char>, i: int) -> int
    decreases line.len() + 1 - i,
{
    if i < 0 || i >= line.len() || line[i] == '%' {
        0
    } else if line[i] == '\\' {
        balance(line, i + 2)
    } else if line[i] == '{' || line[i] == '[' {
        1 + balance(line, i + 1)
    } else if line[i] == '}' || line[i] == ']' {
        balance(line, i + 1) - 1
    } else {
        balance(line, i + 1)
    }
}

/// The nesting that a line adds: its `\begin`s less its `\end`s, and the balance of its
/// braces and brackets.
pub open spec fn delta(line: Seq<char>) -> int {
    text::count(line, "\\begin{"@) - text::count(line, "\\end{"@) + balance(line, 0)
}

/// The name of the first environment that a line begins.
pub open spec fn env_name(line: Seq<char>) -> Option<Seq<char>> {
    match text::find(line, "\\begin{"@) {
        Some(k) => {
            let rest = line.skip(k + "\\begin{"@.len());
            match text::find_char(rest, '}') {
                Some(e) => Some(rest.take(e)),
                None => None,
            }
        },
        None => None,
    }
}

/// The verbatim environment that a line opens.
pub open spec fn opens_verbatim(line: Seq<char>) -> Option<Seq<char>> {
    if text::starts_with(line, "\\begin{"@) {
        match env_name(line) {
            Some(e) => if is_verbatim(e) {
                Some(e)
            } else {
                None
            },
            None => None,
        }
    } else {
        None
    }
}

/// A line at a nesting level.
pub open spec fn indented(depth: nat, content: Seq<char>) -> Seq<char> {
    text::repeat("  "@, depth) + content
}

/// `a - b`, but not below zero.
pub open spec fn less(a: nat, b: nat) -> nat {
    if a >= b {
        (a - b) as nat
    } else {
        0
    }
}

/// The formatter on its way: the lines put out, the nesting level, whether the last line
/// was blank, and the verbatim environment that is open.
#[verifier::ext_equal]
pub struct State {
    pub out: Seq<Seq<char>>,
    pub depth: nat,
    pub blank: bool,
    pub verbatim: Option<Seq<char>>,
}

/// The formatter at the start.
pub open spec fn start() -> State {
    State { out: Seq::empty(), depth: 0, blank: false, verbatim: None }
}

/// Whether a line ends a verbatim environment.
pub open spec fn ends_verbatim(line: Seq<char>, env: Seq<char>) -> bool {
    text::starts_with(text::trim_start(line), "\\end{"@ + env + "}"@)
}

/// The formatter after a line. A line of a verbatim environment is put out as it is, up
/// to its `\end`. Elsewhere only the first of a run of blank lines is put out, and none
/// at the start.
pub open spec fn after(s: State, line: Seq<char>) -> State {
    match s.verbatim {
        Some(env) => if ends_verbatim(line, env) {
            State {
                out: s.out.push(indented(less(s.depth, 1), text::trim(line))),
                depth: less(s.depth, 1),
                verbatim: None,
                ..s
            }
        } else {
            State { out: s.out.push(line), ..s }
        },
        None => {
            let t = text::trim(line);
            if t.len() == 0 {
                State {
                    out: if !s.blank && s.out.len() > 0 {
                        s.out.push(Seq::empty())
                    } else {
                        s.out
                    },
                    blank: true,
                    ..s
                }
            } else {
                let out = s.out.push(indented(less(s.depth, dedent(t)), t));
                match opens_verbatim(t) {
                    Some(env) => State {
                        out,
                        depth: s.depth + 1,
                        blank: false,
                        verbatim: Some(env),
                    },
                    None => State {
                        out,
                        depth: if s.depth + delta(t) > 0 {
                            (s.depth + delta(t)) as nat
                        } else {
                            0
                        },
                        blank: false,
                        verbatim: None,
                    },
                }
            }
        },
    }
}

/// The formatter after the first lines.
pub open spec fn run(ls: Seq<Seq<char>>) -> State
    decreases ls.len(),
{
    if ls.len() == 0 {
        start()
    } else {
        after(run(ls.drop_last()), ls.last())
    }
}

/// Lines without the empty ones at the end.
pub open spec fn without_trailing(ls: Seq<Seq<char>>) -> Seq<Seq<char>>
    decreases ls.len(),
{
    if ls.len() > 0 && ls.last().len() == 0 {
        without_trailing(ls.drop_last())
    } else {
        ls
    }
}

/// The lines of the formatted source.
pub open spec fn formatted_lines(source: Seq<char>) -> Seq<Seq<char>> {
    without_trailing(run(text::lines(source)).out)
}

/// The formatted source: its lines, and a single line feed at the end.
pub open spec fn formatted(source: Seq<char>) -> Seq<char> {
    text::join(formatted_lines(source), "\n"@).push('\n')
}

// ---------------------------------------------------------------------------
// Laws
// ---------------------------------------------------------------------------

/// Whether a line holds no line feed.
pub open spec fn is_one_line(l: Seq<char>) -> bool {
    !l.contains('\n')
}

/// Whether a line ends with a carriage return.
pub open spec fn ends_with_cr(l: Seq<char>) -> bool {
    l.len() > 0 && l.last() == '\r'
}

proof fn lemma_indent_spaces(n: nat)
    ensures
        forall|i: int|
            0 <= i < text::repeat("  "@, n).len() ==> #[trigger] text::repeat("  "@, n)[i] == ' ',
    decreases n,
{
    reveal_strlit("  ");
    if n > 0 {
        lemma_indent_spaces((n - 1) as nat);
        let before = text::repeat("  "@, (n - 1) as nat);
        let all = text::repeat("  "@, n);
        assert forall|i: int| 0 <= i < all.len() implies #[trigger] all[i] == ' ' by {
            if i < before.len() {
                assert(all[i] == before[i]);
            } else {
                assert(all[i] == "  "@[i - before.len()]);
            }
        }
    }
}

proof fn lemma_trim_start_spaces(sp: Seq<char>, t: Seq<char>)
    requires
        forall|i: int| 0 <= i < sp.len() ==> #[trigger] sp[i] == ' ',
        t.len() > 0,
        !chars::is_space(t[0]),
    ensures
        text::trim_start(sp + t) == t,
    decreases sp.len(),
{
    if sp.len() == 0 {
        assert(sp + t =~= t);
    } else {
        assert((sp + t)[0] == sp[0]);
        assert((sp + t).skip(1) =~= sp.skip(1) + t);
        assert forall|i: int| 0 <= i < sp.skip(1).len() implies #[trigger] sp.skip(1)[i] == ' ' by {
            assert(sp.skip(1)[i] == sp[i + 1]);
        }
        lemma_trim_start_spaces(sp.skip(1), t);
    }
}

/// A trimmed text begins and ends with something to see.
proof fn lemma_trimmed_ends(l: Seq<char>)
    ensures
        text::trim(l).len() > 0 ==> !chars::is_space(text::trim(l)[0]) && !chars::is_space(
            text::trim(l).last(),
        ),
{
    text::lemma_trim_start_len(l);
    text::lemma_trim_end_len(text::trim_start(l));
}

/// Indenting does not change what a trimmed line is.
proof fn lemma_trim_indented(d: nat, l: Seq<char>)
    requires
        text::trim(l).len() > 0,
    ensures
        text::trim_start(indented(d, text::trim(l))) == text::trim(l),
        text::trim(indented(d, text::trim(l))) == text::trim(l),
{
    lemma_trimmed_ends(l);
    lemma_indent_spaces(d);
    lemma_trim_start_spaces(text::repeat("  "@, d), text::trim(l));
}

proof fn lemma_tag_survives(l: Seq<char>, env: Seq<char>)
    requires
        ends_verbatim(l, env),
    ensures
        text::trim(l).len() > 0,
        text::starts_with(text::trim(l), "\\end{"@ + env + "}"@),
{
    reveal_strlit("}");
    let tag = "\\end{"@ + env + "}"@;
    let x = text::trim_start(l);
    text::lemma_trim_end_len(x);
    let k = tag.len() - 1;
    assert(tag[k] == '}');
    assert(x.subrange(0, tag.len() as int)[k] == x[k]);
    assert(!chars::is_space(x[k]));
    let y = text::trim_end(x);
    assert(y.len() > k);
    assert(y.subrange(0, tag.len() as int) =~= x.subrange(0, tag.len() as int));
}

/// Whether the second of two formatters stands where the first does, with all that the
/// first put out.
spec fn agrees(a: State, b: State) -> bool {
    b.out == a.out && b.depth == a.depth && b.verbatim == a.verbatim && (b.blank ==> a.blank)
}

proof fn lemma_step_agrees(p: State, q: State, l: Seq<char>)
    requires
        agrees(p, q),
    ensures
        after(p, l).out == p.out || after(p, l).out.len() == p.out.len() + 1 && after(
            p,
            l,
        ).out.drop_last() == p.out,
        after(p, l).out == p.out ==> agrees(after(p, l), q),
        after(p, l).out.len() == p.out.len() + 1 ==> agrees(
            after(p, l),
            after(q, after(p, l).out.last()),
        ),
{
    let n = after(p, l);
    assert(n.out.len() == p.out.len() + 1 ==> n.out.drop_last() =~= p.out);
    match p.verbatim {
        Some(env) => {
            if ends_verbatim(l, env) {
                let d = less(p.depth, 1);
                let o = indented(d, text::trim(l));
                lemma_tag_survives(l, env);
                lemma_trim_indented(d, l);
                assert(n.out.last() == o);
                assert(ends_verbatim(o, env));
            } else {
                assert(n.out.last() == l);
            }
        },
        None => {
            let t = text::trim(l);
            if t.len() == 0 {
                if n.out.len() == p.out.len() + 1 {
                    assert(n.out.last() == Seq::<char>::empty());
                    assert(text::trim(Seq::<char>::empty()).len() == 0);
                }
            } else {
                let o = indented(less(p.depth, dedent(t)), t);
                lemma_trim_indented(less(p.depth, dedent(t)), l);
                assert(n.out.last() == o);
                assert(text::trim(o) == t);
            }
        },
    }
}

proof fn lemma_run_again(ls: Seq<Seq<char>>)
    ensures
        agrees(run(ls), run(run(ls).out)),
    decreases ls.len(),
{
    if ls.len() > 0 {
        let p = run(ls.drop_last());
        lemma_run_again(ls.drop_last());
        let q = run(p.out);
        lemma_step_agrees(p, q, ls.last());
        let n = run(ls);
        if n.out != p.out {
            assert(run(n.out) == after(run(n.out.drop_last()), n.out.last()));
        }
    }
}

proof fn lemma_run_len(ls: Seq<Seq<char>>)
    ensures
        run(ls).out.len() <= ls.len(),
    decreases ls.len(),
{
    if ls.len() > 0 {
        lemma_run_len(ls.drop_last());
        lemma_step_agrees(run(ls.drop_last()), run(ls.drop_last()), ls.last());
    }
}

proof fn lemma_run_prefix(o: Seq<Seq<char>>, m: int)
    requires
        run(o).out == o,
        0 <= m <= o.len(),
    ensures
        run(o.take(m)).out == o.take(m),
    decreases o.len() - m,
{
    if m == o.len() {
        assert(o.take(m) =~= o);
    } else {
        lemma_run_prefix(o, m + 1);
        let next = o.take(m + 1);
        assert(next.drop_last() =~= o.take(m));
        let p = run(o.take(m));
        lemma_run_len(o.take(m));
        lemma_step_agrees(p, p, next.last());
        assert(next.drop_last() == p.out);
    }
}

proof fn lemma_without_trailing(ls: Seq<Seq<char>>)
    ensures
        without_trailing(ls).len() <= ls.len(),
        without_trailing(ls) == ls.take(without_trailing(ls).len() as int),
        without_trailing(without_trailing(ls)) == without_trailing(ls),
    decreases ls.len(),
{
    if ls.len() > 0 && ls.last().len() == 0 {
        lemma_without_trailing(ls.drop_last());
        let t = without_trailing(ls);
        assert(t =~= ls.take(t.len() as int));
    } else {
        assert(ls =~= ls.take(ls.len() as int));
    }
}

proof fn lemma_lines_one_line(s: Seq<char>)
    ensures
        forall|k: int|
            0 <= k < text::lines(s).len() ==> is_one_line(#[trigger] text::lines(s)[k]),
    decreases s.len(),
{
    if s.len() > 0 {
        text::lemma_find_char_bounds(s, '\n', 0);
        match text::find_char(s, '\n') {
            None => {},
            Some(k) => {
                lemma_lines_one_line(s.skip(k + 1));
                let first = text::strip_cr(s.take(k));
                assert(is_one_line(first)) by {
                    assert forall|i: int| 0 <= i < first.len() implies first[i] != '\n' by {
                        assert(first[i] == s[i]);
                    }
                }
                assert forall|j: int| 0 <= j < text::lines(s).len() implies is_one_line(
                    #[trigger] text::lines(s)[j],
                ) by {
                    if j > 0 {
                        assert(text::lines(s)[j] == text::lines(s.skip(k + 1))[j - 1]);
                    }
                }
            },
        }
    }
}

proof fn lemma_indented_one_line(d: nat, l: Seq<char>)
    requires
        is_one_line(l),
    ensures
        is_one_line(indented(d, text::trim(l))),
{
    lemma_indent_spaces(d);
    text::lemma_trim_start_len(l);
    text::lemma_trim_end_len(text::trim_start(l));
    let o = indented(d, text::trim(l));
    let sp = text::repeat("  "@, d);
    let x = text::trim_start(l);
    assert forall|i: int| 0 <= i < o.len() implies o[i] != '\n' by {
        if i < sp.len() {
            assert(o[i] == sp[i]);
        } else {
            let j = i - sp.len();
            assert(o[i] == text::trim(l)[j]);
            assert(text::trim(l)[j] == x[j]);
            assert(x[j] == l[l.len() - x.len() + j]);
        }
    }
}

proof fn lemma_run_one_line(ls: Seq<Seq<char>>)
    requires
        forall|k: int| 0 <= k < ls.len() ==> is_one_line(#[trigger] ls[k]),
    ensures
        forall|k: int| 0 <= k < run(ls).out.len() ==> is_one_line(#[trigger] run(ls).out[k]),
    decreases ls.len(),
{
    if ls.len() > 0 {
        let p = run(ls.drop_last());
        assert forall|k: int| 0 <= k < ls.drop_last().len() implies is_one_line(
            #[trigger] ls.drop_last()[k],
        ) by {
            assert(ls.drop_last()[k] == ls[k]);
        }
        lemma_run_one_line(ls.drop_last());
        let l = ls.last();
        assert(is_one_line(ls[ls.len() - 1]));
        lemma_step_agrees(p, p, l);
        let n = run(ls);
        lemma_indented_one_line(less(p.depth, 1), l);
        lemma_indented_one_line(less(p.depth, dedent(text::trim(l))), l);
        assert forall|k: int| 0 <= k < n.out.len() implies is_one_line(#[trigger] n.out[k]) by {
            if k < p.out.len() {
                assert(n.out[k] == p.out[k]);
            }
        }
    }
}

proof fn lemma_find_newline(a: Seq<char>, b: Seq<char>, i: int)
    requires
        is_one_line(a),
        0 <= i <= a.len(),
    ensures
        text::find_char_from(a + seq!['\n'] + b, '\n', i) == Some(a.len() as int),
    decreases a.len() - i,
{
    let s = a + seq!['\n'] + b;
    if i < a.len() {
        assert(s[i] == a[i]);
        assert(a.contains(a[i]));
        lemma_find_newline(a, b, i + 1);
    } else {
        assert(s[i] == '\n');
    }
}

proof fn lemma_lines_of_joined(ls: Seq<Seq<char>>)
    requires
        ls.len() > 0,
        forall|k: int| 0 <= k < ls.len() ==> is_one_line(#[trigger] ls[k]),
        forall|k: int| 0 <= k < ls.len() ==> !ends_with_cr(#[trigger] ls[k]),
    ensures
        text::lines(text::join(ls, "\n"@).push('\n')) == ls,
    decreases ls.len(),
{
    reveal_strlit("\n");
    assert("\n"@ =~= seq!['\n']);
    let s = text::join(ls, "\n"@).push('\n');
    let rest = if ls.len() == 1 {
        Seq::<char>::empty()
    } else {
        text::join(ls.skip(1), "\n"@).push('\n')
    };
    if ls.len() > 1 {
        text::lemma_join_front(ls, "\n"@);
    }
    assert(s =~= ls[0] + seq!['\n'] + rest);
    lemma_find_newline(ls[0], rest, 0);
    let k = ls[0].len() as int;
    assert(s.take(k) =~= ls[0]);
    assert(s.skip(k + 1) =~= rest);
    assert(!ends_with_cr(ls[0]));
    if ls.len() == 1 {
        assert(text::lines(rest) =~= Seq::<Seq<char>>::empty());
        assert(ls =~= seq![ls[0]] + text::lines(rest));
    } else {
        let t = ls.skip(1);
        assert forall|j: int| 0 <= j < t.len() implies is_one_line(#[trigger] t[j])
            && !ends_with_cr(t[j]) by {
            assert(t[j] == ls[j + 1]);
        }
        lemma_lines_of_joined(t);
        assert(ls =~= seq![ls[0]] + t);
    }
}

/// Formatting a formatted source changes nothing, as long as no line that was passed
/// through ends with a carriage return: such a line loses it when it is read again.
pub proof fn law_format_is_idempotent(source: Seq<char>)
    requires
        forall|k: int|
            0 <= k < formatted_lines(source).len() ==> !ends_with_cr(
                #[trigger] formatted_lines(source)[k],
            ),
    ensures
        formatted(formatted(source)) == formatted(source),
{
    let ls = text::lines(source);
    let o = run(ls).out;
    let p = formatted_lines(source);
    lemma_run_again(ls);
    lemma_without_trailing(o);
    lemma_run_prefix(o, p.len() as int);
    assert(run(p).out == p);
    if p.len() > 0 {
        lemma_lines_one_line(source);
        lemma_run_one_line(ls);
        assert forall|k: int| 0 <= k < p.len() implies is_one_line(#[trigger] p[k]) by {
            assert(p[k] == o[k]);
        }
        lemma_lines_of_joined(p);
    } else {
        reveal_with_fuel(run, 2);
        let t = formatted(source);
        assert(t =~= seq!['\n']);
        assert(text::find_char_from(t, '\n', 0) == Some(0int));
        assert(t.take(0) =~= Seq::<char>::empty());
        assert(t.skip(1) =~= Seq::<char>::empty());
        assert(text::lines(t.skip(1)) =~= Seq::<Seq<char>>::empty());
        assert(text::lines(t) =~= seq![Seq::<char>::empty()]);
        assert(seq![Seq::<char>::empty()].drop_last() =~= Seq::<Seq<char>>::empty());
        assert(text::trim(Seq::<char>::empty()).len() == 0);
        assert(run(text::lines(t)).out =~= Seq::<Seq<char>>::empty());
        assert(formatted_lines(t) =~= p);
    }
}

/// The lines that are not blank, each without the white space around it.
pub open spec fn solid_lines(ls: Seq<Seq<char>>) -> Seq<Seq<char>>
    decreases ls.len(),
{
    if ls.len() == 0 {
        Seq::empty()
    } else {
        let before = solid_lines(ls.drop_last());
        if text::trim(ls.last()).len() == 0 {
            before
        } else {
            before.push(text::trim(ls.last()))
        }
    }
}

proof fn lemma_blank_is_not_solid()
    ensures
        text::trim(Seq::empty()).len() == 0,
{
    text::lemma_trim_start_len(Seq::empty());
    text::lemma_trim_end_len(text::trim_start(Seq::empty()));
}

proof fn lemma_run_keeps_text(ls: Seq<Seq<char>>)
    ensures
        solid_lines(run(ls).out) == solid_lines(ls),
    decreases ls.len(),
{
    if ls.len() > 0 {
        let p = run(ls.drop_last());
        let l = ls.last();
        let n = after(p, l);
        lemma_run_keeps_text(ls.drop_last());
        lemma_blank_is_not_solid();
        if n.out != p.out {
            assert(n.out.drop_last() =~= p.out);
        }
        match p.verbatim {
            Some(env) => {
                if ends_verbatim(l, env) {
                    lemma_tag_survives(l, env);
                    lemma_trim_indented(less(p.depth, 1), l);
                }
            },
            None => {
                if text::trim(l).len() > 0 {
                    lemma_trim_indented(less(p.depth, dedent(text::trim(l))), l);
                }
            },
        }
    }
}

proof fn lemma_trailing_is_not_solid(ls: Seq<Seq<char>>)
    ensures
        solid_lines(without_trailing(ls)) == solid_lines(ls),
    decreases ls.len(),
{
    if ls.len() > 0 && ls.last().len() == 0 {
        lemma_trailing_is_not_solid(ls.drop_last());
        lemma_blank_is_not_solid();
        assert(ls.last() =~= Seq::<char>::empty());
    }
}

/// Formatting changes nothing but the white space around lines and the blank lines
/// between them: text is not reflowed, and no line is lost, added or moved.
pub proof fn law_format_keeps_text(source: Seq<char>)
    ensures
        solid_lines(formatted_lines(source)) == solid_lines(text::lines(source)),
{
    lemma_run_keeps_text(text::lines(source));
    lemma_trailing_is_not_solid(run(text::lines(source)).out);
}

/// White space at the end of a line makes no difference to what is left when it is
/// trimmed.
proof fn lemma_trim_drops(l: Seq<char>)
    requires
        l.len() > 0,
        chars::is_space(l.last()),
    ensures
        text::trim(l.drop_last()) == text::trim(l),
    decreases l.len(),
{
    let d = l.drop_last();
    if l.len() == 1 {
        assert(l.skip(1) =~= Seq::<char>::empty());
        assert(d =~= Seq::<char>::empty());
        assert(text::trim_start(l.skip(1)) =~= Seq::<char>::empty());
        assert(text::trim_start(d) =~= Seq::<char>::empty());
        assert(text::trim_start(l) == text::trim_start(l.skip(1)));
    } else if chars::is_space(l[0]) {
        assert(l.skip(1).last() == l.last());
        lemma_trim_drops(l.skip(1));
        assert(d[0] == l[0]);
        assert(d.skip(1) =~= l.skip(1).drop_last());
    } else {
        assert(d[0] == l[0]);
    }
}

/// Lines as they are read again: without a carriage return at their end.
spec fn read_again(ls: Seq<Seq<char>>) -> Seq<Seq<char>> {
    Seq::new(ls.len(), |k: int| text::strip_cr(ls[k]))
}

proof fn lemma_lines_read_again(ls: Seq<Seq<char>>)
    requires
        ls.len() > 0,
        forall|k: int| 0 <= k < ls.len() ==> is_one_line(#[trigger] ls[k]),
    ensures
        text::lines(text::join(ls, "\n"@).push('\n')) == read_again(ls),
    decreases ls.len(),
{
    reveal_strlit("\n");
    assert("\n"@ =~= seq!['\n']);
    let s = text::join(ls, "\n"@).push('\n');
    let rest = if ls.len() == 1 {
        Seq::<char>::empty()
    } else {
        text::join(ls.skip(1), "\n"@).push('\n')
    };
    if ls.len() > 1 {
        text::lemma_join_front(ls, "\n"@);
    }
    assert(s =~= ls[0] + seq!['\n'] + rest);
    lemma_find_newline(ls[0], rest, 0);
    let k = ls[0].len() as int;
    assert(s.take(k) =~= ls[0]);
    assert(s.skip(k + 1) =~= rest);
    if ls.len() == 1 {
        assert(text::lines(rest) =~= Seq::<Seq<char>>::empty());
        assert(read_again(ls) =~= seq![text::strip_cr(ls[0])] + text::lines(rest));
    } else {
        let t = ls.skip(1);
        assert forall|j: int| 0 <= j < t.len() implies is_one_line(#[trigger] t[j]) by {
            assert(t[j] == ls[j + 1]);
        }
        lemma_lines_read_again(t);
        assert(read_again(ls) =~= seq![text::strip_cr(ls[0])] + read_again(t));
    }
}

proof fn lemma_read_again_is_solid(ls: Seq<Seq<char>>)
    ensures
        solid_lines(read_again(ls)) == solid_lines(ls),
    decreases ls.len(),
{
    if ls.len() > 0 {
        lemma_read_again_is_solid(ls.drop_last());
        assert(read_again(ls).drop_last() =~= read_again(ls.drop_last()));
        if ends_with_cr(ls.last()) {
            lemma_trim_drops(ls.last());
        }
    }
}

/// The lines of a formatted source are those of the source, up to the white space around
/// them and the blank lines between them.
pub proof fn law_formatted_source_keeps_text(source: Seq<char>)
    ensures
        solid_lines(text::lines(formatted(source))) == solid_lines(text::lines(source)),
{
    let ls = text::lines(source);
    let o = run(ls).out;
    let p = formatted_lines(source);
    law_format_keeps_text(source);
    if p.len() > 0 {
        lemma_lines_one_line(source);
        lemma_run_one_line(ls);
        lemma_without_trailing(o);
        assert forall|k: int| 0 <= k < p.len() implies is_one_line(#[trigger] p[k]) by {
            assert(p[k] == o[k]);
        }
        lemma_lines_read_again(p);
        lemma_read_again_is_solid(p);
    } else {
        let t = formatted(source);
        let none = Seq::<char>::empty();
        assert(t =~= seq!['\n']);
        assert(text::find_char_from(t, '\n', 0) == Some(0int));
        assert(t.take(0) =~= none);
        assert(t.skip(1) =~= none);
        assert(text::lines(t.skip(1)) =~= Seq::<Seq<char>>::empty());
        assert(text::lines(t) =~= seq![none]);
        lemma_blank_is_not_solid();
        assert(seq![none].drop_last() =~= Seq::<Seq<char>>::empty());
        assert(p =~= Seq::<Seq<char>>::empty());
        assert(solid_lines(seq![none]) == solid_lines(Seq::<Seq<char>>::empty()));
    }
}

proof fn lemma_out_grows(ls: Seq<Seq<char>>, k: int)
    requires
        0 <= k <= ls.len(),
    ensures
        run(ls.take(k)).out.len() <= run(ls).out.len(),
        run(ls.take(k)).out == run(ls).out.take(run(ls.take(k)).out.len() as int),
    decreases ls.len(),
{
    if k == ls.len() {
        assert(ls.take(k) =~= ls);
    } else {
        lemma_out_grows(ls.drop_last(), k);
        assert(ls.drop_last().take(k) =~= ls.take(k));
        let p = run(ls.drop_last());
        let o = run(ls.take(k)).out;
        if run(ls).out != p.out {
            assert(run(ls).out.drop_last() =~= p.out);
        }
        assert(run(ls).out.take(o.len() as int) =~= p.out.take(o.len() as int));
    }
}

proof fn lemma_solid_stays(ls: Seq<Seq<char>>, k: int)
    requires
        0 <= k < ls.len(),
        ls[k].len() > 0,
    ensures
        k < without_trailing(ls).len(),
        without_trailing(ls)[k] == ls[k],
    decreases ls.len(),
{
    if ls.last().len() == 0 {
        lemma_solid_stays(ls.drop_last(), k);
    }
}

/// A line inside a verbatim environment comes out as it went in, at the place that the
/// lines before it leave to it.
pub proof fn law_verbatim_is_untouched(source: Seq<char>, k: int)
    requires
        0 <= k < text::lines(source).len(),
        text::lines(source)[k].len() > 0,
        run(text::lines(source).take(k)).verbatim matches Some(env) && !ends_verbatim(
            text::lines(source)[k],
            env,
        ),
    ensures
        ({
            let place = run(text::lines(source).take(k)).out.len() as int;
            &&& place < formatted_lines(source).len()
            &&& formatted_lines(source)[place] == text::lines(source)[k]
        }),
{
    let ls = text::lines(source);
    let place = run(ls.take(k)).out.len() as int;
    assert(ls.take(k + 1).drop_last() =~= ls.take(k));
    lemma_out_grows(ls, k + 1);
    assert(run(ls.take(k + 1)).out[place] == ls[k]);
    lemma_solid_stays(run(ls).out, place);
}

/// A formatted source ends with a line feed, and no blank line stands before it.
pub proof fn law_format_ends(source: Seq<char>)
    ensures
        formatted(source).last() == '\n',
        formatted_lines(source).len() > 0 ==> formatted_lines(source).last().len() > 0,
{
    lemma_ends_solid(run(text::lines(source)).out);
}

proof fn lemma_ends_solid(ls: Seq<Seq<char>>)
    ensures
        without_trailing(ls).len() > 0 ==> without_trailing(ls).last().len() > 0,
    decreases ls.len(),
{
    if ls.len() > 0 && ls.last().len() == 0 {
        lemma_ends_solid(ls.drop_last());
    }
}

/// How many levels a line moves left before it is placed.
pub fn leading_dedent(line: &str) -> (r: usize)
    ensures
        r == dedent(line@),
{
    let c = chars_of(line);
    dedent_of(c.as_slice())
}

fn dedent_of(line: &[char]) -> (r: usize)
    ensures
        r == dedent(line@),
        r <= line@.len() || r == 1,
{
    if text::begins(line, "\\end{") {
        return 1;
    }
    let mut i: usize = 0;
    assert(line@.skip(0) =~= line@);
    while i < line.len() && (line[i] == '}' || line[i] == ']')
        invariant
            i <= line@.len(),
            leading_closers(line@) == i + leading_closers(line@.skip(i as int)),
        decreases line@.len() - i,
    {
        assert(line@.skip(i as int).skip(1) =~= line@.skip(i + 1));
        i = i + 1;
    }
    i
}

/// The nesting that a line adds.
pub fn nesting_delta(line: &str) -> (r: i128)
    ensures
        r == delta(line@),
{
    let c = chars_of(line);
    delta_of(c.as_slice())
}

fn delta_of(line: &[char]) -> (r: i128)
    ensures
        r == delta(line@),
        -2 * line@.len() <= r <= 2 * line@.len(),
{
    proof {
        reveal_strlit("\\begin{");
        reveal_strlit("\\end{");
    }
    let n: usize = line.len();
    let begins = text::count_of(line, "\\begin{");
    let ends = text::count_of(line, "\\end{");
    let mut sum: i128 = 0;
    let mut i: usize = 0;
    while i < n && line[i] != '%'
        invariant
            n == line@.len(),
            i <= n + 1,
            balance(line@, 0) == sum + balance(line@, i as int),
            -i <= sum <= i,
            -n <= sum <= n,
        decreases n + 1 - i,
    {
        let c = line[i];
        if c == '\\' {
            if i + 1 >= n {
                assert(balance(line@, i + 2) == 0);
                i = n;
            } else {
                i = i + 2;
            }
        } else {
            if c == '{' || c == '[' {
                sum = sum + 1;
            } else if c == '}' || c == ']' {
                sum = sum - 1;
            }
            i = i + 1;
        }
    }
    begins as i128 - ends as i128 + sum
}

/// The number of times that `needle` occurs in a text without overlapping. Nothing occurs
/// before, between and behind all characters.
pub fn count_occurrences(haystack: &str, needle: &str) -> (r: usize)
    requires
        haystack@.len() < usize::MAX,
    ensures
        r == if needle@.len() == 0 {
            haystack@.len() + 1
        } else {
            text::count(haystack@, needle@)
        },
{
    let c = chars_of(haystack);
    let n: usize = c.len();
    if chars_of(needle).len() == 0 {
        n + 1
    } else {
        text::count_of(c.as_slice(), needle)
    }
}

fn env_of(line: &[char]) -> (r: Option<&[char]>)
    ensures
        match r {
            Some(e) => env_name(line@) == Some(e@),
            None => env_name(line@) is None,
        },
{
    let n: usize = line.len();
    let p = chars_of("\\begin{");
    match text::find_text(line, p.as_slice()) {
        Some(k) => {
            let rest = text::from(line, k + p.len());
            match text::find_ch(rest, '}') {
                Some(e) => Some(text::upto(rest, e)),
                None => None,
            }
        },
        None => None,
    }
}

/// The name of the first environment that a line begins.
pub fn extract_env_name(line: &str) -> (r: Option<String>)
    ensures
        text::opt_text(r) == env_name(line@),
{
    let c = chars_of(line);
    match env_of(c.as_slice()) {
        Some(e) => Some(string_of(e)),
        None => None,
    }
}

fn verbatim_opener(line: &[char]) -> (r: Option<String>)
    ensures
        text::opt_text(r) == opens_verbatim(line@),
{
    if !text::begins(line, "\\begin{") {
        return None;
    }
    match env_of(line) {
        Some(e) => if text::is_lit(e, "verbatim") || text::is_lit(e, "lstlisting") || text::is_lit(
            e,
            "minted",
        ) || text::is_lit(e, "Verbatim") {
            Some(string_of(e))
        } else {
            None
        },
        None => None,
    }
}

fn indent_line(depth: u128, content: &[char]) -> (r: String)
    ensures
        r@ == indented(depth as nat, content@),
{
    let mut out = text::repeated("  ", depth);
    text::append_chars(&mut out, content);
    out
}

fn closes_verbatim(line: &[char], env: &str) -> (r: bool)
    ensures
        r == ends_verbatim(line@, env@),
{
    let tag = text::cat3("\\end{", env, "}");
    text::begins(text::trimmed_start(line), tag.as_str())
}

/// The formatter on its way.
struct Formatter {
    out: Vec<String>,
    depth: u128,
    blank: bool,
    verbatim: Option<String>,
}

impl Formatter {
    spec fn state(self) -> State {
        State {
            out: text::texts(self.out@),
            depth: self.depth as nat,
            blank: self.blank,
            verbatim: text::opt_text(self.verbatim),
        }
    }

    fn take(&mut self, line: &[char])
        requires
            old(self).depth + 2 * line@.len() + 1 <= u128::MAX / 2,
        ensures
            final(self).state() == after(old(self).state(), line@),
            final(self).depth <= old(self).depth + 2 * line@.len(),
    {
        broadcast use text::lemma_texts_push;

        let ghost before = self.state();
        let n: usize = line.len();
        let ending = match &self.verbatim {
            Some(env) => {
                if !closes_verbatim(line, env.as_str()) {
                    self.out.push(string_of(line));
                    return;
                }
                true
            },
            None => false,
        };
        if ending {
            if self.depth > 0 {
                self.depth = self.depth - 1;
            }
            self.out.push(indent_line(self.depth, text::trimmed(line)));
            self.verbatim = None;
            return;
        }
        let t = text::trimmed(line);
        proof {
            text::lemma_trim_len(line@);
        }
        if t.len() == 0 {
            if !self.blank && self.out.len() > 0 {
                proof {
                    reveal_strlit("");
                    assert(""@ =~= Seq::<char>::empty());
                }
                self.out.push(text::lit(""));
            }
            self.blank = true;
            return;
        }
        self.blank = false;
        let back: u128 = dedent_of(t) as u128;
        let shown: u128 = if self.depth >= back {
            self.depth - back
        } else {
            0
        };
        self.out.push(indent_line(shown, t));
        match verbatim_opener(t) {
            Some(env) => {
                self.depth = self.depth + 1;
                self.verbatim = Some(env);
            },
            None => {
                let d = delta_of(t);
                let sum: i128 = self.depth as i128 + d;
                self.depth = if sum > 0 {
                    sum as u128
                } else {
                    0
                };
            },
        }
    }
}

/// Format LaTeX source code with consistent style.
pub fn format(source: &str) -> (r: String)
    ensures
        r@ == formatted(source@),
{
    let c = chars_of(source);
    let n: usize = c.len();
    let mut f = Formatter { out: Vec::new(), depth: 0, blank: false, verbatim: None };
    let ghost all = text::lines(source@);
    let ghost mut done: Seq<Seq<char>> = Seq::empty();
    let mut rest: &[char] = c.as_slice();
    assert(f.state() =~= start());
    assert(done + text::lines(rest@) =~= all);
    while rest.len() > 0
        invariant
            n == source@.len(),
            rest@.len() <= n,
            f.depth + 2 * rest@.len() <= 2 * n,
            done + text::lines(rest@) == all,
            f.state() == run(done),
        decreases rest@.len(),
    {
        let (line, tail) = text::first_line(rest);
        f.take(line);
        proof {
            assert(done + (seq![line@] + text::lines(tail@)) =~= done.push(line@) + text::lines(
                tail@,
            ));
            assert(done.push(line@).drop_last() =~= done);
            done = done.push(line@);
        }
        rest = tail;
    }
    assert(done =~= all);
    let mut out = f.out;
    let ghost put = text::texts(out@);
    while out.len() > 0 && empty(out[out.len() - 1].as_str())
        invariant
            without_trailing(text::texts(out@)) == without_trailing(put),
        decreases out@.len(),
    {
        let ghost v = text::texts(out@);
        assert(v.last() == out@[out@.len() - 1]@);
        let dropped = out.pop();
        assert(text::texts(out@) =~= v.drop_last());
    }
    assert(out@.len() > 0 ==> text::texts(out@).last() == out@[out@.len() - 1]@);
    let mut result = text::joined(&out, "\n");
    result.push('\n');
    result
}

fn empty(s: &str) -> (r: bool)
    ensures
        r == (s@.len() == 0),
{
    let c = chars_of(s);
    c.len() == 0
}

} // verus!
