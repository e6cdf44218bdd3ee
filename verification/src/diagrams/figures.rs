//! What becomes of a diagram: which options its figure shows, and where the figure stands.

use vstd::prelude::*;

use super::style::DiagramStyle;
use super::RenderingView;
use crate::chars;
use crate::paths;
use crate::text;

verus! {

/// Whether an option has a value: the last one that is given under its key.
pub open spec fn is_set(
    opts: Seq<(Seq<char>, Seq<char>)>,
    key: Seq<char>,
    value: Seq<char>,
) -> bool {
    exists|k: int|
        0 <= k < opts.len() && #[trigger] opts[k] == (key, value) && forall|j: int|
            k < j < opts.len() ==> (#[trigger] opts[j]).0 != key
}

/// Whether an option is not given.
pub open spec fn is_unset(opts: Seq<(Seq<char>, Seq<char>)>, key: Seq<char>) -> bool {
    forall|j: int| 0 <= j < opts.len() ==> (#[trigger] opts[j]).0 != key
}

/// Texts with commas between them.
pub open spec fn listed(parts: Seq<Seq<char>>) -> Seq<char>
    decreases parts.len(),
{
    if parts.len() == 0 {
        Seq::empty()
    } else if parts.len() == 1 {
        parts[0]
    } else {
        parts[0] + seq![','] + listed(parts.skip(1))
    }
}

/// Whether a text among the options of `\includegraphics` is one that the author asked for,
/// or the width of a line where they asked for nothing.
pub open spec fn is_asked_for(opts: Seq<(Seq<char>, Seq<char>)>, part: Seq<char>) -> bool {
    ||| exists|v: Seq<char>| is_set(opts, "scale"@, v) && part == #[trigger] ("scale="@ + v)
    ||| is_unset(opts, "scale"@) && exists|v: Seq<char>|
        is_set(opts, "width"@, v) && part == #[trigger] ("width="@ + v)
    ||| is_unset(opts, "scale"@) && exists|v: Seq<char>|
        is_set(opts, "height"@, v) && part == #[trigger] ("height="@ + v)
    ||| !is_unset(opts, "keepaspectratio"@) && part == "keepaspectratio"@
    ||| is_bare(opts) && part == "width=\\linewidth"@
}

/// Whether nothing is said about the size of a diagram.
pub open spec fn is_bare(opts: Seq<(Seq<char>, Seq<char>)>) -> bool {
    is_unset(opts, "scale"@) && is_unset(opts, "width"@) && is_unset(opts, "height"@) && is_unset(
        opts,
        "keepaspectratio"@,
    )
}

/// Whether the options of `\includegraphics` are what the author asked for: a scale wins
/// over a width and a height, each of which is there where it is given, and nothing else is
/// there. Where they asked for nothing the diagram is as wide as a line.
pub open spec fn are_sizes(opts: Seq<(Seq<char>, Seq<char>)>, parts: Seq<Seq<char>>) -> bool {
    &&& forall|v: Seq<char>| #[trigger]
        is_set(opts, "scale"@, v) ==> parts.contains("scale="@ + v)
    &&& forall|v: Seq<char>|
        is_unset(opts, "scale"@) && #[trigger] is_set(opts, "width"@, v) ==> parts.contains(
            "width="@ + v,
        )
    &&& forall|v: Seq<char>|
        is_unset(opts, "scale"@) && #[trigger] is_set(opts, "height"@, v) ==> parts.contains(
            "height="@ + v,
        )
    &&& !is_unset(opts, "keepaspectratio"@) ==> parts.contains("keepaspectratio"@)
    &&& is_bare(opts) ==> parts == seq!["width=\\linewidth"@]
    &&& forall|k: int| 0 <= k < parts.len() ==> is_asked_for(opts, #[trigger] parts[k])
    &&& forall|j: int, k: int|
        0 <= j < k < parts.len() ==> #[trigger] parts[j] != #[trigger] parts[k]
}

/// Whether a text shows an option between two others, where it is given, and is empty where
/// it is not.
pub open spec fn is_shown(
    opts: Seq<(Seq<char>, Seq<char>)>,
    key: Seq<char>,
    before: Seq<char>,
    t: Seq<char>,
    after: Seq<char>,
) -> bool {
    &&& is_unset(opts, key) ==> t == Seq::<char>::empty()
    &&& forall|v: Seq<char>| #[trigger] is_set(opts, key, v) ==> t == before + v + after
}

proof fn lemma_option(opts: Seq<(Seq<char>, Seq<char>)>, key: Seq<char>, value: Seq<char>)
    ensures
        super::option_of(opts, key) == Some(value) <==> is_set(opts, key, value),
        super::option_of(opts, key) is None <==> is_unset(opts, key),
    decreases opts.len(),
{
    if opts.len() > 0 {
        let n = opts.len() - 1;
        let front = opts.drop_last();
        lemma_option(front, key, value);
        assert(opts[n] == opts.last());
        if opts.last().0 == key {
            if opts.last().1 == value {
                assert(opts[n] == (key, value));
            }
            if is_set(opts, key, value) {
                let k = choose|k: int|
                    0 <= k < opts.len() && #[trigger] opts[k] == (key, value) && forall|j: int|
                        k < j < opts.len() ==> (#[trigger] opts[j]).0 != key;
                assert(k == n);
            }
        } else {
            if is_set(front, key, value) {
                let k = choose|k: int|
                    0 <= k < front.len() && #[trigger] front[k] == (key, value) && forall|j: int|
                        k < j < front.len() ==> (#[trigger] front[j]).0 != key;
                assert(opts[k] == (key, value));
                assert forall|j: int| k < j < opts.len() implies (#[trigger] opts[j]).0 != key by {
                    if j < n {
                        assert(front[j] == opts[j]);
                    }
                }
            }
            if is_set(opts, key, value) {
                let k = choose|k: int|
                    0 <= k < opts.len() && #[trigger] opts[k] == (key, value) && forall|j: int|
                        k < j < opts.len() ==> (#[trigger] opts[j]).0 != key;
                assert(front[k] == (key, value));
                assert forall|j: int| k < j < front.len() implies (#[trigger] front[j]).0 != key by {
                    assert(front[j] == opts[j]);
                }
            }
            if is_unset(front, key) {
                assert forall|j: int| 0 <= j < opts.len() implies (#[trigger] opts[j]).0 != key by {
                    if j < n {
                        assert(front[j] == opts[j]);
                    }
                }
            }
            if is_unset(opts, key) {
                assert forall|j: int| 0 <= j < front.len() implies (#[trigger] front[j]).0 != key by {
                    assert(front[j] == opts[j]);
                }
            }
        }
    }
}

/// An option is given or not, and has one value where it is.
pub proof fn lemma_options(opts: Seq<(Seq<char>, Seq<char>)>, key: Seq<char>)
    ensures
        super::option_of(opts, key) is None <==> is_unset(opts, key),
        forall|v: Seq<char>| #[trigger]
            is_set(opts, key, v) <==> super::option_of(opts, key) == Some(v),
{
    lemma_option(opts, key, Seq::empty());
    assert forall|v: Seq<char>| #[trigger] is_set(opts, key, v) <==> super::option_of(opts, key)
        == Some(v) by {
        lemma_option(opts, key, v);
    }
}

proof fn lemma_listed(parts: Seq<Seq<char>>)
    ensures
        text::join(parts, ","@) == listed(parts),
    decreases parts.len(),
{
    reveal_strlit(",");
    if parts.len() > 1 {
        text::lemma_join_front(parts, ","@);
        lemma_listed(parts.skip(1));
        assert(","@ =~= seq![',']);
    }
}

/// The options of `\includegraphics` that a figure has.
spec fn figure_parts(opts: Seq<(Seq<char>, Seq<char>)>) -> Seq<Seq<char>> {
    let parts = super::include_options(opts);
    if parts.len() == 0 {
        seq!["width=\\linewidth"@]
    } else {
        parts
    }
}

proof fn lemma_heads(v: Seq<char>)
    ensures
        "scale"@ + "="@ + v == "scale="@ + v,
        "width"@ + "="@ + v == "width="@ + v,
        "height"@ + "="@ + v == "height="@ + v,
        ("width="@ + v)[0] == 'w',
        ("height="@ + v)[0] == 'h',
        ("scale="@ + v)[0] == 's',
        "keepaspectratio"@[0] == 'k',
{
    reveal_strlit("scale");
    reveal_strlit("width");
    reveal_strlit("height");
    reveal_strlit("=");
    reveal_strlit("scale=");
    reveal_strlit("width=");
    reveal_strlit("height=");
    reveal_strlit("keepaspectratio");
    assert("scale"@ + "="@ + v =~= "scale="@ + v);
    assert("width"@ + "="@ + v =~= "width="@ + v);
    assert("height"@ + "="@ + v =~= "height="@ + v);
}

proof fn lemma_contains(s: Seq<Seq<char>>, k: int)
    requires
        0 <= k < s.len(),
    ensures
        s.contains(s[k]),
{
}

proof fn lemma_sizes(opts: Seq<(Seq<char>, Seq<char>)>)
    ensures
        are_sizes(opts, figure_parts(opts)),
{
    lemma_options(opts, "scale"@);
    lemma_options(opts, "width"@);
    lemma_options(opts, "height"@);
    lemma_options(opts, "keepaspectratio"@);
    let parts = figure_parts(opts);
    let keep = super::option_of(opts, "keepaspectratio"@) is Some;
    match super::option_of(opts, "scale"@) {
        Some(v) => {
            lemma_heads(v);
            assert(parts[0] == "scale="@ + v);
            lemma_contains(parts, 0);
            if keep {
                assert(parts =~= seq!["scale="@ + v, "keepaspectratio"@]);
                lemma_contains(parts, 1);
            } else {
                assert(parts =~= seq!["scale="@ + v]);
            }
        },
        None => match (super::option_of(opts, "width"@), super::option_of(opts, "height"@)) {
            (Some(w), Some(h)) => {
                lemma_heads(w);
                lemma_heads(h);
                if keep {
                    assert(parts =~= seq!["width="@ + w, "height="@ + h, "keepaspectratio"@]);
                    lemma_contains(parts, 2);
                } else {
                    assert(parts =~= seq!["width="@ + w, "height="@ + h]);
                }
                lemma_contains(parts, 0);
                lemma_contains(parts, 1);
            },
            (Some(w), None) => {
                lemma_heads(w);
                if keep {
                    assert(parts =~= seq!["width="@ + w, "keepaspectratio"@]);
                    lemma_contains(parts, 1);
                } else {
                    assert(parts =~= seq!["width="@ + w]);
                }
                lemma_contains(parts, 0);
            },
            (None, Some(h)) => {
                lemma_heads(h);
                if keep {
                    assert(parts =~= seq!["height="@ + h, "keepaspectratio"@]);
                    lemma_contains(parts, 1);
                } else {
                    assert(parts =~= seq!["height="@ + h]);
                }
                lemma_contains(parts, 0);
            },
            (None, None) => {
                if keep {
                    assert(parts =~= seq!["keepaspectratio"@]);
                } else {
                    assert(parts =~= seq!["width=\\linewidth"@]);
                }
                lemma_contains(parts, 0);
            },
        },
    }
}

/// Whether a text is the figure of a diagram: it names the file that the diagram was
/// rendered to, with the sizes that the author asked for, and has the position, the caption
/// and the label that they gave.
pub open spec fn is_figure(
    fig: Seq<char>,
    opts: Seq<(Seq<char>, Seq<char>)>,
    filename: Seq<char>,
) -> bool {
    exists|parts: Seq<Seq<char>>, pos: Seq<char>, caption: Seq<char>, label: Seq<char>|
        are_sizes(opts, parts) && is_shown(opts, "pos"@, "["@, pos, "]"@) && is_shown(
            opts,
            "caption"@,
            "  \\caption{"@,
            caption,
            "}\n"@,
        ) && is_shown(opts, "label"@, "  \\label{"@, label, "}\n"@) && fig == #[trigger] (
        "\\begin{figure}"@ + pos + "\n  \\centering\n  \\includegraphics["@ + listed(parts)
            + "]{diagrams/"@ + filename + "}\n"@ + caption + label + "\\end{figure}"@)
}

/// A figure shows what the author asked for, and nothing else: whatever other options there
/// are, a width that is given is the width of the diagram, and so with the height, the
/// scale, the caption, the label and the position.
pub proof fn law_figure_shows_what_was_asked_for(
    opts: Seq<(Seq<char>, Seq<char>)>,
    filename: Seq<char>,
)
    ensures
        is_figure(super::figure(opts, filename), opts, filename),
{
    let parts = figure_parts(opts);
    lemma_sizes(opts);
    lemma_listed(parts);
    lemma_options(opts, "pos"@);
    lemma_options(opts, "caption"@);
    lemma_options(opts, "label"@);
    let pos = super::framed("["@, super::option_of(opts, "pos"@), "]"@);
    let caption = super::framed("  \\caption{"@, super::option_of(opts, "caption"@), "}\n"@);
    let label = super::framed("  \\label{"@, super::option_of(opts, "label"@), "}\n"@);
    assert(super::figure(opts, filename) == "\\begin{figure}"@ + pos
        + "\n  \\centering\n  \\includegraphics["@ + listed(parts) + "]{diagrams/"@ + filename
        + "}\n"@ + caption + label + "\\end{figure}"@);
}

// ---------------------------------------------------------------------------
// Blocks
// ---------------------------------------------------------------------------

/// Whether a text has no white space at either end.
pub open spec fn is_tight(t: Seq<char>) -> bool {
    t.len() == 0 || !chars::is_space(t[0]) && !chars::is_space(t.last())
}

/// Whether an option can be written down: its key and its value have no white space around
/// them, neither holds a comma or a bracket, and the key holds no `=`.
pub open spec fn is_writable(o: (Seq<char>, Seq<char>)) -> bool {
    &&& is_tight(o.0)
    &&& is_tight(o.1)
    &&& !o.0.contains(',') && !o.0.contains(']') && !o.0.contains('=')
    &&& !o.1.contains(',') && !o.1.contains(']')
}

/// Options as they are written.
pub open spec fn written(opts: Seq<(Seq<char>, Seq<char>)>) -> Seq<Seq<char>> {
    Seq::new(opts.len(), |k: int| opts[k].0 + seq!['='] + opts[k].1)
}

proof fn lemma_tight(t: Seq<char>)
    requires
        is_tight(t),
    ensures
        text::trim(t) == t,
{
    if t.len() > 0 {
        assert(text::trim_start(t) == t);
        assert(text::trim_end(t) == t);
    }
}

proof fn lemma_found_at(a: Seq<char>, b: Seq<char>, c: char, i: int)
    requires
        0 <= i <= a.len(),
        !a.contains(c),
    ensures
        text::find_char_from(a + seq![c] + b, c, i) == Some(a.len() as int),
    decreases a.len() - i,
{
    let s = a + seq![c] + b;
    if i < a.len() {
        assert(s[i] == a[i]);
        assert(a.contains(a[i]));
        lemma_found_at(a, b, c, i + 1);
    } else {
        assert(s[i] == c);
    }
}

proof fn lemma_option_in(o: (Seq<char>, Seq<char>))
    requires
        is_writable(o),
    ensures
        super::option_in(o.0 + seq!['='] + o.1) == Some(o),
{
    let t = o.0 + seq!['='] + o.1;
    assert(is_tight(t)) by {
        if o.0.len() > 0 {
            assert(t[0] == o.0[0]);
        }
        if o.1.len() > 0 {
            assert(t.last() == o.1.last());
        }
    }
    lemma_tight(t);
    lemma_found_at(o.0, o.1, '=', 0);
    assert(t.take(o.0.len() as int) =~= o.0);
    assert(t.skip(o.0.len() + 1int) =~= o.1);
    lemma_tight(o.0);
    lemma_tight(o.1);
}

proof fn lemma_no_char(o: (Seq<char>, Seq<char>), c: char)
    requires
        is_writable(o),
        c == ',' || c == ']',
    ensures
        !(o.0 + seq!['='] + o.1).contains(c),
{
    let t = o.0 + seq!['='] + o.1;
    assert forall|i: int| 0 <= i < t.len() implies t[i] != c by {
        if i < o.0.len() {
            assert(o.0.contains(o.0[i]));
        } else if i > o.0.len() {
            assert(o.1.contains(o.1[i - o.0.len() - 1]));
        }
    }
}

proof fn lemma_split_listed(parts: Seq<Seq<char>>)
    requires
        parts.len() > 0,
        forall|k: int| 0 <= k < parts.len() ==> !(#[trigger] parts[k]).contains(','),
    ensures
        text::split(listed(parts), ',') == parts,
    decreases parts.len(),
{
    let p = parts[0];
    assert(!p.contains(','));
    text::lemma_find_char_bounds(p, ',', 0);
    assert(text::find_char(p, ',') is None) by {
        if let Some(k) = text::find_char(p, ',') {
            assert(p.contains(p[k]));
        }
    }
    assert(text::split(p, ',') == seq![p]);
    if parts.len() == 1 {
        assert(parts =~= seq![p]);
    } else {
        let rest = parts.skip(1);
        assert forall|k: int| 0 <= k < rest.len() implies !(#[trigger] rest[k]).contains(',') by {
            assert(rest[k] == parts[k + 1]);
        }
        lemma_split_listed(rest);
        paths::lemma_split_join(p, listed(rest), ',');
        assert(parts =~= seq![p] + rest);
    }
}

proof fn lemma_listed_has_not(parts: Seq<Seq<char>>, c: char)
    requires
        c != ',',
        forall|k: int| 0 <= k < parts.len() ==> !(#[trigger] parts[k]).contains(c),
    ensures
        !listed(parts).contains(c),
    decreases parts.len(),
{
    if parts.len() > 0 {
        let p = parts[0];
        assert(!p.contains(c));
        if parts.len() > 1 {
            let rest = parts.skip(1);
            assert forall|k: int| 0 <= k < rest.len() implies !(#[trigger] rest[k]).contains(c) by {
                assert(rest[k] == parts[k + 1]);
            }
            lemma_listed_has_not(rest, c);
            let t = listed(parts);
            assert forall|i: int| 0 <= i < t.len() implies t[i] != c by {
                if i < p.len() {
                    assert(p.contains(p[i]));
                } else if i > p.len() {
                    assert(listed(rest).contains(listed(rest)[i - p.len() - 1]));
                }
            }
        }
    }
}

proof fn lemma_options_in(opts: Seq<(Seq<char>, Seq<char>)>, k: int)
    requires
        0 <= k <= opts.len(),
        forall|j: int| 0 <= j < opts.len() ==> is_writable(#[trigger] opts[j]),
    ensures
        super::options_in(written(opts), k) == opts.skip(k),
    decreases opts.len() - k,
{
    if k < opts.len() {
        lemma_options_in(opts, k + 1);
        assert(is_writable(opts[k]));
        lemma_option_in(opts[k]);
        assert(opts.skip(k) =~= seq![opts[k]] + opts.skip(k + 1));
    } else {
        assert(opts.skip(k) =~= Seq::empty());
    }
}

/// Options are read as they are written: in brackets, with commas between them.
pub proof fn law_written_options_are_read(opts: Seq<(Seq<char>, Seq<char>)>, rest: Seq<char>)
    requires
        forall|k: int| 0 <= k < opts.len() ==> is_writable(#[trigger] opts[k]),
    ensures
        super::options_at(seq!['['] + listed(written(opts)) + seq![']'] + rest) == (opts, rest),
{
    let w = written(opts);
    let inner = listed(w);
    let s = seq!['['] + inner + seq![']'] + rest;
    assert forall|k: int| 0 <= k < w.len() implies !(#[trigger] w[k]).contains(',')
        && !w[k].contains(']') by {
        assert(is_writable(opts[k]));
        lemma_no_char(opts[k], ',');
        lemma_no_char(opts[k], ']');
    }
    lemma_listed_has_not(w, ']');
    assert(s[0] == '[');
    assert(super::behind_breaks(s) == s);
    let head = seq!['['] + inner;
    assert(!head.contains(']')) by {
        assert forall|i: int| 0 <= i < head.len() implies head[i] != ']' by {
            if i > 0 {
                assert(inner.contains(inner[i - 1]));
            }
        }
    }
    lemma_found_at(head, rest, ']', 0);
    let e = head.len() as int;
    assert(s.subrange(1, e) =~= inner);
    assert(s.skip(e + 1) =~= rest);
    if opts.len() > 0 {
        lemma_split_listed(w);
        lemma_options_in(opts, 0);
        assert(opts.skip(0) =~= opts);
    } else {
        assert(inner =~= Seq::<char>::empty());
        assert(text::find_char(inner, ',') is None);
        let parts = text::split(inner, ',');
        assert(parts =~= seq![inner]);
        lemma_tight(inner);
        assert(text::find_char(inner, '=') is None);
        assert(super::option_in(inner) is None);
        assert(super::options_in(parts, 1) =~= Seq::empty());
        assert(super::options_in(parts, 0) =~= Seq::empty());
        assert(opts =~= Seq::empty());
    }
}

/// A block of an environment: its options, in brackets, and its source.
pub open spec fn block(
    env: Seq<char>,
    opts: Seq<(Seq<char>, Seq<char>)>,
    source: Seq<char>,
) -> Seq<char> {
    "\\begin{"@ + env + "}"@ + (seq!['['] + listed(written(opts)) + seq![']'] + (source
        + "\\end{"@ + env + "}"@))
}

/// Whether a text stands nowhere before the `n`-th character.
pub open spec fn not_before(s: Seq<char>, p: Seq<char>, n: int) -> bool {
    forall|j: int| 0 <= j < n ==> !#[trigger] text::matches_at(s, j, p)
}

/// Whether what is said about the position of a figure is one of the known positions.
pub open spec fn is_placed(opts: Seq<(Seq<char>, Seq<char>)>) -> bool {
    forall|v: Seq<char>| #[trigger]
        is_set(opts, "pos"@, v) ==> v == "H"@ || v == "t"@ || v == "b"@ || v == "h"@ || v == "p"@
}

/// Whether a name is that of the file for a diagram: it depends on the environment, the
/// source without the white space around it, and the style.
pub open spec fn is_file_of(
    name: Seq<char>,
    env: Seq<char>,
    source: Seq<char>,
    style: DiagramStyle,
) -> bool {
    let base = super::artefact_base(env, super::hash_of(text::trim(source), style.rank()));
    name == base + ".pdf"@ || name == base + ".png"@
}

pub proof fn lemma_found_text(s: Seq<char>, p: Seq<char>, n: int)
    requires
        0 <= n,
        text::matches_at(s, n, p),
        not_before(s, p, n),
    ensures
        text::find(s, p) == Some(n),
{
    text::lemma_find_bounds(s, p, 0);
    if let Some(k) = text::find(s, p) {
        if k < n {
            assert(!text::matches_at(s, k, p));
        }
    }
}

proof fn lemma_block(
    before: Seq<char>,
    env: Seq<char>,
    opts: Seq<(Seq<char>, Seq<char>)>,
    source: Seq<char>,
    after: Seq<char>,
    style: DiagramStyle,
)
    requires
        forall|k: int| 0 <= k < opts.len() ==> is_writable(#[trigger] opts[k]),
        not_before(
            before + block(env, opts, source) + after,
            "\\begin{"@ + env + "}"@,
            before.len() as int,
        ),
        not_before(
            source + "\\end{"@ + env + "}"@ + after,
            "\\end{"@ + env + "}"@,
            source.len() as int,
        ),
        is_placed(opts),
        is_unset(opts, "style"@),
    ensures
        super::first_block(before + block(env, opts, source) + after, env, style) == Ok::<
            Option<super::BlockView>,
            Seq<char>,
        >(
            Some(
                super::BlockView {
                    before,
                    opts,
                    source: text::trim(source),
                    style,
                    rest: after,
                },
            ),
        ),
{
    let begin = "\\begin{"@ + env + "}"@;
    let end = "\\end{"@ + env + "}"@;
    let s = before + block(env, opts, source) + after;
    let body = source + end + after;
    let n = before.len() as int;
    assert(source + "\\end{"@ + env + "}"@ =~= source + end);
    assert(source + "\\end{"@ + env + "}"@ + after =~= body);
    let head = seq!['['] + listed(written(opts)) + seq![']'];
    assert(block(env, opts, source) == begin + (head + (source + end)));
    assert(s.subrange(n, n + begin.len()) =~= begin);
    lemma_found_text(s, begin, n);
    assert(super::begin_tag(env) == begin);
    assert(super::end_tag(env) == end);
    let t = s.skip(n + begin.len());
    assert(t =~= head + body);
    law_written_options_are_read(opts, body);
    assert(body.subrange(source.len() as int, source.len() + end.len() as int) =~= end);
    lemma_found_text(body, end, source.len() as int);
    lemma_options(opts, "pos"@);
    lemma_options(opts, "style"@);
    assert(super::position_fault(opts, env) is None) by {
        if let Some(v) = super::option_of(opts, "pos"@) {
            assert(is_set(opts, "pos"@, v));
        }
    }
    assert(s.take(n) =~= before);
    assert(body.take(source.len() as int) =~= source);
    assert(body.skip(source.len() + end.len() as int) =~= after);
}

/// A block becomes its figure: the text before it stays, the figure stands in its place with
/// the file of that very diagram and the options of the block, and the text behind it is
/// rendered as if it stood alone. Where the diagram has no file it is asked for.
pub proof fn law_block_becomes_a_figure(
    before: Seq<char>,
    env: Seq<char>,
    opts: Seq<(Seq<char>, Seq<char>)>,
    source: Seq<char>,
    after: Seq<char>,
    style: DiagramStyle,
    files: Seq<Seq<char>>,
)
    requires
        forall|k: int| 0 <= k < opts.len() ==> is_writable(#[trigger] opts[k]),
        not_before(
            before + block(env, opts, source) + after,
            "\\begin{"@ + env + "}"@,
            before.len() as int,
        ),
        not_before(
            source + "\\end{"@ + env + "}"@ + after,
            "\\end{"@ + env + "}"@,
            source.len() as int,
        ),
        is_placed(opts),
        is_unset(opts, "style"@),
    ensures
        ({
            let s = before + block(env, opts, source) + after;
            let r = super::rendered(s, env, style, files);
            let rest = super::rendered(after, env, style, files);
            &&& (forall|name: Seq<char>|
                is_file_of(name, env, source, style) ==> !#[trigger] files.contains(name)) ==> (
            r matches RenderingView::Need(job) && job.env == env && job.source == text::trim(source)
                && job.style == style)
            &&& (exists|name: Seq<char>|
                is_file_of(name, env, source, style) && #[trigger] files.contains(name)) ==> {
                &&& rest matches RenderingView::Done(t) ==> exists|name: Seq<char>, fig: Seq<char>|
                    files.contains(name) && is_file_of(name, env, source, style)
                        && #[trigger] is_figure(fig, opts, name) && r == RenderingView::Done(
                        before + fig + t,
                    )
                &&& !(rest is Done) ==> r == rest
            }
        }),
{
    let s = before + block(env, opts, source) + after;
    let r = super::rendered(s, env, style, files);
    lemma_block(before, env, opts, source, after, style);
    let b = super::first_block(s, env, style)->Ok_0->0;
    let base = super::artefact_base(env, super::hash_of(text::trim(source), style.rank()));
    assert(super::block_base(b, env) == base);
    assert(is_file_of(base + ".pdf"@, env, source, style));
    assert(is_file_of(base + ".png"@, env, source, style));
    if let Some(name) = super::cached(files, base) {
        law_figure_shows_what_was_asked_for(opts, name);
        assert(is_figure(super::figure(opts, name), opts, name));
        assert(files.contains(name));
    } else {
        assert(!files.contains(base + ".pdf"@));
        assert(!files.contains(base + ".png"@));
    }
}

} // verus!
