//! Which blocks cannot be rendered, and how a block without options is read.

use vstd::prelude::*;

use super::figures;
use super::style::DiagramStyle;
use super::RenderingView;
use crate::text;

verus! {

/// Whether a text begins neither with a bracket nor with a line break.
pub open spec fn begins_plainly(t: Seq<char>) -> bool {
    t.len() > 0 && t[0] != '[' && t[0] != '\n' && t[0] != '\r'
}

/// A text of line feeds.
pub open spec fn is_feeds(t: Seq<char>) -> bool {
    forall|i: int| 0 <= i < t.len() ==> #[trigger] t[i] == '\n'
}

proof fn lemma_feeds(a: Seq<char>, t: Seq<char>)
    requires
        is_feeds(a),
        t.len() > 0,
        t[0] != '\n',
    ensures
        text::trim_start_char(a + t, '\n') == t,
    decreases a.len(),
{
    if a.len() == 0 {
        assert(a + t =~= t);
    } else {
        assert((a + t)[0] == a[0]);
        assert((a + t).skip(1) =~= a.skip(1) + t);
        assert forall|i: int| 0 <= i < a.skip(1).len() implies #[trigger] a.skip(1)[i] == '\n' by {
            assert(a.skip(1)[i] == a[i + 1]);
        }
        lemma_feeds(a.skip(1), t);
    }
}

proof fn lemma_no_options(a: Seq<char>, t: Seq<char>)
    requires
        is_feeds(a),
        begins_plainly(t),
    ensures
        super::options_at(a + t) == (Seq::<(Seq<char>, Seq<char>)>::empty(), t),
{
    lemma_feeds(a, t);
    assert(super::behind_breaks(a + t) == t);
}

/// A block that begins and ends, in a text.
pub open spec fn block_in(
    before: Seq<char>,
    env: Seq<char>,
    options: Seq<char>,
    source: Seq<char>,
    after: Seq<char>,
) -> Seq<char> {
    before + ("\\begin{"@ + env + "}"@) + options + (source + ("\\end{"@ + env + "}"@) + after)
}

/// A block without options is a diagram of the default style, and its figure is as wide as a
/// line.
pub proof fn law_block_without_options_is_rendered(
    before: Seq<char>,
    env: Seq<char>,
    feeds: Seq<char>,
    source: Seq<char>,
    after: Seq<char>,
    style: DiagramStyle,
    files: Seq<Seq<char>>,
)
    requires
        is_feeds(feeds),
        begins_plainly(source),
        figures::not_before(
            block_in(before, env, feeds, source, after),
            "\\begin{"@ + env + "}"@,
            before.len() as int,
        ),
        figures::not_before(
            source + ("\\end{"@ + env + "}"@) + after,
            "\\end{"@ + env + "}"@,
            source.len() as int,
        ),
    ensures
        ({
            let none = Seq::<(Seq<char>, Seq<char>)>::empty();
            let r = super::rendered(block_in(before, env, feeds, source, after), env, style, files);
            let rest = super::rendered(after, env, style, files);
            &&& (forall|name: Seq<char>|
                figures::is_file_of(name, env, source, style) ==> !#[trigger] files.contains(name))
                ==> (r matches RenderingView::Need(job) && job.env == env && job.source
                == text::trim(source) && job.style == style)
            &&& (exists|name: Seq<char>|
                figures::is_file_of(name, env, source, style) && #[trigger] files.contains(name))
                ==> (rest matches RenderingView::Done(t) ==> exists|
                name: Seq<char>,
                fig: Seq<char>,
            |
                files.contains(name) && figures::is_file_of(name, env, source, style)
                    && #[trigger] figures::is_figure(fig, none, name) && r == RenderingView::Done(
                    before + fig + t,
                ))
        }),
{
    let begin = "\\begin{"@ + env + "}"@;
    let end = "\\end{"@ + env + "}"@;
    let body = source + end + after;
    let s = block_in(before, env, feeds, source, after);
    let n = before.len() as int;
    let none = Seq::<(Seq<char>, Seq<char>)>::empty();
    assert(s.subrange(n, n + begin.len()) =~= begin);
    figures::lemma_found_text(s, begin, n);
    let t = s.skip(n + begin.len());
    assert(t =~= feeds + body);
    assert(begins_plainly(body)) by {
        assert(body[0] == source[0]);
    }
    lemma_no_options(feeds, body);
    assert(body.subrange(source.len() as int, source.len() + end.len() as int) =~= end);
    figures::lemma_found_text(body, end, source.len() as int);
    assert(super::option_of(none, "pos"@) is None);
    assert(super::option_of(none, "style"@) is None);
    assert(s.take(n) =~= before);
    assert(body.take(source.len() as int) =~= source);
    assert(body.skip(source.len() + end.len() as int) =~= after);
    let b = super::BlockView { before, opts: none, source: text::trim(source), style, rest: after };
    assert(super::first_block(s, env, style) == Ok::<Option<super::BlockView>, Seq<char>>(Some(b)));
    let base = super::artefact_base(env, super::hash_of(text::trim(source), style.rank()));
    assert(super::block_base(b, env) == base);
    assert(figures::is_file_of(base + ".pdf"@, env, source, style));
    assert(figures::is_file_of(base + ".png"@, env, source, style));
    if let Some(name) = super::cached(files, base) {
        figures::law_figure_shows_what_was_asked_for(none, name);
        assert(figures::is_figure(super::figure(none, name), none, name));
        assert(files.contains(name));
    } else {
        assert(!files.contains(base + ".pdf"@));
        assert(!files.contains(base + ".png"@));
    }
}

/// A block that is never ended cannot be rendered.
pub proof fn law_unended_block_fails(
    before: Seq<char>,
    env: Seq<char>,
    feeds: Seq<char>,
    source: Seq<char>,
    style: DiagramStyle,
    files: Seq<Seq<char>>,
)
    requires
        is_feeds(feeds),
        begins_plainly(source),
        figures::not_before(
            before + ("\\begin{"@ + env + "}"@) + feeds + source,
            "\\begin{"@ + env + "}"@,
            before.len() as int,
        ),
        forall|j: int| 0 <= j ==> !#[trigger] text::matches_at(source, j, "\\end{"@ + env + "}"@),
    ensures
        super::rendered(before + ("\\begin{"@ + env + "}"@) + feeds + source, env, style, files)
            == RenderingView::Failed("\\begin{"@ + env + "} without matching \\end{"@ + env + "}"@),
{
    let begin = "\\begin{"@ + env + "}"@;
    let s = before + begin + feeds + source;
    let n = before.len() as int;
    assert(s.subrange(n, n + begin.len()) =~= begin);
    figures::lemma_found_text(s, begin, n);
    assert(s.skip(n + begin.len()) =~= feeds + source);
    lemma_no_options(feeds, source);
    text::lemma_find_bounds(source, "\\end{"@ + env + "}"@, 0);
}

/// A block with a position that is none, or with a style that is none, cannot be rendered;
/// and one with a style of its own is rendered in that style.
pub proof fn law_options_are_checked(
    before: Seq<char>,
    env: Seq<char>,
    opts: Seq<(Seq<char>, Seq<char>)>,
    source: Seq<char>,
    after: Seq<char>,
    style: DiagramStyle,
    files: Seq<Seq<char>>,
    v: Seq<char>,
)
    requires
        forall|k: int| 0 <= k < opts.len() ==> figures::is_writable(#[trigger] opts[k]),
        figures::not_before(
            before + figures::block(env, opts, source) + after,
            "\\begin{"@ + env + "}"@,
            before.len() as int,
        ),
        figures::not_before(
            source + "\\end{"@ + env + "}"@ + after,
            "\\end{"@ + env + "}"@,
            source.len() as int,
        ),
    ensures
        ({
            let s = before + figures::block(env, opts, source) + after;
            let r = super::rendered(s, env, style, files);
            &&& figures::is_set(opts, "pos"@, v) && v != "H"@ && v != "t"@ && v != "b"@ && v != "h"@
                && v != "p"@ ==> r is Failed
            &&& figures::is_set(opts, "style"@, v) && v != "default"@ && v != "editorial"@ && v
                != "monochrome"@ && v != "technical"@ ==> r is Failed
            &&& (figures::is_placed(opts) && files.len() == 0) ==> {
                &&& figures::is_unset(opts, "style"@) ==> (r matches RenderingView::Need(job)
                    && job.style == style)
                &&& figures::is_set(opts, "style"@, "default"@) ==> (r matches RenderingView::Need(
                    job,
                ) && job.style == DiagramStyle::Default)
                &&& figures::is_set(opts, "style"@, "editorial"@) ==> (
                r matches RenderingView::Need(job) && job.style == DiagramStyle::Editorial)
                &&& figures::is_set(opts, "style"@, "monochrome"@) ==> (
                r matches RenderingView::Need(job) && job.style == DiagramStyle::Monochrome)
                &&& figures::is_set(opts, "style"@, "technical"@) ==> (
                r matches RenderingView::Need(job) && job.style == DiagramStyle::Technical)
            }
        }),
{
    let begin = "\\begin{"@ + env + "}"@;
    let end = "\\end{"@ + env + "}"@;
    let s = before + figures::block(env, opts, source) + after;
    let body = source + end + after;
    let n = before.len() as int;
    assert(source + "\\end{"@ + env + "}"@ =~= source + end);
    assert(source + "\\end{"@ + env + "}"@ + after =~= body);
    let head = seq!['['] + figures::listed(figures::written(opts)) + seq![']'];
    assert(figures::block(env, opts, source) == begin + (head + (source + end)));
    assert(s.subrange(n, n + begin.len()) =~= begin);
    figures::lemma_found_text(s, begin, n);
    assert(s.skip(n + begin.len()) =~= head + body);
    figures::law_written_options_are_read(opts, body);
    assert(body.subrange(source.len() as int, source.len() + end.len() as int) =~= end);
    figures::lemma_found_text(body, end, source.len() as int);
    figures::lemma_options(opts, "pos"@);
    figures::lemma_options(opts, "style"@);
    if let Some(p) = super::option_of(opts, "pos"@) {
        assert(figures::is_set(opts, "pos"@, p));
    }
    reveal_strlit("default");
    reveal_strlit("editorial");
    reveal_strlit("monochrome");
    reveal_strlit("technical");
    assert("default"@[0] == 'd');
    assert("editorial"@[0] == 'e');
    assert("monochrome"@[0] == 'm');
    assert("technical"@[0] == 't');
}

} // verus!
