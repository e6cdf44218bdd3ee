//! What an outline shows: every heading down to its depth, and the files that a document
//! includes.

use vstd::prelude::*;

use super::outline::{self, OutlineView, Walk};
use crate::paths;
use crate::position;
use crate::tally;
use crate::texparse::{self, SpannedView, TokenView};
use crate::text;
use crate::texutil;

verus! {

/// Whether an entry is that of a heading token.
pub open spec fn is_entry_of(
    e: OutlineView,
    root: Seq<char>,
    file: Seq<char>,
    source: Seq<char>,
    t: SpannedView,
) -> bool {
    t.token matches TokenView::Section { level, title } && e.level == level && e.title
        == outline::title_text(title) && e.file == outline::file_label(file, root) && e.line
        == position::line_at_byte(source, t.start)
}

/// Whether sections hold the entry of a heading token.
pub open spec fn shows(
    sections: Seq<OutlineView>,
    root: Seq<char>,
    file: Seq<char>,
    source: Seq<char>,
    t: SpannedView,
) -> bool {
    exists|j: int| 0 <= j < sections.len() && is_entry_of(#[trigger] sections[j], root, file, source, t)
}

/// Whether a heading token is of a level that an outline shows: parts, chapters, sections,
/// subsections and subsubsections.
pub open spec fn is_shown(t: TokenView) -> bool {
    t matches TokenView::Section { level, .. } && level <= 4
}

proof fn lemma_stays(a: Walk, b: Walk, root: Seq<char>, file: Seq<char>, source: Seq<char>, t: SpannedView)
    requires
        outline::continues(a, b),
        shows(a.sections, root, file, source, t),
    ensures
        shows(b.sections, root, file, source, t),
{
    let j = choose|j: int|
        0 <= j < a.sections.len() && is_entry_of(
            #[trigger] a.sections[j],
            root,
            file,
            source,
            t,
        );
    assert(b.sections[j] == a.sections[j]);
}

/// The outline behind one token.
spec fn behind(
    files: Seq<(Seq<char>, Option<Seq<char>>)>,
    root: Seq<char>,
    file: Seq<char>,
    source: Seq<char>,
    t: SpannedView,
    stack: Seq<Seq<char>>,
    w: Walk,
) -> Walk {
    match t.token {
        TokenView::Section { level, title } => outline::with_section(
            w,
            level,
            title,
            outline::file_label(file, root),
            position::line_at_byte(source, t.start),
        ),
        TokenView::Command { name, args } => if name == "input"@ && args.len() > 0 {
            outline::walked(files, root, texutil::tex_path(root, args.last()), stack, w)
        } else {
            w
        },
        _ => w,
    }
}

proof fn lemma_behind_continues(
    files: Seq<(Seq<char>, Option<Seq<char>>)>,
    root: Seq<char>,
    file: Seq<char>,
    source: Seq<char>,
    t: SpannedView,
    stack: Seq<Seq<char>>,
    w: Walk,
)
    requires
        outline::shown_levels(w.sections),
    ensures
        outline::shown_levels(behind(files, root, file, source, t, stack, w).sections),
        outline::continues(w, behind(files, root, file, source, t, stack, w)),
{
    if let TokenView::Command { name, args } = t.token {
        if name == "input"@ && args.len() > 0 {
            outline::lemma_walked(files, root, texutil::tex_path(root, args.last()), stack, w);
        }
    }
}

/// Every heading of a file that is of a level that an outline shows is in it, with its title
/// as it reads, its file and its line.
pub proof fn law_headings_are_shown(
    files: Seq<(Seq<char>, Option<Seq<char>>)>,
    root: Seq<char>,
    file: Seq<char>,
    source: Seq<char>,
    tokens: Seq<SpannedView>,
    k: int,
    stack: Seq<Seq<char>>,
    w: Walk,
    m: int,
)
    requires
        outline::shown_levels(w.sections),
        0 <= k <= m < tokens.len(),
        is_shown(tokens[m].token),
    ensures
        shows(
            outline::walked_tokens(files, root, file, source, tokens, k, stack, w).sections,
            root,
            file,
            source,
            tokens[m],
        ),
    decreases tokens.len() - k,
{
    let next = behind(files, root, file, source, tokens[k], stack, w);
    lemma_behind_continues(files, root, file, source, tokens[k], stack, w);
    let end = outline::walked_tokens(files, root, file, source, tokens, k + 1, stack, next);
    outline::lemma_walked_tokens(files, root, file, source, tokens, k + 1, stack, next);
    if k < m {
        law_headings_are_shown(files, root, file, source, tokens, k + 1, stack, next, m);
    } else {
        assert(is_entry_of(
            next.sections[next.sections.len() - 1],
            root,
            file,
            source,
            tokens[m],
        ));
        lemma_stays(next, end, root, file, source, tokens[m]);
    }
}

/// A file that a document includes is read where it is included, unless it is being read:
/// its headings are in the outline too.
pub proof fn law_included_headings_are_shown(
    files: Seq<(Seq<char>, Option<Seq<char>>)>,
    root: Seq<char>,
    file: Seq<char>,
    source: Seq<char>,
    tokens: Seq<SpannedView>,
    k: int,
    stack: Seq<Seq<char>>,
    w: Walk,
    m: int,
    i: int,
    inner: Seq<char>,
    n: int,
)
    requires
        outline::shown_levels(w.sections),
        0 <= k <= m < tokens.len(),
        tokens[m].token matches TokenView::Command { name, args } && name == "input"@ && args.len()
            > 0 && !paths::lists(stack, texutil::tex_path(root, args.last())) && texutil::file_at(
            files,
            texutil::tex_path(root, args.last()),
            0,
        ) == Some(i),
        0 <= i < files.len(),
        files[i].1 == Some(inner),
        0 <= n < texparse::scan_source(inner).tokens.len(),
        is_shown(texparse::scan_source(inner).tokens[n].token),
    ensures
        tokens[m].token matches TokenView::Command { name, args } && shows(
            outline::walked_tokens(files, root, file, source, tokens, k, stack, w).sections,
            root,
            texutil::tex_path(root, args.last()),
            inner,
            texparse::scan_source(inner).tokens[n],
        ),
    decreases tokens.len() - k,
{
    let next = behind(files, root, file, source, tokens[k], stack, w);
    lemma_behind_continues(files, root, file, source, tokens[k], stack, w);
    let end = outline::walked_tokens(files, root, file, source, tokens, k + 1, stack, next);
    outline::lemma_walked_tokens(files, root, file, source, tokens, k + 1, stack, next);
    if k < m {
        law_included_headings_are_shown(
            files,
            root,
            file,
            source,
            tokens,
            k + 1,
            stack,
            next,
            m,
            i,
            inner,
            n,
        );
    } else if let TokenView::Command { name, args } = tokens[m].token {
        let path = texutil::tex_path(root, args.last());
        let own = texparse::scan_source(inner).tokens;
        law_headings_are_shown(files, root, path, inner, own, 0, stack.push(path), w, n);
        lemma_stays(next, end, root, path, inner, own[n]);
    }
}

// ---------------------------------------------------------------------------
// One file
// ---------------------------------------------------------------------------

/// The positions of the headings among the first `n` tokens.
pub open spec fn heads(ts: Seq<TokenView>, n: int) -> Seq<int>
    decreases n,
{
    if n <= 0 {
        Seq::empty()
    } else if tally::is_heading(ts, n - 1) {
        heads(ts, n - 1).push(n - 1)
    } else {
        heads(ts, n - 1)
    }
}

/// Those of them that an outline shows.
pub open spec fn shown_heads(ts: Seq<TokenView>, n: int) -> Seq<int>
    decreases n,
{
    if n <= 0 {
        Seq::empty()
    } else if is_shown(ts[n - 1]) {
        shown_heads(ts, n - 1).push(n - 1)
    } else {
        shown_heads(ts, n - 1)
    }
}

/// Whether an entry is that of the heading at a position, with its number.
pub open spec fn is_numbered_entry(
    e: OutlineView,
    root: Seq<char>,
    file: Seq<char>,
    source: Seq<char>,
    p: int,
) -> bool {
    let ts = texparse::tokens_of(source);
    &&& is_entry_of(e, root, file, source, texparse::scan_source(source).tokens[p])
    &&& tally::is_number(tally::levels(ts, heads(ts, p + 1)), heads(ts, p).len() as int, e.number)
}

spec fn is_walked(
    root: Seq<char>,
    file: Seq<char>,
    source: Seq<char>,
    n: int,
    w: Walk,
) -> bool {
    let ts = texparse::tokens_of(source);
    let h = heads(ts, n);
    &&& w.counters.len() == 7
    &&& forall|l: int|
        0 <= l < 7 ==> #[trigger] w.counters[l] == tally::so_far(
            tally::levels(ts, h),
            l,
            h.len() as int,
        )
    &&& w.sections.len() == shown_heads(ts, n).len()
    &&& forall|j: int|
        0 <= j < w.sections.len() ==> is_numbered_entry(
            #[trigger] w.sections[j],
            root,
            file,
            source,
            shown_heads(ts, n)[j],
        )
}

proof fn lemma_few(ts: Seq<TokenView>, n: int)
    requires
        0 <= n,
    ensures
        heads(ts, n).len() <= n,
    decreases n,
{
    if n > 0 {
        lemma_few(ts, n - 1);
    }
}

proof fn lemma_step(
    root: Seq<char>,
    file: Seq<char>,
    source: Seq<char>,
    n: int,
    w: Walk,
    level: u8,
    title: Seq<char>,
)
    requires
        0 <= n < texparse::tokens_of(source).len() <= usize::MAX,
        is_walked(root, file, source, n, w),
        texparse::tokens_of(source)[n] == (TokenView::Section { level, title }),
    ensures
        is_walked(
            root,
            file,
            source,
            n + 1,
            outline::with_section(
                w,
                level,
                title,
                outline::file_label(file, root),
                position::line_at_byte(source, texparse::scan_source(source).tokens[n].start),
            ),
        ),
{
    let ts = texparse::tokens_of(source);
    let u = outline::with_section(
        w,
        level,
        title,
        outline::file_label(file, root),
        position::line_at_byte(source, texparse::scan_source(source).tokens[n].start),
    );
    let g = heads(ts, n);
    let h = heads(ts, n + 1);
    if level < 7 {
        assert(tally::is_heading(ts, n));
        let lg = tally::levels(ts, g);
        let lh = tally::levels(ts, h);
        lemma_few(ts, n);
        assert forall|j: int| 0 <= j < g.len() implies lg[j] == lh[j] by {
            assert(h[j] == g[j]);
        }
        assert forall|l: int| 0 <= l < 7 implies #[trigger] u.counters[l] == tally::so_far(
            lh,
            l,
            h.len() as int,
        ) by {
            tally::lemma_so_far_prefix(lg, lh, l, g.len() as int);
            tally::lemma_so_far(lg, l, g.len() as int);
            assert(w.counters[l] == tally::so_far(lg, l, g.len() as int));
        }
        tally::lemma_number(lh, g.len() as int, u.counters);
        if level <= 4 {
            assert(is_numbered_entry(u.sections[u.sections.len() - 1], root, file, source, n));
        }
        assert forall|j: int| 0 <= j < u.sections.len() implies is_numbered_entry(
            #[trigger] u.sections[j],
            root,
            file,
            source,
            shown_heads(ts, n + 1)[j],
        ) by {
            if j < w.sections.len() {
                assert(u.sections[j] == w.sections[j]);
                assert(is_numbered_entry(
                    w.sections[j],
                    root,
                    file,
                    source,
                    shown_heads(ts, n)[j],
                ));
            }
        }
    }
}

proof fn lemma_one_file(
    files: Seq<(Seq<char>, Option<Seq<char>>)>,
    root: Seq<char>,
    file: Seq<char>,
    source: Seq<char>,
    k: int,
    stack: Seq<Seq<char>>,
    w: Walk,
)
    requires
        0 <= k <= texparse::tokens_of(source).len() <= usize::MAX,
        is_walked(root, file, source, k, w),
        forall|j: int|
            0 <= j < texparse::tokens_of(source).len() ==> !(
            #[trigger] texparse::tokens_of(source)[j] matches TokenView::Command { name, .. } && name
                == "input"@),
    ensures
        is_walked(
            root,
            file,
            source,
            texparse::tokens_of(source).len() as int,
            outline::walked_tokens(
                files,
                root,
                file,
                source,
                texparse::scan_source(source).tokens,
                k,
                stack,
                w,
            ),
        ),
    decreases texparse::tokens_of(source).len() - k,
{
    let ts = texparse::tokens_of(source);
    let tokens = texparse::scan_source(source).tokens;
    if k < ts.len() {
        assert(ts[k] == tokens[k].token);
        match ts[k] {
            TokenView::Section { level, title } => {
                lemma_step(root, file, source, k, w, level, title);
                let u = outline::with_section(
                    w,
                    level,
                    title,
                    outline::file_label(file, root),
                    position::line_at_byte(source, tokens[k].start),
                );
                lemma_one_file(files, root, file, source, k + 1, stack, u);
            },
            _ => {
                assert(heads(ts, k + 1) == heads(ts, k));
                assert(shown_heads(ts, k + 1) == shown_heads(ts, k));
                lemma_one_file(files, root, file, source, k + 1, stack, w);
            },
        }
    }
}

/// The outline of a file that includes no other is the list of its headings, in order, down
/// to subsubsections, each with its number, its title as it reads, and its line; and of
/// nothing else.
pub proof fn law_outline_of_one_file(
    files: Seq<(Seq<char>, Option<Seq<char>>)>,
    root: Seq<char>,
    file: Seq<char>,
    i: int,
    source: Seq<char>,
)
    requires
        texutil::file_at(files, file, 0) == Some(i),
        0 <= i < files.len(),
        files[i].1 == Some(source),
        texparse::tokens_of(source).len() <= usize::MAX,
        forall|j: int|
            0 <= j < texparse::tokens_of(source).len() ==> !(
            #[trigger] texparse::tokens_of(source)[j] matches TokenView::Command { name, .. } && name
                == "input"@),
    ensures
        ({
            let ts = texparse::tokens_of(source);
            let sections = outline::walked(
                files,
                root,
                file,
                Seq::empty(),
                outline::walk_start(),
            ).sections;
            let p = shown_heads(ts, ts.len() as int);
            &&& sections.len() == p.len()
            &&& forall|j: int|
                0 <= j < p.len() ==> is_numbered_entry(
                    #[trigger] sections[j],
                    root,
                    file,
                    source,
                    p[j],
                )
        }),
{
    let ts = texparse::tokens_of(source);
    assert(heads(ts, 0) =~= Seq::<int>::empty());
    assert(!paths::lists(Seq::empty(), file));
    lemma_one_file(
        files,
        root,
        file,
        source,
        0,
        Seq::<Seq<char>>::empty().push(file),
        outline::walk_start(),
    );
}

/// A title without commands, math and comments is shown as it is.
pub proof fn law_plain_titles_are_kept(title: Seq<char>)
    requires
        forall|k: int|
            0 <= k < title.len() ==> #[trigger] title[k] != '\\' && title[k] != '$' && title[k]
                != '%',
    ensures
        outline::title_text(title) == title,
{
    assert(!outline::has_markup(title)) by {
        if outline::has_markup(title) {
            let k = choose|k: int|
                0 <= k < title.len() && texparse::is_special(#[trigger] title[k]);
            assert(title[k] != '\\');
        }
    }
}

/// What a reader sees of the first `n` tokens of a title: its prose, and the characters that
/// are escaped.
pub open spec fn seen(ts: Seq<TokenView>, n: int) -> Seq<char>
    decreases n,
{
    if n <= 0 {
        Seq::empty()
    } else {
        seen(ts, n - 1) + match ts[n - 1] {
            TokenView::Text(x) => x,
            TokenView::Command { name, .. } => if name.len() == 1 && "&%$#_{}"@.contains(name[0]) {
                name
            } else {
                Seq::empty()
            },
            _ => Seq::empty(),
        }
    }
}

proof fn lemma_symbol(c: char)
    ensures
        "&%$#_{}"@.contains(c) <==> c == '&' || c == '%' || c == '$' || c == '#' || c == '_' || c
            == '{' || c == '}',
{
    let all = "&%$#_{}"@;
    reveal_strlit("&%$#_{}");
    assert(all[0] == '&' && all[1] == '%' && all[2] == '$' && all[3] == '#' && all[4] == '_'
        && all[5] == '{' && all[6] == '}');
    if all.contains(c) {
        let i = choose|i: int| 0 <= i < all.len() && all[i] == c;
        assert(0 <= i < 7);
    }
}

proof fn lemma_seen(ts: Seq<TokenView>, n: int)
    requires
        0 <= n <= ts.len(),
    ensures
        outline::tokens_text(ts, n) == seen(ts, n),
    decreases n,
{
    if n > 0 {
        lemma_seen(ts, n - 1);
        if let TokenView::Command { name, args } = ts[n - 1] {
            if name.len() == 1 {
                lemma_symbol(name[0]);
            }
        }
    }
}

/// A title with commands, math or a comment is shown as its prose and its escaped characters
/// read, with single spaces between the words.
pub proof fn law_titles_are_shown_as_they_read(title: Seq<char>, k: int)
    requires
        0 <= k < title.len(),
        title[k] == '\\' || title[k] == '$' || title[k] == '%',
    ensures
        ({
            let ts = texparse::tokens_of(title);
            outline::title_text(title) == text::join(
                text::words(seen(ts, ts.len() as int)),
                seq![' '],
            )
        }),
{
    let ts = texparse::tokens_of(title);
    assert(texparse::is_special(title[k]));
    lemma_seen(ts, ts.len() as int);
    reveal_strlit(" ");
    assert(" "@ =~= seq![' ']);
}

} // verus!
