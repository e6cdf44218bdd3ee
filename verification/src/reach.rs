//! Which files a traversal of `\input` reaches: those that are there, and no others.

use vstd::prelude::*;

use crate::paths;
use crate::texutil::{self, SourceView, TraversalView};

verus! {

/// Whether a file can be read and names a target whose path is `p`.
pub open spec fn leads_to(
    root: Seq<char>,
    tree: Seq<(Seq<char>, Option<Seq<char>>)>,
    file: Seq<char>,
    p: Seq<char>,
) -> bool {
    match texutil::source_at(tree, file) {
        SourceView::Text(x) => exists|j: int|
            0 <= j < texutil::inputs_of(x).len() && #[trigger] texutil::tex_path(
                root,
                texutil::inputs_of(x)[j],
            ) == p,
        _ => false,
    }
}

/// Whether one of the targets has the path `p`.
spec fn is_pending(root: Seq<char>, targets: Seq<Seq<char>>, p: Seq<char>) -> bool {
    exists|m: int| 0 <= m < targets.len() && #[trigger] texutil::tex_path(root, targets[m]) == p
}

/// Whether every target of the collected files is missing, collected or still to visit.
spec fn none_is_lost(t: TraversalView, tree: Seq<(Seq<char>, Option<Seq<char>>)>) -> bool {
    forall|i: int, p: Seq<char>|
        0 <= i < t.collection.files.len() && #[trigger] leads_to(
            t.root,
            tree,
            t.collection.files[i],
            p,
        ) ==> texutil::source_at(tree, p) is Missing || paths::lists(t.collection.files, p)
            || is_pending(t.root, t.pending, p)
}

/// Whether a file is the entry point or the target of one of the first `n` files.
pub open spec fn is_reached(
    root: Seq<char>,
    entry: Seq<char>,
    tree: Seq<(Seq<char>, Option<Seq<char>>)>,
    files: Seq<Seq<char>>,
    n: int,
    p: Seq<char>,
) -> bool {
    p == texutil::tex_path(root, entry) || exists|k: int|
        0 <= k < n && #[trigger] leads_to(root, tree, files[k], p)
}

/// Whether everything that is collected or still to visit was reached.
spec fn none_is_strange(
    t: TraversalView,
    entry: Seq<char>,
    tree: Seq<(Seq<char>, Option<Seq<char>>)>,
) -> bool {
    let files = t.collection.files;
    &&& forall|i: int|
        0 <= i < files.len() ==> is_reached(t.root, entry, tree, files, i, #[trigger] files[i])
    &&& forall|m: int|
        0 <= m < t.pending.len() ==> is_reached(
            t.root,
            entry,
            tree,
            files,
            files.len() as int,
            texutil::tex_path(t.root, #[trigger] t.pending[m]),
        )
}

proof fn lemma_pending_shift(
    root: Seq<char>,
    targets: Seq<Seq<char>>,
    first: Seq<Seq<char>>,
    p: Seq<char>,
)
    requires
        targets.len() > 0,
        is_pending(root, targets, p),
        texutil::tex_path(root, targets[0]) != p,
    ensures
        is_pending(root, first + targets.skip(1), p),
{
    let m = choose|m: int|
        0 <= m < targets.len() && #[trigger] texutil::tex_path(root, targets[m]) == p;
    let all = first + targets.skip(1);
    assert(all[first.len() + m - 1] == targets[m]);
    assert(texutil::tex_path(root, all[first.len() + m - 1]) == p);
}

proof fn lemma_lists_more(files: Seq<Seq<char>>, q: Seq<char>, p: Seq<char>)
    ensures
        paths::lists(files, p) ==> paths::lists(files.push(q), p),
        paths::lists(files.push(q), q),
{
    if paths::lists(files, p) {
        let k = choose|k: int| 0 <= k < files.len() && #[trigger] paths::same(files[k], p);
        assert(paths::same(files.push(q)[k], p));
    }
    assert(paths::same(files.push(q)[files.len() as int], q));
}

proof fn lemma_step_loses_none(t: TraversalView, tree: Seq<(Seq<char>, Option<Seq<char>>)>)
    requires
        t.pending.len() > 0,
        none_is_lost(t, tree),
    ensures
        none_is_lost(t.step(texutil::source_at(tree, t.next())), tree),
{
    let source = texutil::source_at(tree, t.next());
    let u = t.step(source);
    let files = t.collection.files;
    let now = u.collection.files;
    let none = Seq::<Seq<char>>::empty();
    assert(none + t.pending.skip(1) =~= t.pending.skip(1));
    assert forall|i: int, p: Seq<char>|
        0 <= i < now.len() && #[trigger] leads_to(u.root, tree, now[i], p) implies {
        ||| texutil::source_at(tree, p) is Missing
        ||| paths::lists(now, p)
        ||| is_pending(u.root, u.pending, p)
    } by {
        lemma_lists_more(files, t.next(), p);
        if i < files.len() {
            assert(leads_to(t.root, tree, files[i], p));
            if is_pending(t.root, t.pending, p) && t.next() != p {
                match source {
                    SourceView::Text(x) => {
                        lemma_pending_shift(t.root, t.pending, texutil::inputs_of(x), p);
                        lemma_pending_shift(t.root, t.pending, none, p);
                    },
                    _ => {
                        lemma_pending_shift(t.root, t.pending, none, p);
                    },
                }
            }
        } else if let SourceView::Text(x) = source {
            let inner = texutil::inputs_of(x);
            let j = choose|j: int|
                0 <= j < inner.len() && #[trigger] texutil::tex_path(t.root, inner[j]) == p;
            assert(u.pending[j] == inner[j]);
            assert(texutil::tex_path(u.root, u.pending[j]) == p);
        }
    }
}

proof fn lemma_reached_more(
    root: Seq<char>,
    entry: Seq<char>,
    tree: Seq<(Seq<char>, Option<Seq<char>>)>,
    files: Seq<Seq<char>>,
    n: int,
    q: Seq<char>,
    p: Seq<char>,
)
    requires
        0 <= n <= files.len(),
        is_reached(root, entry, tree, files, n, p),
    ensures
        is_reached(root, entry, tree, files.push(q), n, p),
        is_reached(root, entry, tree, files.push(q), files.len() + 1int, p),
{
    if p != texutil::tex_path(root, entry) {
        let k = choose|k: int| 0 <= k < n && #[trigger] leads_to(root, tree, files[k], p);
        assert(leads_to(root, tree, files.push(q)[k], p));
    }
}

proof fn lemma_step_adds_none(
    t: TraversalView,
    entry: Seq<char>,
    tree: Seq<(Seq<char>, Option<Seq<char>>)>,
)
    requires
        t.pending.len() > 0,
        none_is_strange(t, entry, tree),
    ensures
        none_is_strange(t.step(texutil::source_at(tree, t.next())), entry, tree),
{
    let source = texutil::source_at(tree, t.next());
    let u = t.step(source);
    let files = t.collection.files;
    let now = u.collection.files;
    let n = now.len() as int;
    let q = t.next();
    assert(is_reached(
        t.root,
        entry,
        tree,
        files,
        files.len() as int,
        texutil::tex_path(t.root, t.pending[0]),
    ));
    assert forall|i: int| 0 <= i < now.len() implies is_reached(
        u.root,
        entry,
        tree,
        now,
        i,
        #[trigger] now[i],
    ) by {
        if i < files.len() {
            assert(now[i] == files[i]);
            assert(is_reached(t.root, entry, tree, files, i, files[i]));
            lemma_reached_more(t.root, entry, tree, files, i, q, files[i]);
        } else {
            lemma_reached_more(t.root, entry, tree, files, i, q, q);
        }
    }
    assert forall|m: int| 0 <= m < u.pending.len() implies is_reached(
        u.root,
        entry,
        tree,
        now,
        n,
        texutil::tex_path(u.root, #[trigger] u.pending[m]),
    ) by {
        let inner = match source {
            SourceView::Text(x) => if n > files.len() {
                texutil::inputs_of(x)
            } else {
                Seq::empty()
            },
            _ => Seq::empty(),
        };
        assert(u.pending =~= inner + t.pending.skip(1));
        if m < inner.len() {
            assert(now[n - 1] == q);
            assert(u.pending[m] == inner[m]);
            assert(leads_to(t.root, tree, now[n - 1], texutil::tex_path(t.root, inner[m])));
        } else {
            let old_m = m - inner.len() + 1;
            assert(u.pending[m] == t.pending[old_m]);
            lemma_reached_more(
                t.root,
                entry,
                tree,
                files,
                files.len() as int,
                q,
                texutil::tex_path(t.root, t.pending[old_m]),
            );
        }
    }
}

proof fn lemma_collected(
    t: TraversalView,
    entry: Seq<char>,
    tree: Seq<(Seq<char>, Option<Seq<char>>)>,
)
    requires
        none_is_lost(t, tree),
        none_is_strange(t, entry, tree),
    ensures
        ({
            let end = TraversalView {
                pending: Seq::empty(),
                collection: texutil::collected(t, tree),
                ..t
            };
            none_is_lost(end, tree) && none_is_strange(end, entry, tree)
        }),
    decreases texutil::unvisited(tree, t.collection.files, 0), t.pending.len(),
{
    if t.pending.len() > 0 {
        texutil::lemma_step_decreases(t, tree);
        lemma_step_loses_none(t, tree);
        lemma_step_adds_none(t, entry, tree);
        lemma_collected(t.step(texutil::source_at(tree, t.next())), entry, tree);
    } else {
        assert(t.pending =~= Seq::empty());
    }
}

/// A traversal collects every target of a file that it collects, where the target is there
/// and the file can be read; and every file that it collects is the entry point or such a
/// target of a file before it.
pub proof fn law_inputs_are_followed(
    root: Seq<char>,
    entry: Seq<char>,
    tree: Seq<(Seq<char>, Option<Seq<char>>)>,
)
    ensures
        ({
            let files = texutil::collected(TraversalView::start(root, entry), tree).files;
            &&& forall|i: int, p: Seq<char>|
                0 <= i < files.len() && #[trigger] leads_to(root, tree, files[i], p)
                    && !(texutil::source_at(tree, p) is Missing) ==> paths::lists(files, p)
            &&& forall|i: int|
                0 <= i < files.len() ==> is_reached(root, entry, tree, files, i, #[trigger] files[i])
        }),
{
    let t = TraversalView::start(root, entry);
    lemma_collected(t, entry, tree);
    let files = texutil::collected(t, tree).files;
    let end = TraversalView {
        pending: Seq::empty(),
        collection: texutil::collected(t, tree),
        ..t
    };
    assert forall|i: int, p: Seq<char>|
        0 <= i < files.len() && #[trigger] leads_to(root, tree, files[i], p)
            && !(texutil::source_at(tree, p) is Missing) implies paths::lists(files, p) by {
        assert(leads_to(end.root, tree, end.collection.files[i], p));
        assert(!is_pending(end.root, end.pending, p));
    }
    assert forall|i: int| 0 <= i < files.len() implies is_reached(
        root,
        entry,
        tree,
        files,
        i,
        #[trigger] files[i],
    ) by {
        assert(is_reached(end.root, entry, tree, files, i, end.collection.files[i]));
    }
}

} // verus!
