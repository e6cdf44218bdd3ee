//! Shared helpers for scanning LaTeX text, and the traversal of `\input`.

use vstd::prelude::*;

use crate::paths;
use crate::text::{self, chars_of, string_of};

verus! {

/// The path of an `\input` target: seen from `root`, with the extension `tex` where it
/// has none.
pub open spec fn tex_path(root: Seq<char>, input: Seq<char>) -> Seq<char> {
    let p = paths::joined(root, input);
    if paths::extension(p) is Some {
        p
    } else {
        paths::with_extension(p, "tex"@)
    }
}

/// Resolve a tex input path, adding the `.tex` extension if missing.
pub fn resolve_tex_path(root: &str, input: &str) -> (r: String)
    ensures
        r@ == tex_path(root@, input@),
{
    let p = paths::join(root, input);
    if paths::extension_of(p.as_str()).is_some() {
        p
    } else {
        paths::set_extension(p.as_str(), "tex")
    }
}

/// Remove empty LaTeX groups (`{}`) from a source token. They produce no glyph:
/// `workf{}lows` is the recommended fix for the ligature in `workflows`.
pub fn strip_empty_groups(word: &str) -> (r: String)
    ensures
        r@ == text::replace(word@, "{}"@, Seq::empty()),
{
    let w = chars_of(word);
    proof {
        reveal_strlit("");
        assert(""@ =~= Seq::<char>::empty());
    }
    text::replaced(w.as_slice(), "{}", "")
}

/// Where the comment of a line begins: the first `%` with no backslash right before it.
pub open spec fn comment_start(line: Seq<char>, i: int) -> int
    decreases line.len() - i,
{
    if i < 0 || i >= line.len() {
        line.len() as int
    } else if line[i] == '%' && !(i > 0 && line[i - 1] == '\\') {
        i
    } else {
        comment_start(line, i + 1)
    }
}

/// A line without its comment.
pub open spec fn uncommented(line: Seq<char>) -> Seq<char> {
    line.take(comment_start(line, 0))
}

pub proof fn lemma_comment_start(line: Seq<char>, i: int)
    requires
        0 <= i <= line.len(),
    ensures
        i <= comment_start(line, i) <= line.len(),
    decreases line.len() - i,
{
    if i < line.len() {
        lemma_comment_start(line, i + 1);
    }
}

/// A line without its comment.
pub fn without_comment(line: &[char]) -> (r: &[char])
    ensures
        r@ == uncommented(line@),
{
    let mut i: usize = 0;
    while i < line.len() && !(line[i] == '%' && !(i > 0 && line[i - 1] == '\\'))
        invariant
            i <= line@.len(),
            comment_start(line@, 0) == comment_start(line@, i as int),
        decreases line@.len() - i,
    {
        i = i + 1;
    }
    text::upto(line, i)
}

/// Strip a LaTeX comment from a line: everything from an unescaped `%` on.
pub fn strip_comment(line: &str) -> (r: String)
    ensures
        r@ == uncommented(line@),
{
    let c = chars_of(line);
    string_of(without_comment(c.as_slice()))
}

/// What follows the optional argument at the start of `s`; nothing where that argument
/// is not closed.
pub open spec fn after_option(s: Seq<char>) -> Option<Seq<char>> {
    if s.len() > 0 && s[0] == '[' {
        match text::find_char(s, ']') {
            Some(k) => Some(s.skip(k + 1)),
            None => None,
        }
    } else {
        Some(s)
    }
}

/// The braced arguments that follow the occurrences of `pattern` in a line, each behind
/// an optional argument, trimmed and not empty.
pub open spec fn arguments_of(s: Seq<char>, pattern: Seq<char>) -> Seq<Seq<char>>
    decreases s.len(),
    when pattern.len() > 0
    via arguments_of_decreases
{
    match text::find(s, pattern) {
        None => Seq::empty(),
        Some(k) => match after_option(s.skip(k + pattern.len())) {
            None => Seq::empty(),
            Some(after) => if after.len() > 0 && after[0] == '{' && text::find_char(
                after,
                '}',
            ) is Some {
                let end = text::find_char(after, '}')->0;
                let arg = text::trim(after.subrange(1, end));
                let rest = arguments_of(after.skip(end + 1), pattern);
                if arg.len() > 0 {
                    seq![arg] + rest
                } else {
                    rest
                }
            } else {
                arguments_of(after, pattern)
            },
        },
    }
}

#[via_fn]
proof fn arguments_of_decreases(s: Seq<char>, pattern: Seq<char>) {
    text::lemma_find_bounds(s, pattern, 0);
    if let Some(k) = text::find(s, pattern) {
        let rest = s.skip(k + pattern.len());
        text::lemma_find_char_bounds(rest, ']', 0);
        if let Some(after) = after_option(rest) {
            assert(after.len() <= rest.len());
            text::lemma_find_char_bounds(after, '}', 0);
        }
    }
}

/// The arguments of the command `cmd` in a line.
pub open spec fn commands_in(line: Seq<char>, cmd: Seq<char>) -> Seq<Seq<char>> {
    arguments_of(line, seq!['\\'] + cmd)
}

/// The arguments of the command `cmd` in a line, as parts of the line.
pub fn command_arguments<'a>(line: &'a [char], cmd: &str) -> (r: Vec<&'a [char]>)
    ensures
        text::slices(r@) == commands_in(line@, cmd@),
{
    broadcast use text::lemma_slices_push;

    let name = text::cat2("\\", cmd);
    let pattern = chars_of(name.as_str());
    proof {
        reveal_strlit("\\");
        assert("\\"@ =~= seq!['\\']);
    }
    let ghost p = seq!['\\'] + cmd@;
    let ghost all = commands_in(line@, cmd@);
    let mut out: Vec<&[char]> = Vec::new();
    let mut search: &[char] = line;
    assert(text::slices(out@) + arguments_of(search@, p) =~= all);
    loop
        invariant
            pattern@ == p,
            p.len() > 0,
            all == commands_in(line@, cmd@),
            text::slices(out@) + arguments_of(search@, p) == all,
        decreases search@.len(),
    {
        let ghost done = text::slices(out@);
        let n: usize = search.len();
        assert(n == search@.len());
        let found = text::find_text(search, pattern.as_slice());
        match found {
            None => {
                assert(done + arguments_of(search@, p) =~= done);
                return out;
            },
            Some(k) => {
                let mut after: &[char] = text::from(search, k + pattern.len());
                if after.len() > 0 && after[0] == '[' {
                    match text::find_ch(after, ']') {
                        None => {
                            assert(done + arguments_of(search@, p) =~= done);
                            return out;
                        },
                        Some(end) => {
                            after = text::from(after, end + 1);
                        },
                    }
                }
                assert(after_option(search@.skip(k + p.len())) == Some(after@));
                let close = text::find_ch(after, '}');
                if after.len() > 0 && after[0] == '{' && close.is_some() {
                    let end = close.unwrap();
                    let arg = text::trimmed(text::part(after, 1, end));
                    let tail = text::from(after, end + 1);
                    if arg.len() > 0 {
                        assert(done + (seq![arg@] + arguments_of(tail@, p)) =~= done.push(arg@)
                            + arguments_of(tail@, p));
                        out.push(arg);
                    }
                    search = tail;
                } else {
                    search = after;
                }
            },
        }
    }
}

/// Extract the arguments of the `\command{arg}` and `\command[opts]{arg}` occurrences in
/// a line.
pub fn extract_commands(line: &str, cmd: &str) -> (r: Vec<String>)
    ensures
        text::texts(r@) == commands_in(line@, cmd@),
{
    broadcast use text::lemma_texts_push;

    let c = chars_of(line);
    let found = command_arguments(c.as_slice(), cmd);
    let ghost all = text::slices(found@);
    let mut out: Vec<String> = Vec::new();
    let mut i: usize = 0;
    while i < found.len()
        invariant
            i <= found@.len(),
            all == text::slices(found@),
            text::texts(out@) == all.take(i as int),
        decreases found@.len() - i,
    {
        assert(all.take(i + 1) =~= all.take(i as int).push(found@[i as int]@));
        out.push(string_of(found[i]));
        i = i + 1;
    }
    assert(all.take(found@.len() as int) =~= all);
    out
}

// ---------------------------------------------------------------------------
// The traversal of `\input`
// ---------------------------------------------------------------------------

/// Result of a recursive `\input` traversal.
#[derive(Debug)]
pub struct TexFileCollection {
    /// The `.tex` files reachable from the entry point, in traversal order.
    pub files: Vec<String>,
    /// The `\input` targets that named a file already visited, each with its path.
    pub circular: Vec<(String, String)>,
}

/// What a [`TexFileCollection`] says.
#[verifier::ext_equal]
pub struct CollectionView {
    pub files: Seq<Seq<char>>,
    pub circular: Seq<(Seq<char>, Seq<char>)>,
}

/// The texts of pairs of strings.
pub open spec fn pair_texts(v: Seq<(String, String)>) -> Seq<(Seq<char>, Seq<char>)> {
    Seq::new(v.len(), |k: int| (v[k].0@, v[k].1@))
}

impl View for TexFileCollection {
    type V = CollectionView;

    open spec fn view(&self) -> CollectionView {
        CollectionView { files: text::texts(self.files@), circular: pair_texts(self.circular@) }
    }
}

/// The collection of nothing.
pub open spec fn no_files() -> CollectionView {
    CollectionView { files: Seq::empty(), circular: Seq::empty() }
}

impl Default for TexFileCollection {
    fn default() -> (r: Self)
        ensures
            r@ == no_files(),
    {
        let r = TexFileCollection { files: Vec::new(), circular: Vec::new() };
        assert(r@ =~= no_files());
        r
    }
}

/// What there is at a path.
#[derive(Debug)]
pub enum Source {
    /// Nothing.
    Missing,
    /// Something that cannot be read as text.
    Unreadable,
    /// A file with this text.
    Text(String),
}

/// What a [`Source`] says.
pub enum SourceView {
    Missing,
    Unreadable,
    Text(Seq<char>),
}

impl View for Source {
    type V = SourceView;

    open spec fn view(&self) -> SourceView {
        match self {
            Source::Missing => SourceView::Missing,
            Source::Unreadable => SourceView::Unreadable,
            Source::Text(t) => SourceView::Text(t@),
        }
    }
}

/// The `\input` targets of the lines from the `k`-th on, comments aside.
pub open spec fn inputs_from(ls: Seq<Seq<char>>, k: int) -> Seq<Seq<char>>
    decreases ls.len() - k,
{
    if k < 0 || k >= ls.len() {
        Seq::empty()
    } else {
        commands_in(uncommented(ls[k]), "input"@) + inputs_from(ls, k + 1)
    }
}

/// The `\input` targets of a text, comments aside.
pub open spec fn inputs_of(content: Seq<char>) -> Seq<Seq<char>> {
    inputs_from(text::lines(content), 0)
}

/// A traversal on its way: the targets still to visit, the next one first, and what has
/// been collected.
#[verifier::ext_equal]
pub struct TraversalView {
    pub root: Seq<char>,
    pub pending: Seq<Seq<char>>,
    pub collection: CollectionView,
}

impl TraversalView {
    /// The traversal that starts at `entry`.
    pub open spec fn start(root: Seq<char>, entry: Seq<char>) -> TraversalView {
        TraversalView { root, pending: seq![entry], collection: no_files() }
    }

    /// The path of the next target.
    pub open spec fn next(self) -> Seq<char>
        recommends
            self.pending.len() > 0,
    {
        tex_path(self.root, self.pending[0])
    }

    /// The traversal after the next target, given what there is at its path: nothing is
    /// skipped, a file visited before is reported, and the targets inside a new file
    /// come before those that were pending.
    pub open spec fn step(self, source: SourceView) -> TraversalView
        recommends
            self.pending.len() > 0,
    {
        let rest = self.pending.skip(1);
        let c = self.collection;
        match source {
            SourceView::Missing => TraversalView { pending: rest, ..self },
            _ => if paths::lists(c.files, self.next()) {
                TraversalView {
                    pending: rest,
                    collection: CollectionView {
                        circular: c.circular.push((self.pending[0], self.next())),
                        ..c
                    },
                    ..self
                }
            } else {
                TraversalView {
                    pending: match source {
                        SourceView::Text(t) => inputs_of(t) + rest,
                        _ => rest,
                    },
                    collection: CollectionView { files: c.files.push(self.next()), ..c },
                    ..self
                }
            },
        }
    }
}

/// A traversal of `\input` that asks for the sources one by one.
pub struct Traversal {
    root: String,
    pending: Vec<String>,
    collection: TexFileCollection,
}

impl View for Traversal {
    type V = TraversalView;

    closed spec fn view(&self) -> TraversalView {
        TraversalView {
            root: self.root@,
            pending: text::texts(self.pending@).reverse(),
            collection: self.collection@,
        }
    }
}

/// The `\input` targets of a text, in order.
pub fn inputs_in(content: &str) -> (r: Vec<String>)
    ensures
        text::texts(r@) == inputs_of(content@),
{
    broadcast use text::lemma_texts_push;

    let c = chars_of(content);
    let ls = text::lines_of(c.as_slice());
    let ghost all = text::lines(content@);
    let mut out: Vec<String> = Vec::new();
    let mut i: usize = 0;
    assert(text::texts(out@) + inputs_from(all, 0) =~= inputs_of(content@));
    while i < ls.len()
        invariant
            i <= ls@.len(),
            all == text::lines(content@),
            all == text::slices(ls@),
            text::texts(out@) + inputs_from(all, i as int) == inputs_of(content@),
        decreases ls@.len() - i,
    {
        let ghost done = text::texts(out@);
        assert(all[i as int] == ls@[i as int]@);
        let found = command_arguments(without_comment(ls[i]), "input");
        let ghost here = text::slices(found@);
        let mut j: usize = 0;
        while j < found.len()
            invariant
                j <= found@.len(),
                here == text::slices(found@),
                text::texts(out@) == done + here.take(j as int),
            decreases found@.len() - j,
        {
            assert(done + here.take(j + 1) =~= (done + here.take(j as int)).push(
                found@[j as int]@,
            ));
            out.push(string_of(found[j]));
            j = j + 1;
        }
        assert(here.take(j as int) =~= here);
        assert((done + here) + inputs_from(all, i + 1) =~= done + (here + inputs_from(
            all,
            i + 1,
        )));
        i = i + 1;
    }
    assert(text::texts(out@) + inputs_from(all, i as int) =~= text::texts(out@));
    out
}

impl Traversal {
    /// The traversal that starts at `entry`.
    pub fn new(root: &str, entry: &str) -> (r: Traversal)
        ensures
            r@ == TraversalView::start(root@, entry@),
    {
        let mut pending: Vec<String> = Vec::new();
        pending.push(text::lit(entry));
        let r = Traversal {
            root: text::lit(root),
            pending,
            collection: TexFileCollection::default(),
        };
        assert(r@.pending =~= seq![entry@]);
        r
    }

    /// The path whose source is asked for next, or nothing at the end.
    pub fn next_path(&self) -> (r: Option<String>)
        ensures
            match r {
                Some(p) => self@.pending.len() > 0 && p@ == self@.next(),
                None => self@.pending.len() == 0,
            },
    {
        let n: usize = self.pending.len();
        if n == 0 {
            return None;
        }
        assert(self@.pending[0] == self.pending@[n - 1]@);
        Some(resolve_tex_path(self.root.as_str(), self.pending[n - 1].as_str()))
    }

    /// Goes on with what there is at the path that was asked for.
    pub fn supply(&mut self, source: Source)
        requires
            old(self)@.pending.len() > 0,
        ensures
            final(self)@ == old(self)@.step(source@),
    {
        broadcast use text::lemma_texts_push;

        let ghost before = self@;
        let ghost stack = text::texts(self.pending@);
        let entry = match self.pending.pop() {
            Some(e) => e,
            None => String::new(),
        };
        assert(entry@ == before.pending[0]);
        let ghost rest = text::texts(self.pending@);
        assert(rest =~= stack.drop_last());
        assert(rest.reverse() =~= before.pending.skip(1));
        let path = resolve_tex_path(self.root.as_str(), entry.as_str());
        match source {
            Source::Missing => {},
            Source::Unreadable => {
                if paths::listed(&self.collection.files, path.as_str()) {
                    self.report(entry, path);
                } else {
                    self.collection.files.push(path);
                }
            },
            Source::Text(t) => {
                if paths::listed(&self.collection.files, path.as_str()) {
                    self.report(entry, path);
                } else {
                    self.collection.files.push(path);
                    let mut found = inputs_in(t.as_str());
                    let ghost inner = text::texts(found@);
                    while found.len() > 0
                        invariant
                            found@.len() <= inner.len(),
                            text::texts(found@) == inner.take(found@.len() as int),
                            text::texts(self.pending@).reverse() == inner.skip(found@.len() as int)
                                + rest.reverse(),
                            self.root@ == before.root,
                            self.collection@ == (CollectionView {
                                files: before.collection.files.push(path@),
                                ..before.collection
                            }),
                        decreases found@.len(),
                    {
                        let ghost k = found@.len() - 1;
                        let ghost prior = text::texts(self.pending@);
                        assert(text::texts(found@)[k] == found@[k]@);
                        if let Some(e) = found.pop() {
                            self.pending.push(e);
                            assert(text::texts(self.pending@).reverse() =~= seq![e@]
                                + prior.reverse());
                            assert(inner.skip(k) =~= seq![e@] + inner.skip(k + 1));
                        }
                        assert(text::texts(found@) =~= inner.take(k));
                    }
                    assert(inner.skip(0) =~= inner);
                }
            },
        }
        assert(self@ =~= before.step(source@));
    }

    fn report(&mut self, entry: String, path: String)
        ensures
            final(self)@ == (TraversalView {
                collection: CollectionView {
                    circular: old(self)@.collection.circular.push((entry@, path@)),
                    ..old(self)@.collection
                },
                ..old(self)@
            }),
    {
        let ghost before = self@;
        self.collection.circular.push((entry, path));
        assert(self@.collection.circular =~= before.collection.circular.push((entry@, path@)));
    }

    /// What has been collected.
    pub fn finish(self) -> (r: TexFileCollection)
        ensures
            r@ == self@.collection,
    {
        self.collection
    }
}

/// A file and its text, where it can be read.
#[derive(Debug)]
pub struct SourceFile {
    pub path: String,
    pub content: Option<String>,
}

/// What a sequence of files says.
pub open spec fn tree_view(v: Seq<SourceFile>) -> Seq<(Seq<char>, Option<Seq<char>>)> {
    Seq::new(v.len(), |k: int| (v[k].path@, text::opt_text(v[k].content)))
}

/// The first of the files, from the `k`-th on, at a path.
pub open spec fn file_at(
    tree: Seq<(Seq<char>, Option<Seq<char>>)>,
    p: Seq<char>,
    k: int,
) -> Option<int>
    decreases tree.len() - k,
{
    if k < 0 || k >= tree.len() {
        None
    } else if paths::same(tree[k].0, p) {
        Some(k)
    } else {
        file_at(tree, p, k + 1)
    }
}

/// What there is at a path, given all files.
pub open spec fn source_at(tree: Seq<(Seq<char>, Option<Seq<char>>)>, p: Seq<char>) -> SourceView {
    match file_at(tree, p, 0) {
        None => SourceView::Missing,
        Some(k) => match tree[k].1 {
            Some(t) => SourceView::Text(t),
            None => SourceView::Unreadable,
        },
    }
}

/// How many of the files, from the `k`-th on, are not among those visited.
pub open spec fn unvisited(
    tree: Seq<(Seq<char>, Option<Seq<char>>)>,
    files: Seq<Seq<char>>,
    k: int,
) -> nat
    decreases tree.len() - k,
{
    if k < 0 || k >= tree.len() {
        0
    } else if paths::lists(files, tree[k].0) {
        unvisited(tree, files, k + 1)
    } else {
        1 + unvisited(tree, files, k + 1)
    }
}

/// What a traversal collects, given all files.
pub open spec fn collected(
    t: TraversalView,
    tree: Seq<(Seq<char>, Option<Seq<char>>)>,
) -> CollectionView
    decreases unvisited(tree, t.collection.files, 0), t.pending.len(),
    via collected_decreases
{
    if t.pending.len() == 0 {
        t.collection
    } else {
        collected(t.step(source_at(tree, t.next())), tree)
    }
}

#[via_fn]
proof fn collected_decreases(t: TraversalView, tree: Seq<(Seq<char>, Option<Seq<char>>)>) {
    if t.pending.len() > 0 {
        lemma_step_decreases(t, tree);
    }
}

pub proof fn lemma_file_at(tree: Seq<(Seq<char>, Option<Seq<char>>)>, p: Seq<char>, k: int)
    requires
        0 <= k,
    ensures
        match file_at(tree, p, k) {
            Some(i) => k <= i < tree.len() && paths::same(tree[i].0, p),
            None => forall|i: int| k <= i < tree.len() ==> !paths::same(#[trigger] tree[i].0, p),
        },
    decreases tree.len() - k,
{
    if k < tree.len() && !paths::same(tree[k].0, p) {
        lemma_file_at(tree, p, k + 1);
    }
}

proof fn lemma_lists_push(files: Seq<Seq<char>>, p: Seq<char>, q: Seq<char>)
    ensures
        paths::lists(files.push(p), q) == (paths::lists(files, q) || paths::same(p, q)),
{
    if paths::lists(files, q) {
        let k = choose|k: int| 0 <= k < files.len() && #[trigger] paths::same(files[k], q);
        assert(paths::same(files.push(p)[k], q));
    }
    if paths::same(p, q) {
        assert(paths::same(files.push(p)[files.len() as int], q));
    }
    if paths::lists(files.push(p), q) {
        let k = choose|k: int|
            0 <= k < files.push(p).len() && #[trigger] paths::same(files.push(p)[k], q);
        if k < files.len() {
            assert(paths::same(files[k], q));
        }
    }
}

pub proof fn lemma_unvisited(
    tree: Seq<(Seq<char>, Option<Seq<char>>)>,
    files: Seq<Seq<char>>,
    p: Seq<char>,
    k: int,
)
    requires
        0 <= k,
    ensures
        unvisited(tree, files.push(p), k) <= unvisited(tree, files, k),
        !paths::lists(files, p) && file_at(tree, p, k) is Some ==> unvisited(
            tree,
            files.push(p),
            k,
        ) < unvisited(tree, files, k),
    decreases tree.len() - k,
{
    if k < tree.len() {
        lemma_unvisited(tree, files, p, k + 1);
        lemma_lists_push(files, p, tree[k].0);
        if paths::same(tree[k].0, p) && paths::lists(files, tree[k].0) {
            let j = choose|j: int|
                0 <= j < files.len() && #[trigger] paths::same(files[j], tree[k].0);
            assert(paths::same(files[j], p));
        }
    }
}

pub proof fn lemma_step_decreases(t: TraversalView, tree: Seq<(Seq<char>, Option<Seq<char>>)>)
    requires
        t.pending.len() > 0,
    ensures
        ({
            let u = t.step(source_at(tree, t.next()));
            let a = unvisited(tree, t.collection.files, 0);
            let b = unvisited(tree, u.collection.files, 0);
            b < a || (b == a && u.pending.len() < t.pending.len())
        }),
{
    lemma_file_at(tree, t.next(), 0);
    lemma_unvisited(tree, t.collection.files, t.next(), 0);
}

/// What there is at a path, given all files.
pub fn find_source(tree: &Vec<SourceFile>, p: &str) -> (r: Source)
    ensures
        r@ == source_at(tree_view(tree@), p@),
{
    let ghost all = tree_view(tree@);
    let mut k: usize = 0;
    while k < tree.len()
        invariant
            k <= tree@.len(),
            all == tree_view(tree@),
            file_at(all, p@, 0) == file_at(all, p@, k as int),
        decreases tree@.len() - k,
    {
        if paths::same_path(tree[k].path.as_str(), p) {
            return match &tree[k].content {
                Some(t) => Source::Text(text::lit(t.as_str())),
                None => Source::Unreadable,
            };
        }
        k = k + 1;
    }
    Source::Missing
}

/// Collect the `.tex` files that `\input{}` reaches from `entry`, given all files.
pub fn collect_tex_files(root: &str, entry: &str, tree: &Vec<SourceFile>) -> (r: TexFileCollection)
    ensures
        r@ == collected(TraversalView::start(root@, entry@), tree_view(tree@)),
{
    let ghost all = tree_view(tree@);
    let ghost result = collected(TraversalView::start(root@, entry@), all);
    let mut t = Traversal::new(root, entry);
    loop
        invariant
            all == tree_view(tree@),
            collected(t@, all) == result,
            result == collected(TraversalView::start(root@, entry@), all),
        decreases unvisited(all, t@.collection.files, 0), t@.pending.len(),
    {
        match t.next_path() {
            None => {
                return t.finish();
            },
            Some(p) => {
                proof {
                    lemma_step_decreases(t@, all);
                }
                let source = find_source(tree, p.as_str());
                t.supply(source);
            },
        }
    }
}

// ---------------------------------------------------------------------------
// Laws
// ---------------------------------------------------------------------------

/// Whether no two of the paths are the same.
pub open spec fn distinct_paths(files: Seq<Seq<char>>) -> bool {
    forall|i: int, j: int|
        0 <= i < j < files.len() ==> !paths::same(#[trigger] files[i], #[trigger] files[j])
}

/// Whether a collection visits no file twice, holds only files that exist, and reports
/// only files that it holds.
pub open spec fn is_sound(c: CollectionView, tree: Seq<(Seq<char>, Option<Seq<char>>)>) -> bool {
    &&& distinct_paths(c.files)
    &&& forall|i: int|
        0 <= i < c.files.len() ==> !(source_at(tree, #[trigger] c.files[i]) is Missing)
    &&& forall|i: int| 0 <= i < c.circular.len() ==> paths::lists(c.files, (#[trigger] c.circular[i]).1)
}

proof fn lemma_collected_sound(t: TraversalView, tree: Seq<(Seq<char>, Option<Seq<char>>)>)
    requires
        is_sound(t.collection, tree),
    ensures
        is_sound(collected(t, tree), tree),
        t.collection.files.is_prefix_of(collected(t, tree).files),
    decreases unvisited(tree, t.collection.files, 0), t.pending.len(),
{
    if t.pending.len() > 0 {
        lemma_step_decreases(t, tree);
        let u = t.step(source_at(tree, t.next()));
        let c = t.collection;
        let d = u.collection;
        assert forall|i: int| 0 <= i < d.circular.len() implies paths::lists(
            d.files,
            (#[trigger] d.circular[i]).1,
        ) by {
            if i < c.circular.len() {
                assert(paths::lists(c.files, c.circular[i].1));
                lemma_lists_push(c.files, t.next(), c.circular[i].1);
            }
        }
        assert(distinct_paths(d.files)) by {
            assert forall|i: int, j: int| 0 <= i < j < d.files.len() implies !paths::same(
                #[trigger] d.files[i],
                #[trigger] d.files[j],
            ) by {
                if j < c.files.len() {
                    assert(!paths::same(c.files[i], c.files[j]));
                } else {
                    assert(d.files[j] == t.next());
                    assert(d.files[i] == c.files[i]);
                    assert(!paths::lists(c.files, t.next()));
                }
            }
        }
        assert(is_sound(d, tree));
        lemma_collected_sound(u, tree);
        assert(c.files.is_prefix_of(d.files));
        assert(c.files =~= collected(t, tree).files.subrange(0, c.files.len() as int));
    } else {
        assert(t.collection.files =~= t.collection.files.subrange(
            0,
            t.collection.files.len() as int,
        ));
    }
}

/// A traversal visits no file twice, collects only files that exist, and reports as
/// circular only files that it collected. Where the entry point exists, it comes first.
pub proof fn law_traversal(
    root: Seq<char>,
    entry: Seq<char>,
    tree: Seq<(Seq<char>, Option<Seq<char>>)>,
)
    ensures
        is_sound(collected(TraversalView::start(root, entry), tree), tree),
        !(source_at(tree, tex_path(root, entry)) is Missing) ==> {
            let files = collected(TraversalView::start(root, entry), tree).files;
            files.len() > 0 && files[0] == tex_path(root, entry)
        },
        source_at(tree, tex_path(root, entry)) is Missing ==> collected(
            TraversalView::start(root, entry),
            tree,
        ) == no_files(),
{
    let t = TraversalView::start(root, entry);
    lemma_collected_sound(t, tree);
    let u = t.step(source_at(tree, t.next()));
    lemma_step_decreases(t, tree);
    assert(is_sound(u.collection, tree)) by {
        assert(!paths::lists(t.collection.files, t.next()));
    }
    lemma_collected_sound(u, tree);
    assert(collected(t, tree) == collected(u, tree));
    if source_at(tree, t.next()) is Missing {
        assert(u.pending =~= Seq::empty());
    } else {
        assert(u.collection.files[0] == t.next());
        let files = collected(u, tree).files;
        assert(files.subrange(0, u.collection.files.len() as int)[0] == files[0]);
    }
}

/// A line without a `%` has no comment to strip.
pub proof fn law_no_percent_no_comment(line: Seq<char>)
    requires
        !line.contains('%'),
    ensures
        uncommented(line) == line,
{
    lemma_no_percent(line, 0);
    assert(line.take(line.len() as int) =~= line);
}

proof fn lemma_no_percent(line: Seq<char>, i: int)
    requires
        0 <= i <= line.len(),
        !line.contains('%'),
    ensures
        comment_start(line, i) == line.len(),
    decreases line.len() - i,
{
    if i < line.len() {
        assert(line[i] != '%');
        lemma_no_percent(line, i + 1);
    }
}

/// Stripping the comment of a line twice is the same as stripping it once.
pub proof fn law_strip_comment_once(line: Seq<char>)
    ensures
        uncommented(uncommented(line)) == uncommented(line),
{
    lemma_comment_start(line, 0);
    lemma_stripped(line, 0);
    let t = uncommented(line);
    assert(t.take(t.len() as int) =~= t);
}

proof fn lemma_stripped(line: Seq<char>, i: int)
    requires
        0 <= i <= comment_start(line, 0),
        comment_start(line, 0) == comment_start(line, i),
        comment_start(line, 0) <= line.len(),
    ensures
        comment_start(uncommented(line), i) == uncommented(line).len(),
    decreases line.len() - i,
{
    let k = comment_start(line, 0);
    let t = uncommented(line);
    if i < k {
        assert(t[i] == line[i]);
        lemma_stripped(line, i + 1);
    }
}

} // verus!
