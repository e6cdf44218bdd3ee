//! What the names of files say, how texts are ordered, and which line a place is on.

use vstd::prelude::*;

use crate::order;
use crate::paths::{self, Component};
use crate::position;
use crate::text;
use crate::texutil;

verus! {

// ---------------------------------------------------------------------------
// Paths
// ---------------------------------------------------------------------------

/// Whether a path is a directory, which ends with a slash or is empty, and a name in it.
pub open spec fn is_named(p: Seq<char>, dir: Seq<char>, name: Seq<char>) -> bool {
    &&& p == dir + name
    &&& dir.len() > 0 ==> dir.last() == '/'
    &&& name.len() > 0
    &&& !name.contains('/')
    &&& name != seq!['.']
    &&& name != seq!['.', '.']
}

proof fn lemma_pieces(dir: Seq<char>, name: Seq<char>)
    requires
        dir.len() > 0 ==> dir.last() == '/',
        !name.contains('/'),
    ensures
        paths::pieces(dir + name).len() > 0,
        paths::pieces(dir + name).last() == name,
        dir.len() == 0 ==> paths::pieces(dir + name).len() == 1,
        dir.len() > 0 ==> paths::pieces(dir + name) == paths::pieces(dir.drop_last()).push(name),
{
    crate::mentions::law_split_at_a_character(name, Seq::empty(), '/');
    if dir.len() == 0 {
        assert(dir + name =~= name);
    } else {
        let d = dir.drop_last();
        assert(dir + name =~= d + seq!['/'] + name);
        paths::lemma_split_join(d, name, '/');
        assert(paths::pieces(dir + name) =~= paths::pieces(d).push(name));
    }
}

pub proof fn lemma_has(s: Seq<char>, c: char, i: int, k: int)
    requires
        0 <= i <= k < s.len(),
        s[k] == c,
    ensures
        text::find_char_from(s, c, i) matches Some(j) && i <= j <= k,
    decreases k - i,
{
    if s[i] != c {
        lemma_has(s, c, i + 1, k);
    }
}

proof fn lemma_named(p: Seq<char>, dir: Seq<char>, name: Seq<char>)
    requires
        is_named(p, dir, name),
    ensures
        paths::file_name(p) == Some(name),
        paths::name_piece(p) == Some(paths::pieces(p).len() - 1),
{
    reveal_strlit(".");
    reveal_strlit("..");
    assert("."@ =~= seq!['.']);
    assert(".."@ =~= seq!['.', '.']);
    lemma_pieces(dir, name);
    let ps = paths::pieces(p);
    let k = ps.len() - 1;
    assert(paths::component(paths::is_absolute(p), k, ps[k]) == Some(Component::Normal(name)));
    assert(paths::last_piece(paths::is_absolute(p), ps, ps.len() as int) == Some(k));
}

/// The extension of a file is what follows the last dot of its name, and its stem is what
/// stands before it, whatever dots are in the path.
pub proof fn law_extension_is_behind_the_last_dot(
    p: Seq<char>,
    dir: Seq<char>,
    stem: Seq<char>,
    ext: Seq<char>,
)
    requires
        is_named(p, dir, stem + seq!['.'] + ext),
        stem.len() > 0,
        !ext.contains('.'),
    ensures
        paths::extension(p) == Some(ext),
        paths::file_stem(p) == Some(stem),
{
    let name = stem + seq!['.'] + ext;
    lemma_named(p, dir, name);
    let n = stem.len() as int;
    assert(name[n] == '.');
    assert forall|j: int| n < j < name.len() implies #[trigger] name[j] != '.' by {
        assert(name[j] == ext[j - n - 1]);
        assert(ext.contains(ext[j - n - 1]));
    }
    crate::messages::lemma_rfound(name, '.', name.len() as int, n);
    assert(name.skip(n + 1) =~= ext);
    assert(name.take(n) =~= stem);
}

/// A name without a dot, or with one at its start only, has no extension.
pub proof fn law_no_dot_no_extension(p: Seq<char>, dir: Seq<char>, name: Seq<char>)
    requires
        is_named(p, dir, name),
        forall|j: int| 0 < j < name.len() ==> #[trigger] name[j] != '.',
    ensures
        paths::extension(p) is None,
        paths::file_stem(p) == Some(name),
{
    lemma_named(p, dir, name);
    text::lemma_rfind_char_bounds(name, '.', name.len() as int);
    assert(name.take(name.len() as int) =~= name);
}

/// A source is included by its name with or without `.tex`: a name without extension gets
/// it, and one with an extension is taken as it is.
pub proof fn law_inputs_get_their_extension(
    root: Seq<char>,
    input: Seq<char>,
    dir: Seq<char>,
    name: Seq<char>,
)
    requires
        is_named(paths::joined(root, input), dir, name),
        forall|j: int| 0 < j < name.len() ==> #[trigger] name[j] != '.',
    ensures
        texutil::tex_path(root, input) == paths::joined(root, input) + ".tex"@,
{
    let p = paths::joined(root, input);
    law_no_dot_no_extension(p, dir, name);
    lemma_named(p, dir, name);
    lemma_pieces(dir, name);
    text::lemma_rfind_char_bounds(name, '.', name.len() as int);
    reveal_strlit(".");
    reveal_strlit(".tex");
    reveal_strlit("tex");
    reveal_strlit("/");
    assert("/"@ =~= seq!['/']);
    let ps = paths::pieces(p);
    let k = ps.len() - 1;
    assert(name.take(name.len() as int) =~= name);
    let grown = name + "."@ + "tex"@;
    assert(grown =~= name + ".tex"@);
    let out = ps.take(k).push(grown);
    assert(paths::with_extension(p, "tex"@) == text::join(out, "/"@));
    if dir.len() == 0 {
        assert(out =~= seq![grown]);
        assert(p =~= name);
    } else {
        let d = dir.drop_last();
        assert(ps.take(k) =~= paths::pieces(d));
        lemma_pieces_some(d);
        assert(out.drop_last() =~= paths::pieces(d));
        lemma_joined_pieces(d);
        assert(text::join(out, "/"@) == text::join(paths::pieces(d), "/"@) + "/"@ + grown);
        assert(dir =~= d + seq!['/']);
        assert(text::join(out, "/"@) =~= p + ".tex"@);
    }
}

proof fn lemma_joined_pieces(p: Seq<char>)
    ensures
        text::join(paths::pieces(p), "/"@) == p,
    decreases p.len(),
{
    reveal_strlit("/");
    assert("/"@ =~= seq!['/']);
    text::lemma_find_char_bounds(p, '/', 0);
    if let Some(k) = text::find_char(p, '/') {
        let rest = p.skip(k + 1);
        let ps = paths::pieces(p);
        lemma_joined_pieces(rest);
        lemma_pieces_some(rest);
        text::lemma_join_front(ps, "/"@);
        assert(ps.skip(1) =~= paths::pieces(rest));
        assert(ps[0] == p.take(k));
        assert(p.take(k) + "/"@ + rest =~= p);
    }
}

proof fn lemma_pieces_some(p: Seq<char>)
    ensures
        paths::pieces(p).len() > 0,
{
    text::lemma_find_char_bounds(p, '/', 0);
}

// ---------------------------------------------------------------------------
// Order
// ---------------------------------------------------------------------------

/// Texts are ordered by the first character in which they differ, and a text stands before
/// every longer one that begins with it.
pub proof fn law_order_is_by_characters(
    p: Seq<char>,
    x: char,
    a: Seq<char>,
    y: char,
    b: Seq<char>,
)
    ensures
        x < y ==> order::precedes(p + seq![x] + a, p + seq![y] + b),
        order::precedes(p, p + seq![y] + b),
        !order::precedes(p, p),
    decreases p.len(),
{
    let s = p + seq![x] + a;
    let t = p + seq![y] + b;
    if p.len() > 0 {
        law_order_is_by_characters(p.skip(1), x, a, y, b);
        assert(s.skip(1) =~= p.skip(1) + seq![x] + a);
        assert(t.skip(1) =~= p.skip(1) + seq![y] + b);
        assert(s[0] == p[0] && t[0] == p[0]);
    } else {
        assert(s[0] == x);
        assert(t[0] == y);
    }
}

// ---------------------------------------------------------------------------
// Lines
// ---------------------------------------------------------------------------

/// A text begins on line 1, and each line feed, and nothing else, begins a new line.
pub proof fn law_line_feeds_begin_lines(s: Seq<char>, i: int)
    requires
        0 <= i < s.len(),
        s.len() < usize::MAX,
    ensures
        position::line_at(s, 0) == 1,
        position::line_at(s, i + 1) == position::line_at(s, i) + if s[i] == '\n' {
            1int
        } else {
            0int
        },
{
    assert(s.take(0) =~= Seq::<char>::empty());
    lemma_feeds(s, i);
    lemma_feeds(s, i + 1);
    assert(s.take(i + 1).drop_last() =~= s.take(i));
    assert(s.take(i + 1).last() == s[i]);
}

proof fn lemma_feeds(s: Seq<char>, i: int)
    requires
        0 <= i <= s.len(),
    ensures
        text::count_char(s.take(i), '\n') <= i,
    decreases i,
{
    if i > 0 {
        lemma_feeds(s, i - 1);
        assert(s.take(i).drop_last() =~= s.take(i - 1));
    }
}

} // verus!
