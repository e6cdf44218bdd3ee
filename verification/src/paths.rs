//! Paths whose names stand between slashes. A program on a platform with another separator
//! hands its paths over with slashes.

use vstd::prelude::*;

use crate::text::{self, chars_of, string_of};

verus! {

/// One component of a path.
pub enum Component {
    /// The leading slash of an absolute path.
    Root,
    /// A `.` at the start of a relative path.
    Current,
    /// A `..`.
    Parent,
    /// Any other name.
    Normal(Seq<char>),
}

/// The stretches of a path between its slashes.
pub open spec fn pieces(p: Seq<char>) -> Seq<Seq<char>> {
    text::split(p, '/')
}

/// Whether a path begins with a slash.
pub open spec fn is_absolute(p: Seq<char>) -> bool {
    p.len() > 0 && p[0] == '/'
}

/// The component that the `k`-th piece of a path stands for. Empty pieces stand for
/// none, except the first of an absolute path, and a `.` stands for one only at the
/// start.
pub open spec fn component(absolute: bool, k: int, piece: Seq<char>) -> Option<Component> {
    if piece.len() == 0 {
        if k == 0 && absolute {
            Some(Component::Root)
        } else {
            None
        }
    } else if piece == "."@ {
        if k == 0 {
            Some(Component::Current)
        } else {
            None
        }
    } else if piece == ".."@ {
        Some(Component::Parent)
    } else {
        Some(Component::Normal(piece))
    }
}

/// The components of the pieces from the `k`-th on.
pub open spec fn components_from(absolute: bool, ps: Seq<Seq<char>>, k: int) -> Seq<Component>
    decreases ps.len() - k,
{
    if k < 0 || k >= ps.len() {
        Seq::empty()
    } else {
        match component(absolute, k, ps[k]) {
            Some(c) => seq![c] + components_from(absolute, ps, k + 1),
            None => components_from(absolute, ps, k + 1),
        }
    }
}

/// The components of a path.
pub open spec fn components(p: Seq<char>) -> Seq<Component> {
    components_from(is_absolute(p), pieces(p), 0)
}

/// Whether two paths have the same components.
pub open spec fn same(a: Seq<char>, b: Seq<char>) -> bool {
    components(a) == components(b)
}

/// Whether one of the paths is the same as `p`.
pub open spec fn lists(paths: Seq<Seq<char>>, p: Seq<char>) -> bool {
    exists|k: int| 0 <= k < paths.len() && #[trigger] same(paths[k], p)
}

/// Whether the components of a path begin with those of `base`.
pub open spec fn is_under(p: Seq<char>, base: Seq<char>) -> bool {
    components(base).is_prefix_of(components(p))
}

/// The path `tail` seen from `base`: `tail` itself where it is absolute.
pub open spec fn joined(base: Seq<char>, tail: Seq<char>) -> Seq<char> {
    if is_absolute(tail) {
        tail
    } else if base.len() > 0 && base.last() != '/' {
        base + "/"@ + tail
    } else {
        base + tail
    }
}

/// The last of the first `k` pieces that stands for a component.
pub open spec fn last_piece(absolute: bool, ps: Seq<Seq<char>>, k: int) -> Option<int>
    decreases k,
{
    if k <= 0 || k > ps.len() {
        None
    } else if component(absolute, k - 1, ps[k - 1]) is Some {
        Some(k - 1)
    } else {
        last_piece(absolute, ps, k - 1)
    }
}

/// The piece that names the file of a path: the last component, where it is a name.
pub open spec fn name_piece(p: Seq<char>) -> Option<int> {
    match last_piece(is_absolute(p), pieces(p), pieces(p).len() as int) {
        Some(k) => match component(is_absolute(p), k, pieces(p)[k]) {
            Some(Component::Normal(_)) => Some(k),
            _ => None,
        },
        None => None,
    }
}

/// The file name of a path.
pub open spec fn file_name(p: Seq<char>) -> Option<Seq<char>> {
    match name_piece(p) {
        Some(k) => Some(pieces(p)[k]),
        None => None,
    }
}

/// The length of a file name before its extension: up to the last dot, unless that dot
/// begins the name.
pub open spec fn stem_len(name: Seq<char>) -> int {
    match text::rfind_char(name, '.') {
        Some(k) => if k > 0 {
            k
        } else {
            name.len() as int
        },
        None => name.len() as int,
    }
}

/// The extension of a path: what follows the last dot of the file name.
pub open spec fn extension(p: Seq<char>) -> Option<Seq<char>> {
    match file_name(p) {
        Some(name) => if stem_len(name) < name.len() {
            Some(name.skip(stem_len(name) + 1))
        } else {
            None
        },
        None => None,
    }
}

/// The file name of a path without its extension.
pub open spec fn file_stem(p: Seq<char>) -> Option<Seq<char>> {
    match file_name(p) {
        Some(name) => Some(name.take(stem_len(name))),
        None => None,
    }
}

/// The path with the extension of its file name replaced by `ext`; a path without a
/// file name is kept.
pub open spec fn with_extension(p: Seq<char>, ext: Seq<char>) -> Seq<char> {
    match name_piece(p) {
        Some(k) => {
            let name = pieces(p)[k];
            text::join(
                pieces(p).take(k).push(name.take(stem_len(name)) + "."@ + ext),
                "/"@,
            )
        },
        None => p,
    }
}

/// Whether a piece carries nothing inside a path.
pub open spec fn is_idle(piece: Seq<char>) -> bool {
    piece.len() == 0 || piece == "."@
}

/// The position of the first of the pieces, from the `k`-th on, that is not idle.
pub open spec fn skip_idle(ps: Seq<Seq<char>>, k: int) -> int
    decreases ps.len() - k,
{
    if 0 <= k < ps.len() && is_idle(ps[k]) {
        skip_idle(ps, k + 1)
    } else {
        k
    }
}

/// The number of pieces that are left when the idle ones at the end, down to the
/// `low`-th, are dropped from the first `k`.
pub open spec fn drop_idle(ps: Seq<Seq<char>>, low: int, k: int) -> int
    decreases k,
{
    if low < k <= ps.len() && 0 < k && is_idle(ps[k - 1]) {
        drop_idle(ps, low, k - 1)
    } else {
        k
    }
}

/// How many pieces the first `n` components take.
pub open spec fn pieces_of(absolute: bool, ps: Seq<Seq<char>>, k: int, n: nat) -> int
    decreases ps.len() - k,
{
    if n == 0 || k < 0 || k >= ps.len() {
        k
    } else if component(absolute, k, ps[k]) is Some {
        pieces_of(absolute, ps, k + 1, (n - 1) as nat)
    } else {
        pieces_of(absolute, ps, k + 1, n)
    }
}

/// What follows the components of `base` in a path under it.
pub open spec fn relative(p: Seq<char>, base: Seq<char>) -> Option<Seq<char>> {
    let ps = pieces(p);
    let n = components(base).len();
    if !is_under(p, base) {
        None
    } else if n == 0 {
        let hi = drop_idle(ps, 1, ps.len() as int);
        if is_absolute(p) && hi == 1 {
            Some("/"@)
        } else {
            Some(text::join(ps.take(hi), "/"@))
        }
    } else {
        let lo = skip_idle(ps, pieces_of(is_absolute(p), ps, 0, n));
        let hi = drop_idle(ps, lo, ps.len() as int);
        Some(text::join(ps.subrange(lo, hi), "/"@))
    }
}

/// What follows the components of `base` in a path under it, the path itself elsewhere.
pub open spec fn relative_or_self(p: Seq<char>, base: Seq<char>) -> Seq<char> {
    match relative(p, base) {
        Some(r) => r,
        None => p,
    }
}

/// A component as a value.
enum Part {
    Root,
    Current,
    Parent,
    Normal(Vec<char>),
}

impl Part {
    spec fn says(self) -> Component {
        match self {
            Part::Root => Component::Root,
            Part::Current => Component::Current,
            Part::Parent => Component::Parent,
            Part::Normal(v) => Component::Normal(v@),
        }
    }
}

spec fn parts_say(v: Seq<Part>) -> Seq<Component> {
    Seq::new(v.len(), |k: int| v[k].says())
}

fn copy_of(s: &[char]) -> (r: Vec<char>)
    ensures
        r@ == s@,
{
    let mut out: Vec<char> = Vec::new();
    let mut i: usize = 0;
    while i < s.len()
        invariant
            i <= s@.len(),
            out@ == s@.take(i as int),
        decreases s@.len() - i,
    {
        out.push(s[i]);
        assert(s@.take(i + 1) =~= s@.take(i as int).push(s@[i as int]));
        i = i + 1;
    }
    assert(s@.take(s@.len() as int) =~= s@);
    out
}

fn part_of(absolute: bool, first: bool, piece: &[char]) -> (r: Option<Part>)
    ensures
        match r {
            Some(c) => component(
                absolute,
                if first {
                    0
                } else {
                    1
                },
                piece@,
            ) == Some(c.says()),
            None => component(
                absolute,
                if first {
                    0
                } else {
                    1
                },
                piece@,
            ) is None,
        },
{
    if piece.len() == 0 {
        if first && absolute {
            Some(Part::Root)
        } else {
            None
        }
    } else if text::is_lit(piece, ".") {
        if first {
            Some(Part::Current)
        } else {
            None
        }
    } else if text::is_lit(piece, "..") {
        Some(Part::Parent)
    } else {
        Some(Part::Normal(copy_of(piece)))
    }
}

fn begins_with_slash(p: &[char]) -> (r: bool)
    ensures
        r == is_absolute(p@),
{
    p.len() > 0 && p[0] == '/'
}

fn parts(p: &[char]) -> (r: Vec<Part>)
    ensures
        parts_say(r@) == components(p@),
{
    let absolute = begins_with_slash(p);
    let ps = text::split_on(p, '/');
    let ghost all = pieces(p@);
    let mut out: Vec<Part> = Vec::new();
    let mut k: usize = 0;
    assert(parts_say(out@) + components_from(absolute, all, 0) =~= components(p@));
    while k < ps.len()
        invariant
            k <= ps@.len(),
            absolute == is_absolute(p@),
            all == pieces(p@),
            all == text::slices(ps@),
            parts_say(out@) + components_from(absolute, all, k as int) == components(p@),
        decreases ps@.len() - k,
    {
        let ghost before = parts_say(out@);
        let ghost rest = components_from(absolute, all, k + 1);
        assert(all[k as int] == ps@[k as int]@);
        match part_of(absolute, k == 0, ps[k]) {
            Some(c) => {
                assert(before + (seq![c.says()] + rest) =~= before.push(c.says()) + rest);
                out.push(c);
                assert(parts_say(out@) =~= before.push(c.says()));
            },
            None => {},
        }
        k = k + 1;
    }
    assert(parts_say(out@) + components_from(absolute, all, k as int) =~= parts_say(out@));
    out
}

fn same_part(a: &Part, b: &Part) -> (r: bool)
    ensures
        r == (a.says() == b.says()),
{
    match (a, b) {
        (Part::Root, Part::Root) => true,
        (Part::Current, Part::Current) => true,
        (Part::Parent, Part::Parent) => true,
        (Part::Normal(x), Part::Normal(y)) => text::same(x.as_slice(), y.as_slice()),
        _ => false,
    }
}

fn begins_with_parts(a: &Vec<Part>, b: &Vec<Part>) -> (r: bool)
    ensures
        r == parts_say(b@).is_prefix_of(parts_say(a@)),
{
    if b.len() > a.len() {
        return false;
    }
    let mut k: usize = 0;
    while k < b.len()
        invariant
            k <= b@.len() <= a@.len(),
            forall|j: int| 0 <= j < k ==> parts_say(a@)[j] == parts_say(b@)[j],
        decreases b@.len() - k,
    {
        if !same_part(&a[k], &b[k]) {
            assert(parts_say(a@)[k as int] != parts_say(b@)[k as int]);
            assert(parts_say(a@).subrange(0, b@.len() as int)[k as int] == parts_say(a@)[k as int]);
            return false;
        }
        k = k + 1;
    }
    assert(parts_say(b@) =~= parts_say(a@).subrange(0, b@.len() as int));
    true
}

/// Whether two paths have the same components.
pub fn same_path(a: &str, b: &str) -> (r: bool)
    ensures
        r == same(a@, b@),
{
    let x = chars_of(a);
    let y = chars_of(b);
    let pa = parts(x.as_slice());
    let pb = parts(y.as_slice());
    if pa.len() != pb.len() {
        assert(parts_say(pa@).len() != parts_say(pb@).len());
        return false;
    }
    let r = begins_with_parts(&pa, &pb);
    proof {
        let u = parts_say(pa@);
        let v = parts_say(pb@);
        assert(u.subrange(0, v.len() as int) =~= u);
    }
    r
}

/// Whether one of the paths is the same as `p`.
pub fn listed(paths: &Vec<String>, p: &str) -> (r: bool)
    ensures
        r == lists(text::texts(paths@), p@),
{
    let mut k: usize = 0;
    while k < paths.len()
        invariant
            k <= paths@.len(),
            forall|j: int| 0 <= j < k ==> !same(#[trigger] text::texts(paths@)[j], p@),
        decreases paths@.len() - k,
    {
        if same_path(paths[k].as_str(), p) {
            assert(same(text::texts(paths@)[k as int], p@));
            return true;
        }
        k = k + 1;
    }
    false
}

/// Whether the components of a path begin with those of `base`.
pub fn under(p: &str, base: &str) -> (r: bool)
    ensures
        r == is_under(p@, base@),
{
    let x = chars_of(p);
    let y = chars_of(base);
    let px = parts(x.as_slice());
    let py = parts(y.as_slice());
    begins_with_parts(&px, &py)
}

/// The path `tail` seen from `base`: `tail` itself where it is absolute.
pub fn join(base: &str, tail: &str) -> (r: String)
    ensures
        r@ == joined(base@, tail@),
{
    let b = chars_of(base);
    let t = chars_of(tail);
    if begins_with_slash(t.as_slice()) {
        text::lit(tail)
    } else if b.len() > 0 && b[b.len() - 1] != '/' {
        text::cat3(base, "/", tail)
    } else {
        text::cat2(base, tail)
    }
}

fn name_index(p: &[char], ps: &Vec<&[char]>) -> (r: Option<usize>)
    requires
        text::slices(ps@) == pieces(p@),
    ensures
        match r {
            Some(k) => name_piece(p@) == Some(k as int) && k < ps@.len(),
            None => name_piece(p@) is None,
        },
{
    let absolute = begins_with_slash(p);
    let ghost all = pieces(p@);
    let mut k: usize = ps.len();
    while k > 0
        invariant
            k <= ps@.len(),
            all == pieces(p@),
            all == text::slices(ps@),
            absolute == is_absolute(p@),
            last_piece(absolute, all, ps@.len() as int) == last_piece(absolute, all, k as int),
        decreases k,
    {
        assert(all[k - 1] == ps@[k - 1]@);
        match part_of(absolute, k == 1, ps[k - 1]) {
            Some(Part::Normal(_)) => {
                return Some(k - 1);
            },
            Some(_) => {
                return None;
            },
            None => {},
        }
        k = k - 1;
    }
    None
}

/// The length of a file name before its extension.
pub fn stem_length(name: &[char]) -> (r: usize)
    ensures
        r == stem_len(name@),
        r <= name@.len(),
{
    let n: usize = name.len();
    match text::rfind_ch(name, '.') {
        Some(k) => if k > 0 {
            k
        } else {
            n
        },
        None => n,
    }
}

/// The file name of a path.
pub fn file_name_of(p: &str) -> (r: Option<String>)
    ensures
        text::opt_text(r) == file_name(p@),
{
    let c = chars_of(p);
    let ps = text::split_on(c.as_slice(), '/');
    match name_index(c.as_slice(), &ps) {
        Some(k) => {
            assert(text::slices(ps@)[k as int] == ps@[k as int]@);
            Some(string_of(ps[k]))
        },
        None => None,
    }
}

/// The extension of a path.
pub fn extension_of(p: &str) -> (r: Option<String>)
    ensures
        text::opt_text(r) == extension(p@),
{
    match file_name_of(p) {
        Some(name) => {
            let n = chars_of(name.as_str());
            let k = stem_length(n.as_slice());
            if k < n.len() {
                Some(string_of(text::from(n.as_slice(), k + 1)))
            } else {
                None
            }
        },
        None => None,
    }
}

/// The file name of a path without its extension.
pub fn file_stem_of(p: &str) -> (r: Option<String>)
    ensures
        text::opt_text(r) == file_stem(p@),
{
    match file_name_of(p) {
        Some(name) => {
            let n = chars_of(name.as_str());
            let k = stem_length(n.as_slice());
            Some(string_of(text::upto(n.as_slice(), k)))
        },
        None => None,
    }
}

/// The path with the extension of its file name replaced by `ext`.
pub fn set_extension(p: &str, ext: &str) -> (r: String)
    ensures
        r@ == with_extension(p@, ext@),
{
    broadcast use text::lemma_slices_push;

    let c = chars_of(p);
    let ps = text::split_on(c.as_slice(), '/');
    match name_index(c.as_slice(), &ps) {
        Some(k) => {
            let ghost all = pieces(p@);
            assert(all[k as int] == ps@[k as int]@);
            let n = stem_length(ps[k]);
            let mut name = string_of(text::upto(ps[k], n));
            text::push(&mut name, ".");
            text::push(&mut name, ext);
            let last = chars_of(name.as_str());
            let mut kept: Vec<&[char]> = Vec::new();
            let mut j: usize = 0;
            while j < k
                invariant
                    j <= k < ps@.len(),
                    all == text::slices(ps@),
                    text::slices(kept@) == all.take(j as int),
                decreases k - j,
            {
                assert(all.take(j + 1) =~= all.take(j as int).push(ps@[j as int]@));
                kept.push(ps[j]);
                j = j + 1;
            }
            kept.push(last.as_slice());
            text::joined_slices(&kept, "/")
        },
        None => text::lit(p),
    }
}

fn idle(piece: &[char]) -> (r: bool)
    ensures
        r == is_idle(piece@),
{
    piece.len() == 0 || text::is_lit(piece, ".")
}

/// The pieces from `lo` up to `hi`, joined by slashes.
fn join_pieces(ps: &Vec<&[char]>, lo: usize, hi: usize) -> (r: String)
    requires
        lo <= hi <= ps@.len(),
    ensures
        r@ == text::join(text::slices(ps@).subrange(lo as int, hi as int), "/"@),
{
    broadcast use text::lemma_slices_push;

    let ghost all = text::slices(ps@);
    let mut kept: Vec<&[char]> = Vec::new();
    let mut j: usize = lo;
    assert(text::slices(kept@) =~= all.subrange(lo as int, lo as int));
    while j < hi
        invariant
            lo <= j <= hi <= ps@.len(),
            all == text::slices(ps@),
            text::slices(kept@) == all.subrange(lo as int, j as int),
        decreases hi - j,
    {
        assert(all.subrange(lo as int, j + 1) =~= all.subrange(lo as int, j as int).push(
            ps@[j as int]@,
        ));
        kept.push(ps[j]);
        j = j + 1;
    }
    text::joined_slices(&kept, "/")
}

fn trailing(ps: &Vec<&[char]>, low: usize) -> (r: usize)
    ensures
        r == drop_idle(text::slices(ps@), low as int, ps@.len() as int),
        r <= ps@.len(),
        low <= ps@.len() ==> low <= r,
{
    let ghost all = text::slices(ps@);
    let mut k: usize = ps.len();
    while k > low && idle(ps[k - 1])
        invariant
            k <= ps@.len(),
            low <= ps@.len() ==> low <= k,
            all == text::slices(ps@),
            drop_idle(all, low as int, ps@.len() as int) == drop_idle(all, low as int, k as int),
        decreases k,
    {
        assert(all[k - 1] == ps@[k - 1]@);
        k = k - 1;
    }
    assert(k > low ==> all[k - 1] == ps@[k - 1]@);
    k
}

/// What follows the components of `base` in a path under it.
pub fn relative_to(p: &str, base: &str) -> (r: Option<String>)
    ensures
        text::opt_text(r) == relative(p@, base@),
{
    let c = chars_of(p);
    let b = chars_of(base);
    let px = parts(c.as_slice());
    let py = parts(b.as_slice());
    if !begins_with_parts(&px, &py) {
        return None;
    }
    let absolute = begins_with_slash(c.as_slice());
    let ps = text::split_on(c.as_slice(), '/');
    let ghost all = pieces(p@);
    let n: usize = py.len();
    assert(n == components(base@).len());
    if n == 0 {
        let hi = trailing(&ps, 1);
        assert(all.subrange(0, hi as int) =~= all.take(hi as int));
        if absolute && hi == 1 {
            return Some(text::lit("/"));
        }
        return Some(join_pieces(&ps, 0, hi));
    }
    let mut k: usize = 0;
    let mut left: usize = n;
    while k < ps.len() && left > 0
        invariant
            k <= ps@.len(),
            all == pieces(p@),
            all == text::slices(ps@),
            absolute == is_absolute(p@),
            pieces_of(absolute, all, 0, n as nat) == pieces_of(
                absolute,
                all,
                k as int,
                left as nat,
            ),
        decreases ps@.len() - k,
    {
        assert(all[k as int] == ps@[k as int]@);
        if part_of(absolute, k == 0, ps[k]).is_some() {
            left = left - 1;
        }
        k = k + 1;
    }
    let ghost first = k as int;
    while k < ps.len() && idle(ps[k])
        invariant
            k <= ps@.len(),
            all == text::slices(ps@),
            skip_idle(all, first) == skip_idle(all, k as int),
        decreases ps@.len() - k,
    {
        assert(all[k as int] == ps@[k as int]@);
        k = k + 1;
    }
    assert(k < ps@.len() ==> all[k as int] == ps@[k as int]@);
    let hi = trailing(&ps, k);
    Some(join_pieces(&ps, k, hi))
}

/// What follows the components of `base` in a path under it, the path itself elsewhere.
pub fn relative_or_path(p: &str, base: &str) -> (r: String)
    ensures
        r@ == relative_or_self(p@, base@),
{
    match relative_to(p, base) {
        Some(r) => r,
        None => text::lit(p),
    }
}

/// Whether a path begins with a slash.
pub fn absolute(p: &str) -> (r: bool)
    ensures
        r == is_absolute(p@),
{
    let c = chars_of(p);
    begins_with_slash(c.as_slice())
}

/// Whether a path has a `..` among its components.
pub open spec fn has_parent(p: Seq<char>) -> bool {
    exists|k: int| 0 <= k < components(p).len() && (#[trigger] components(p)[k]) is Parent
}

/// Whether a path has a `..` among its components.
pub fn goes_up(p: &str) -> (r: bool)
    ensures
        r == has_parent(p@),
{
    let c = chars_of(p);
    let ps = parts(c.as_slice());
    let ghost all = components(p@);
    let mut k: usize = 0;
    while k < ps.len()
        invariant
            k <= ps@.len(),
            all == parts_say(ps@),
            all == components(p@),
            forall|j: int| 0 <= j < k ==> !((#[trigger] all[j]) is Parent),
        decreases ps@.len() - k,
    {
        assert(all[k as int] == ps@[k as int].says());
        match &ps[k] {
            Part::Parent => {
                assert(components(p@)[k as int] is Parent);
                return true;
            },
            _ => {},
        }
        k = k + 1;
    }
    false
}

// ---------------------------------------------------------------------------
// Laws
// ---------------------------------------------------------------------------

proof fn lemma_find_char_in(a: Seq<char>, b: Seq<char>, c: char, i: int)
    requires
        0 <= i <= a.len(),
    ensures
        text::find_char_from(a + seq![c] + b, c, i) == match text::find_char_from(a, c, i) {
            Some(k) => Some(k),
            None => Some(a.len() as int),
        },
    decreases a.len() - i,
{
    let s = a + seq![c] + b;
    if i < a.len() {
        assert(s[i] == a[i]);
        if a[i] != c {
            lemma_find_char_in(a, b, c, i + 1);
        }
    } else {
        assert(s[i] == c);
    }
}

/// Splitting two texts with the separator between them is splitting each.
pub proof fn lemma_split_join(a: Seq<char>, b: Seq<char>, c: char)
    ensures
        text::split(a + seq![c] + b, c) == text::split(a, c) + text::split(b, c),
    decreases a.len(),
{
    let s = a + seq![c] + b;
    lemma_find_char_in(a, b, c, 0);
    text::lemma_find_char_bounds(a, c, 0);
    match text::find_char(a, c) {
        None => {
            let k = a.len() as int;
            assert(s.take(k) =~= a);
            assert(s.skip(k + 1) =~= b);
            assert(text::split(s, c) =~= seq![a] + text::split(b, c));
        },
        Some(k) => {
            let rest = a.skip(k + 1);
            assert(s.take(k) =~= a.take(k));
            assert(s.skip(k + 1) =~= rest + seq![c] + b);
            lemma_split_join(rest, b, c);
            assert(text::split(s, c) =~= text::split(a, c) + text::split(b, c));
        },
    }
}

proof fn lemma_components_join(absolute: bool, a: Seq<Seq<char>>, b: Seq<Seq<char>>, k: int)
    requires
        0 <= k <= a.len(),
    ensures
        components_from(absolute, a + b, k) == components_from(absolute, a, k) + components_from(
            absolute,
            a + b,
            a.len() as int,
        ),
    decreases a.len() - k,
{
    let all = components_from(absolute, a + b, k);
    let tail = components_from(absolute, a + b, a.len() as int);
    if k < a.len() {
        lemma_components_join(absolute, a, b, k + 1);
        assert((a + b)[k] == a[k]);
        let rest = components_from(absolute, a, k + 1);
        match component(absolute, k, a[k]) {
            Some(c) => {
                assert(seq![c] + (rest + tail) =~= (seq![c] + rest) + tail);
            },
            None => {},
        }
    } else {
        assert(components_from(absolute, a, k) =~= Seq::<Component>::empty());
        assert(all =~= Seq::<Component>::empty() + tail);
    }
}

/// A directory without the slash that may end it.
spec fn trunk(base: Seq<char>) -> Seq<char> {
    if base.last() == '/' {
        base.drop_last()
    } else {
        base
    }
}

/// The components of a relative path seen from a directory are those of the directory and
/// those of the path.
proof fn lemma_joined(base: Seq<char>, tail: Seq<char>)
    requires
        !is_absolute(tail),
        base.len() > 0,
    ensures
        ({
            let ps = pieces(trunk(base));
            &&& ps.len() > 0
            &&& components(joined(base, tail)) == components(base) + components_from(
                is_absolute(base),
                ps + pieces(tail),
                ps.len() as int,
            )
        }),
{
    reveal_strlit("/");
    let none = Seq::<char>::empty();
    let j = joined(base, tail);
    let front = trunk(base);
    let ps = pieces(front);
    let absolute = is_absolute(base);
    text::lemma_find_char_bounds(front, '/', 0);
    assert(j =~= front + seq!['/'] + tail);
    lemma_split_join(front, tail, '/');
    assert(j[0] == base[0]);
    lemma_components_join(absolute, ps, pieces(tail), 0);
    if base.last() == '/' {
        assert(base =~= front + seq!['/'] + none);
        lemma_split_join(front, none, '/');
        assert(text::find_char(none, '/') is None);
        assert(pieces(none) =~= seq![none]);
        lemma_components_join(absolute, ps, pieces(none), 0);
        let n = ps.len() as int;
        let all = ps + pieces(none);
        assert(all[n] == none);
        assert(components_from(absolute, all, n + 1) =~= Seq::<Component>::empty());
        assert(components_from(absolute, all, n) =~= Seq::<Component>::empty());
        assert(components(base) =~= components_from(absolute, ps, 0));
    }
}

/// A relative path seen from a directory lies under that directory.
pub proof fn law_join_stays_under(base: Seq<char>, tail: Seq<char>)
    requires
        !is_absolute(tail),
    ensures
        is_under(joined(base, tail), base),
{
    if base.len() == 0 {
        assert(text::find_char(base, '/') is None);
        assert(pieces(base) =~= seq![base]);
        assert(components_from(false, pieces(base), 1) =~= Seq::<Component>::empty());
        assert(components(base) =~= Seq::<Component>::empty());
    } else {
        lemma_joined(base, tail);
        let all = components(joined(base, tail));
        assert(components(base) =~= all.take(components(base).len() as int));
    }
}

proof fn lemma_pieces_have_no_slash(s: Seq<char>, k: int)
    requires
        0 <= k < pieces(s).len(),
    ensures
        !pieces(s)[k].contains('/'),
    decreases s.len(),
{
    text::lemma_find_char_bounds(s, '/', 0);
    match text::find_char(s, '/') {
        None => {},
        Some(at) => {
            if k > 0 {
                lemma_pieces_have_no_slash(s.skip(at + 1), k - 1);
                assert(pieces(s)[k] == pieces(s.skip(at + 1))[k - 1]);
            }
        },
    }
}

proof fn lemma_skip_idle(ps: Seq<Seq<char>>, k: int)
    requires
        0 <= k,
    ensures
        k <= skip_idle(ps, k),
        k <= ps.len() ==> skip_idle(ps, k) <= ps.len(),
        skip_idle(ps, k) < ps.len() ==> !is_idle(ps[skip_idle(ps, k)]),
    decreases ps.len() - k,
{
    if k < ps.len() && is_idle(ps[k]) {
        lemma_skip_idle(ps, k + 1);
    }
}

proof fn lemma_drop_idle(ps: Seq<Seq<char>>, low: int, k: int)
    requires
        low <= k <= ps.len(),
    ensures
        low <= drop_idle(ps, low, k) <= k,
    decreases k,
{
    if low < k && 0 < k && is_idle(ps[k - 1]) {
        lemma_drop_idle(ps, low, k - 1);
    }
}

proof fn lemma_pieces_of(absolute: bool, ps: Seq<Seq<char>>, k: int, n: nat)
    requires
        0 <= k <= ps.len(),
    ensures
        k <= pieces_of(absolute, ps, k, n) <= ps.len(),
    decreases ps.len() - k,
{
    if n > 0 && k < ps.len() {
        if component(absolute, k, ps[k]) is Some {
            lemma_pieces_of(absolute, ps, k + 1, (n - 1) as nat);
        } else {
            lemma_pieces_of(absolute, ps, k + 1, n);
        }
    }
}

proof fn lemma_join_begins(parts: Seq<Seq<char>>, sep: Seq<char>)
    requires
        parts.len() > 0,
    ensures
        text::join(parts, sep).len() >= parts[0].len(),
        parts[0].len() > 0 ==> text::join(parts, sep)[0] == parts[0][0],
    decreases parts.len(),
{
    if parts.len() > 1 {
        lemma_join_begins(parts.drop_last(), sep);
        assert(parts.drop_last()[0] == parts[0]);
    }
}

/// What follows a directory in a path under it is a relative path.
pub proof fn law_relative_is_relative(p: Seq<char>, base: Seq<char>)
    requires
        is_under(p, base),
        components(base).len() > 0,
    ensures
        relative(p, base) matches Some(r) && !is_absolute(r),
{
    let ps = pieces(p);
    let n = components(base).len();
    let from = pieces_of(is_absolute(p), ps, 0, n);
    let lo = skip_idle(ps, from);
    lemma_pieces_of(is_absolute(p), ps, 0, n);
    lemma_skip_idle(ps, from);
    lemma_drop_idle(ps, lo, ps.len() as int);
    let hi = drop_idle(ps, lo, ps.len() as int);
    let parts = ps.subrange(lo, hi);
    if parts.len() > 0 {
        lemma_join_begins(parts, "/"@);
        lemma_pieces_have_no_slash(p, lo);
        assert(parts[0] == ps[lo]);
        assert(ps[lo].len() > 0);
        assert(ps[lo][0] != '/');
    }
}

/// Behind the first piece it does not matter where a piece stands.
proof fn lemma_components_shift(
    a: bool,
    x: Seq<Seq<char>>,
    k: int,
    b: bool,
    y: Seq<Seq<char>>,
    j: int,
)
    requires
        1 <= k <= x.len(),
        1 <= j <= y.len(),
        x.skip(k) == y.skip(j),
    ensures
        components_from(a, x, k) == components_from(b, y, j),
    decreases x.len() - k,
{
    assert(x.skip(k).len() == x.len() - k);
    assert(y.skip(j).len() == y.len() - j);
    if k < x.len() {
        assert(x.skip(k)[0] == x[k]);
        assert(y.skip(j)[0] == y[j]);
        assert(x.skip(k + 1) =~= x.skip(k).skip(1));
        assert(y.skip(j + 1) =~= y.skip(j).skip(1));
        lemma_components_shift(a, x, k + 1, b, y, j + 1);
        assert(component(a, k, x[k]) == component(b, j, y[j]));
    } else {
        assert(components_from(a, x, k) =~= components_from(b, y, j));
    }
}

proof fn lemma_components_taken(absolute: bool, ps: Seq<Seq<char>>, k: int, n: nat)
    requires
        0 <= k <= ps.len(),
        n <= components_from(absolute, ps, k).len(),
    ensures
        ({
            let all = components_from(absolute, ps, k);
            let at = pieces_of(absolute, ps, k, n);
            &&& k <= at <= ps.len()
            &&& n > 0 ==> k < at
            &&& all == all.take(n as int) + components_from(absolute, ps, at)
        }),
    decreases ps.len() - k,
{
    let all = components_from(absolute, ps, k);
    if n == 0 {
        assert(all =~= all.take(0) + all);
    } else if k < ps.len() {
        match component(absolute, k, ps[k]) {
            Some(c) => {
                let rest = components_from(absolute, ps, k + 1);
                let m = (n - 1) as nat;
                lemma_components_taken(absolute, ps, k + 1, m);
                let at = pieces_of(absolute, ps, k, n);
                assert(all.take(n as int) =~= seq![c] + rest.take(m as int));
                assert(all =~= all.take(n as int) + components_from(absolute, ps, at));
            },
            None => {
                lemma_components_taken(absolute, ps, k + 1, n);
            },
        }
    }
}

proof fn lemma_idle_skipped(absolute: bool, ps: Seq<Seq<char>>, k: int)
    requires
        1 <= k,
    ensures
        components_from(absolute, ps, k) == components_from(absolute, ps, skip_idle(ps, k)),
    decreases ps.len() - k,
{
    if k < ps.len() && is_idle(ps[k]) {
        lemma_idle_skipped(absolute, ps, k + 1);
    }
}

proof fn lemma_idle_dropped(absolute: bool, ps: Seq<Seq<char>>, low: int, k: int)
    requires
        1 <= low <= k <= ps.len(),
    ensures
        components_from(absolute, ps.take(k), low) == components_from(
            absolute,
            ps.take(drop_idle(ps, low, k)),
            low,
        ),
    decreases k,
{
    if low < k && is_idle(ps[k - 1]) {
        let x = ps.take(k - 1);
        let y = seq![ps[k - 1]];
        assert(ps.take(k) =~= x + y);
        lemma_components_join(absolute, x, y, low);
        assert((x + y)[k - 1] == ps[k - 1]);
        assert(components_from(absolute, x + y, k) =~= Seq::<Component>::empty());
        assert(components_from(absolute, x + y, k - 1) =~= Seq::<Component>::empty());
        let c = components_from(absolute, x, low);
        assert(c + Seq::<Component>::empty() =~= c);
        lemma_idle_dropped(absolute, ps, low, k - 1);
    }
}

proof fn lemma_pieces_of_join(parts: Seq<Seq<char>>)
    requires
        parts.len() > 0,
        forall|k: int| 0 <= k < parts.len() ==> !(#[trigger] parts[k]).contains('/'),
    ensures
        pieces(text::join(parts, "/"@)) == parts,
    decreases parts.len(),
{
    reveal_strlit("/");
    let last = parts.last();
    assert(!parts[parts.len() - 1].contains('/'));
    text::lemma_find_char_bounds(last, '/', 0);
    assert(pieces(last) =~= seq![last]);
    if parts.len() == 1 {
        assert(parts =~= seq![last]);
    } else {
        let front = parts.drop_last();
        assert forall|k: int| 0 <= k < front.len() implies !(#[trigger] front[k]).contains('/') by {
            assert(front[k] == parts[k]);
        }
        lemma_pieces_of_join(front);
        let j = text::join(front, "/"@);
        assert(text::join(parts, "/"@) =~= j + seq!['/'] + last);
        lemma_split_join(j, last, '/');
        assert(parts =~= front + seq![last]);
    }
}

/// What follows a directory in a path under it leads from there to the same path.
pub proof fn law_relative_leads_back(p: Seq<char>, base: Seq<char>)
    requires
        is_under(p, base),
        components(base).len() > 0,
    ensures
        relative(p, base) matches Some(r) && same(joined(base, r), p),
{
    let ps = pieces(p);
    let absolute = is_absolute(p);
    let n = components(base).len();
    let from = pieces_of(absolute, ps, 0, n);
    lemma_components_taken(absolute, ps, 0, n);
    lemma_skip_idle(ps, from);
    let lo = skip_idle(ps, from);
    lemma_drop_idle(ps, lo, ps.len() as int);
    let hi = drop_idle(ps, lo, ps.len() as int);
    let parts = ps.subrange(lo, hi);
    let r = text::join(parts, "/"@);
    lemma_idle_skipped(absolute, ps, from);
    assert(ps.take(ps.len() as int) =~= ps);
    lemma_idle_dropped(absolute, ps, lo, ps.len() as int);
    let rest = components_from(absolute, ps.take(hi), lo);
    assert(components(p).take(n as int) =~= components(base));
    assert(components(p) == components(base) + rest);
    assert(base.len() > 0) by {
        if base.len() == 0 {
            assert(text::find_char(base, '/') is None);
            assert(pieces(base) =~= seq![base]);
            assert(components_from(false, pieces(base), 1) =~= Seq::<Component>::empty());
            assert(components(base) =~= Seq::<Component>::empty());
        }
    }
    law_relative_is_relative(p, base);
    lemma_joined(base, r);
    let front = pieces(trunk(base));
    let all = front + pieces(r);
    let m = front.len() as int;
    if lo < hi {
        assert forall|k: int| 0 <= k < parts.len() implies !(#[trigger] parts[k]).contains('/') by {
            lemma_pieces_have_no_slash(p, lo + k);
            assert(parts[k] == ps[lo + k]);
        }
        lemma_pieces_of_join(parts);
        assert(all.skip(m) =~= parts);
        assert(ps.take(hi).skip(lo) =~= parts);
        lemma_components_shift(is_absolute(base), all, m, absolute, ps.take(hi), lo);
    } else {
        assert(parts =~= Seq::<Seq<char>>::empty());
        assert(r =~= Seq::<char>::empty());
        assert(text::find_char(r, '/') is None);
        assert(pieces(r) =~= seq![r]);
        assert(all[m] == r);
        assert(components_from(is_absolute(base), all, m + 1) =~= Seq::<Component>::empty());
        assert(components_from(is_absolute(base), all, m) =~= Seq::<Component>::empty());
        assert(rest =~= Seq::<Component>::empty());
    }
}

} // verus!
