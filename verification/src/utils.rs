//! Where things lie, which files count, and how files are named.

use vstd::prelude::*;

use crate::chars;
use crate::paths;
use crate::text::{self, chars_of, string_of};

verus! {

broadcast use text::lemma_texts_push;

/// The data directory, given the home directory.
pub fn data_dir(home: Option<&str>) -> (r: Result<String, String>)
    ensures
        match (r, home) {
            (Ok(p), Some(h)) => p@ == paths::joined(h@, ".texforge"@),
            (Err(m), None) => m@ == "Could not determine home directory"@,
            _ => false,
        },
{
    match home {
        Some(h) => Ok(paths::join(h, ".texforge")),
        None => Err(text::lit("Could not determine home directory")),
    }
}

/// The directory of templates, given the home directory.
pub fn templates_dir(home: Option<&str>) -> (r: Result<String, String>)
    ensures
        match (r, home) {
            (Ok(p), Some(h)) => p@ == paths::joined(
                paths::joined(h@, ".texforge"@),
                "templates"@,
            ),
            (Err(m), None) => m@ == "Could not determine home directory"@,
            _ => false,
        },
{
    match data_dir(home) {
        Ok(d) => Ok(paths::join(d.as_str(), "templates")),
        Err(m) => Err(m),
    }
}

/// Whether a file belongs to the sources of a kind: it has the extension, and does not
/// lie in the directory `build` of the root.
pub open spec fn is_source_file(path: Seq<char>, root: Seq<char>, ext: Seq<char>) -> bool {
    !paths::is_under(path, paths::joined(root, "build"@)) && paths::extension(path) == Some(ext)
}

/// The files, from the `k`-th on, that belong to the sources of a kind.
pub open spec fn source_files(
    files: Seq<Seq<char>>,
    root: Seq<char>,
    ext: Seq<char>,
    k: int,
) -> Seq<Seq<char>>
    decreases files.len() - k,
{
    if k < 0 || k >= files.len() {
        Seq::empty()
    } else if is_source_file(files[k], root, ext) {
        seq![files[k]] + source_files(files, root, ext, k + 1)
    } else {
        source_files(files, root, ext, k + 1)
    }
}

fn keep_sources(files: &Vec<String>, root: &str, ext: &str) -> (r: Vec<String>)
    ensures
        text::texts(r@) == source_files(text::texts(files@), root@, ext@, 0),
{
    let build_dir = paths::join(root, "build");
    let ghost all = text::texts(files@);
    let mut out: Vec<String> = Vec::new();
    let mut k: usize = 0;
    assert(text::texts(out@) + source_files(all, root@, ext@, 0) =~= source_files(
        all,
        root@,
        ext@,
        0,
    ));
    while k < files.len()
        invariant
            k <= files@.len(),
            all == text::texts(files@),
            build_dir@ == paths::joined(root@, "build"@),
            text::texts(out@) + source_files(all, root@, ext@, k as int) == source_files(
                all,
                root@,
                ext@,
                0,
            ),
        decreases files@.len() - k,
    {
        let path = files[k].as_str();
        assert(all[k as int] == path@);
        if !paths::under(path, build_dir.as_str()) {
            if let Some(e) = paths::extension_of(path) {
                if text::same_str(e.as_str(), ext) {
                    let ghost done = text::texts(out@);
                    out.push(text::lit(path));
                    assert(done + (seq![path@] + source_files(all, root@, ext@, k + 1))
                        =~= text::texts(out@) + source_files(all, root@, ext@, k + 1));
                }
            }
        }
        k = k + 1;
    }
    assert(text::texts(out@) + source_files(all, root@, ext@, k as int) =~= text::texts(out@));
    out
}

/// The `.tex` files among the files under a root, those in `build/` aside.
pub fn find_tex_files(root: &str, files: &Vec<String>) -> (r: Vec<String>)
    ensures
        text::texts(r@) == source_files(text::texts(files@), root@, "tex"@, 0),
{
    keep_sources(files, root, "tex")
}

/// The `.bib` files among the files under a root, those in `build/` aside.
pub fn find_bib_files(root: &str, files: &Vec<String>) -> (r: Vec<String>)
    ensures
        text::texts(r@) == source_files(text::texts(files@), root@, "bib"@, 0),
{
    keep_sources(files, root, "bib")
}

// ---------------------------------------------------------------------------
// File names
// ---------------------------------------------------------------------------

/// A text with a hyphen in place of each character that is not alphanumeric.
pub open spec fn hyphenated(s: Seq<char>) -> Seq<char> {
    Seq::new(
        s.len(),
        |k: int|
            if chars::alphanumeric(s[k]) {
                s[k]
            } else {
                '-'
            },
    )
}

/// The texts from the `k`-th on that are not empty.
pub open spec fn filled(s: Seq<Seq<char>>, k: int) -> Seq<Seq<char>>
    decreases s.len() - k,
{
    if k < 0 || k >= s.len() {
        Seq::empty()
    } else if s[k].len() > 0 {
        seq![s[k]] + filled(s, k + 1)
    } else {
        filled(s, k + 1)
    }
}

/// A title as a file name: in lowercase, its alphanumeric runs with a hyphen between them.
pub open spec fn file_name_of(title: Seq<char>) -> Seq<char> {
    text::join(filled(text::split(hyphenated(chars::lowercase(title)), '-'), 0), "-"@)
}

/// Sanitize a document title into a valid file name.
pub fn sanitize_filename(title: &str) -> (r: String)
    ensures
        r@ == file_name_of(title@),
{
    let lower = chars_of(chars::to_lowercase(title).as_str());
    let ghost small = lower@;
    let mut mapped: Vec<char> = Vec::new();
    let mut i: usize = 0;
    while i < lower.len()
        invariant
            i <= lower@.len(),
            small == lower@,
            mapped@ == hyphenated(small).take(i as int),
        decreases lower@.len() - i,
    {
        let c = lower[i];
        if c.is_alphanumeric() {
            mapped.push(c);
        } else {
            mapped.push('-');
        }
        assert(mapped@ =~= hyphenated(small).take(i + 1));
        i = i + 1;
    }
    assert(mapped@ =~= hyphenated(small));
    let parts = text::split_on(mapped.as_slice(), '-');
    let ghost all = text::slices(parts@);
    let mut out: Vec<String> = Vec::new();
    let mut k: usize = 0;
    assert(text::texts(out@) + filled(all, 0) =~= filled(all, 0));
    while k < parts.len()
        invariant
            k <= parts@.len(),
            all == text::slices(parts@),
            text::texts(out@) + filled(all, k as int) == filled(all, 0),
        decreases parts@.len() - k,
    {
        assert(all[k as int] == parts@[k as int]@);
        if parts[k].len() > 0 {
            let ghost done = text::texts(out@);
            out.push(string_of(parts[k]));
            assert(done + (seq![all[k as int]] + filled(all, k + 1)) =~= text::texts(out@) + filled(
                all,
                k + 1,
            ));
        }
        k = k + 1;
    }
    assert(text::texts(out@) + filled(all, k as int) =~= text::texts(out@));
    text::joined(&out, "-")
}

// ---------------------------------------------------------------------------
// Assets
// ---------------------------------------------------------------------------

/// Whether a walk over a project goes into an entry: hidden ones, the directory `build` at
/// the top, and the build directory itself are left out.
pub open spec fn is_walked(
    name: Seq<char>,
    depth: int,
    path: Seq<char>,
    build_dir: Seq<char>,
) -> bool {
    !(name.len() > 0 && name[0] == '.') && !(depth == 1 && name == "build"@) && !paths::same(
        path,
        build_dir,
    )
}

/// Whether a walk over a project, to mirror its assets, goes into an entry.
pub fn walks_into(name: &str, depth: usize, path: &str, build_dir: &str) -> (r: bool)
    ensures
        r == is_walked(name@, depth as int, path@, build_dir@),
{
    let n = chars_of(name);
    !(n.len() > 0 && n[0] == '.') && !(depth == 1 && text::same_str(name, "build"))
        && !paths::same_path(path, build_dir)
}

/// Where an asset is mirrored to: under the build directory as it lies under the root. A
/// `.tex` file is no asset, nor is a file outside the root.
pub open spec fn mirrored(path: Seq<char>, root: Seq<char>, build_dir: Seq<char>) -> Option<
    Seq<char>,
> {
    if paths::extension(path) == Some("tex"@) {
        None
    } else {
        match paths::relative(path, root) {
            Some(rel) => Some(paths::joined(build_dir, rel)),
            None => None,
        }
    }
}

/// Where an asset is mirrored to, so that the engine resolves relative paths.
pub fn mirror_target(path: &str, root: &str, build_dir: &str) -> (r: Option<String>)
    ensures
        text::opt_text(r) == mirrored(path@, root@, build_dir@),
{
    if let Some(e) = paths::extension_of(path) {
        if text::same_str(e.as_str(), "tex") {
            return None;
        }
    }
    match paths::relative_to(path, root) {
        Some(rel) => Some(paths::join(build_dir, rel.as_str())),
        None => None,
    }
}

// ---------------------------------------------------------------------------
// Laws
// ---------------------------------------------------------------------------

/// Sources never lie in the build directory.
pub proof fn law_sources_are_not_built(
    files: Seq<Seq<char>>,
    root: Seq<char>,
    ext: Seq<char>,
    k: int,
    i: int,
)
    requires
        0 <= k,
        0 <= i < source_files(files, root, ext, k).len(),
    ensures
        !paths::is_under(source_files(files, root, ext, k)[i], paths::joined(root, "build"@)),
        paths::extension(source_files(files, root, ext, k)[i]) == Some(ext),
        files.contains(source_files(files, root, ext, k)[i]),
    decreases files.len() - k,
{
    if k < files.len() {
        if is_source_file(files[k], root, ext) {
            if i > 0 {
                law_sources_are_not_built(files, root, ext, k + 1, i - 1);
            }
        } else {
            law_sources_are_not_built(files, root, ext, k + 1, i);
        }
    }
}

proof fn lemma_pieces(s: Seq<char>, c: char, p: spec_fn(char) -> bool)
    requires
        forall|i: int| 0 <= i < s.len() && s[i] != c ==> p(#[trigger] s[i]),
    ensures
        forall|k: int, i: int|
            0 <= k < text::split(s, c).len() && 0 <= i < text::split(s, c)[k].len() ==> p(
                #[trigger] text::split(s, c)[k][i],
            ) && text::split(s, c)[k][i] != c,
    decreases s.len(),
{
    text::lemma_find_char_bounds(s, c, 0);
    match text::find_char(s, c) {
        None => {
            assert forall|k: int, i: int|
                0 <= k < text::split(s, c).len() && 0 <= i < text::split(s, c)[k].len() implies p(
                #[trigger] text::split(s, c)[k][i],
            ) && text::split(s, c)[k][i] != c by {
                assert(text::split(s, c)[k][i] == s[i]);
                if s[i] == c {
                    assert(s.contains(c));
                }
            }
        },
        Some(at) => {
            let rest = s.skip(at + 1);
            assert forall|i: int| 0 <= i < rest.len() && rest[i] != c implies p(#[trigger] rest[i]) by {
                assert(rest[i] == s[at + 1 + i]);
            }
            lemma_pieces(rest, c, p);
            assert forall|k: int, i: int|
                0 <= k < text::split(s, c).len() && 0 <= i < text::split(s, c)[k].len() implies p(
                #[trigger] text::split(s, c)[k][i],
            ) && text::split(s, c)[k][i] != c by {
                if k == 0 {
                    assert(text::split(s, c)[0] == s.take(at));
                    assert(s.take(at)[i] == s[i]);
                } else {
                    assert(text::split(s, c)[k] == text::split(rest, c)[k - 1]);
                    assert(text::split(rest, c)[k - 1][i] != c);
                }
            }
        },
    }
}

proof fn lemma_filled(s: Seq<Seq<char>>, k: int, j: int)
    requires
        0 <= k,
        0 <= j < filled(s, k).len(),
    ensures
        filled(s, k)[j].len() > 0,
        exists|i: int| 0 <= i < s.len() && #[trigger] s[i] == filled(s, k)[j],
    decreases s.len() - k,
{
    if k < s.len() {
        if s[k].len() > 0 {
            if j > 0 {
                lemma_filled(s, k + 1, j - 1);
            }
        } else {
            lemma_filled(s, k + 1, j);
        }
    }
}

/// Whether texts are the runs of a file name: not empty, and alphanumeric.
spec fn are_runs(parts: Seq<Seq<char>>) -> bool {
    forall|k: int| 0 <= k < parts.len() ==> is_run(#[trigger] parts[k])
}

spec fn is_run(part: Seq<char>) -> bool {
    part.len() > 0 && forall|j: int| 0 <= j < part.len() ==> chars::alphanumeric(#[trigger] part[j])
}

/// The runs of a file name.
spec fn runs_of(title: Seq<char>) -> Seq<Seq<char>> {
    filled(text::split(hyphenated(chars::lowercase(title)), '-'), 0)
}

proof fn lemma_runs(title: Seq<char>, p: spec_fn(char) -> bool)
    requires
        forall|j: int|
            0 <= j < chars::lowercase(title).len() ==> p(#[trigger] chars::lowercase(title)[j]),
    ensures
        are_runs(runs_of(title)),
        forall|k: int, j: int|
            0 <= k < runs_of(title).len() && 0 <= j < runs_of(title)[k].len() ==> p(
                #[trigger] runs_of(title)[k][j],
            ),
{
    let l = chars::lowercase(title);
    let h = hyphenated(l);
    let pieces = text::split(h, '-');
    let parts = runs_of(title);
    let q = |c: char| chars::alphanumeric(c) && p(c);
    assert forall|j: int| 0 <= j < h.len() && h[j] != '-' implies q(#[trigger] h[j]) by {
        assert(p(l[j]));
    }
    lemma_pieces(h, '-', q);
    assert forall|k: int, j: int| 0 <= k < parts.len() && 0 <= j < parts[k].len() implies q(
        #[trigger] parts[k][j],
    ) by {
        lemma_filled(pieces, 0, k);
        let m = choose|m: int| 0 <= m < pieces.len() && #[trigger] pieces[m] == parts[k];
        assert(q(pieces[m][j]));
    }
    assert forall|k: int| 0 <= k < parts.len() implies is_run(#[trigger] parts[k]) by {
        lemma_filled(pieces, 0, k);
        assert forall|j: int| 0 <= j < parts[k].len() implies chars::alphanumeric(
            #[trigger] parts[k][j],
        ) by {
            assert(q(parts[k][j]));
        }
    }
}

proof fn lemma_no_hyphen(part: Seq<char>, i: int)
    requires
        is_run(part),
        0 <= i <= part.len(),
    ensures
        text::find_char_from(part, '-', i) is None,
        forall|rest: Seq<char>|
            text::find_char_from(#[trigger] (part + "-"@ + rest), '-', i) == Some(
                part.len() as int,
            ),
    decreases part.len() - i,
{
    reveal_strlit("-");
    if i < part.len() {
        assert(chars::alphanumeric(part[i]));
        lemma_no_hyphen(part, i + 1);
    }
    assert forall|rest: Seq<char>|
        text::find_char_from(#[trigger] (part + "-"@ + rest), '-', i) == Some(
            part.len() as int,
        ) by {
        let t = part + "-"@ + rest;
        if i < part.len() {
            assert(t[i] == part[i]);
        } else {
            assert(t[i] == '-');
        }
    }
}

/// Joined runs are split into the same runs.
proof fn lemma_split_back(parts: Seq<Seq<char>>)
    requires
        are_runs(parts),
        parts.len() > 0,
    ensures
        text::split(text::join(parts, "-"@), '-') == parts,
    decreases parts.len(),
{
    reveal_strlit("-");
    assert(is_run(parts[0]));
    lemma_no_hyphen(parts[0], 0);
    if parts.len() == 1 {
        assert(parts =~= seq![parts[0]]);
    } else {
        let rest = parts.skip(1);
        assert forall|k: int| 0 <= k < rest.len() implies is_run(#[trigger] rest[k]) by {
            assert(rest[k] == parts[k + 1]);
        }
        lemma_split_back(rest);
        text::lemma_join_front(parts, "-"@);
        let n = parts[0].len() as int;
        let all = text::join(parts, "-"@);
        assert(text::find_char(all, '-') == Some(n));
        assert(all.take(n) =~= parts[0]);
        assert(all.skip(n + 1) =~= text::join(rest, "-"@));
        assert(parts =~= seq![parts[0]] + rest);
    }
}

proof fn lemma_filled_same(parts: Seq<Seq<char>>, k: int)
    requires
        are_runs(parts),
        0 <= k <= parts.len(),
    ensures
        filled(parts, k) == parts.skip(k),
    decreases parts.len() - k,
{
    if k < parts.len() {
        assert(is_run(parts[k]));
        lemma_filled_same(parts, k + 1);
        assert(parts.skip(k) =~= seq![parts[k]] + parts.skip(k + 1));
    } else {
        assert(parts.skip(k) =~= Seq::empty());
    }
}

/// Joined runs begin and end with an alphanumeric character, and no hyphen stands next to
/// another one.
proof fn lemma_join_tidy(parts: Seq<Seq<char>>)
    requires
        are_runs(parts),
        parts.len() > 0,
    ensures
        is_tidy_name(text::join(parts, "-"@)),
        text::join(parts, "-"@).len() > 0,
        chars::alphanumeric(text::join(parts, "-"@).last()),
    decreases parts.len(),
{
    reveal_strlit("-");
    let last = parts.last();
    assert(is_run(parts[parts.len() - 1]));
    assert(chars::alphanumeric(last[0]) && chars::alphanumeric(last[last.len() - 1]));
    let all = text::join(parts, "-"@);
    if parts.len() == 1 {
        assert(all == last);
        assert forall|i: int| 0 <= i < all.len() implies chars::alphanumeric(#[trigger] all[i]) by {
            assert(all[i] == last[i]);
        }
    } else {
        let front = parts.drop_last();
        assert forall|k: int| 0 <= k < front.len() implies is_run(#[trigger] front[k]) by {
            assert(front[k] == parts[k]);
        }
        lemma_join_tidy(front);
        let head = text::join(front, "-"@);
        let n = head.len() as int;
        assert(all == head + "-"@ + last);
        assert(all[0] == head[0]);
        assert(all.last() == last.last());
        assert forall|i: int| 0 <= i < all.len() implies chars::alphanumeric(#[trigger] all[i])
            || all[i] == '-' by {
            if i < n {
                assert(all[i] == head[i]);
            } else if i > n {
                assert(all[i] == last[i - n - 1]);
                assert(chars::alphanumeric(last[i - n - 1]));
            }
        }
        assert forall|i: int, j: int| 0 <= i && j == i + 1 && j < all.len() && #[trigger] all[i]
            == '-' implies #[trigger] all[j] != '-' by {
            if j < n {
                assert(all[i] == head[i] && all[j] == head[j]);
            } else if j == n {
                assert(all[i] == head[n - 1]);
            } else {
                assert(all[j] == last[j - n - 1]);
                assert(chars::alphanumeric(last[j - n - 1]));
            }
        }
    }
}

/// Whether a text is made of alphanumeric characters and hyphens, with no hyphen at either
/// end or next to another one.
pub open spec fn is_tidy_name(s: Seq<char>) -> bool {
    &&& forall|i: int| 0 <= i < s.len() ==> chars::alphanumeric(#[trigger] s[i]) || s[i] == '-'
    &&& s.len() > 0 ==> s[0] != '-' && s.last() != '-'
    &&& forall|i: int, j: int|
        0 <= i && j == i + 1 && j < s.len() && #[trigger] s[i] == '-' ==> #[trigger] s[j] != '-'
}

proof fn lemma_empty_runs(h: Seq<char>)
    ensures
        filled(text::split(h, '-'), 0).len() == 0 <==> forall|i: int|
            0 <= i < h.len() ==> #[trigger] h[i] == '-',
    decreases h.len(),
{
    text::lemma_find_char_bounds(h, '-', 0);
    let pieces = text::split(h, '-');
    match text::find_char(h, '-') {
        None => {
            assert(filled(pieces, 1) =~= Seq::empty());
            if h.len() > 0 {
                assert(h[0] != '-');
            }
        },
        Some(k) => {
            let rest = h.skip(k + 1);
            lemma_empty_runs(rest);
            lemma_filled_tail(h.take(k), text::split(rest, '-'), 0);
            assert(pieces[0] == h.take(k));
            if k > 0 {
                assert(h[0] != '-');
            } else {
                if filled(pieces, 0).len() == 0 {
                    assert forall|i: int| 0 <= i < h.len() implies #[trigger] h[i] == '-' by {
                        if i > 0 {
                            assert(rest[i - 1] == h[i]);
                        }
                    }
                }
                if forall|i: int| 0 <= i < h.len() ==> #[trigger] h[i] == '-' {
                    assert forall|i: int| 0 <= i < rest.len() implies #[trigger] rest[i] == '-' by {
                        assert(rest[i] == h[i + 1]);
                    }
                }
            }
        },
    }
}

pub proof fn lemma_filled_tail(x: Seq<char>, s: Seq<Seq<char>>, k: int)
    requires
        0 <= k <= s.len(),
    ensures
        filled(seq![x] + s, k + 1) == filled(s, k),
    decreases s.len() - k,
{
    if k < s.len() {
        assert((seq![x] + s)[k + 1] == s[k]);
        lemma_filled_tail(x, s, k + 1);
    }
}

/// A file name has no hyphen at either end and no two in a row, and it is empty exactly
/// where the title in lower case has no alphanumeric character.
pub proof fn law_file_name_is_tidy(title: Seq<char>)
    ensures
        is_tidy_name(file_name_of(title)),
        file_name_of(title).len() == 0 <==> forall|i: int|
            0 <= i < chars::lowercase(title).len() ==> !chars::alphanumeric(
                #[trigger] chars::lowercase(title)[i],
            ),
{
    let l = chars::lowercase(title);
    let h = hyphenated(l);
    let parts = runs_of(title);
    lemma_runs(title, |c: char| true);
    lemma_empty_runs(h);
    if parts.len() > 0 {
        lemma_join_tidy(parts);
    }
    if forall|i: int| 0 <= i < h.len() ==> #[trigger] h[i] == '-' {
        assert forall|i: int| 0 <= i < l.len() implies !chars::alphanumeric(#[trigger] l[i]) by {
            assert(h[i] == '-');
        }
    }
    if forall|i: int| 0 <= i < l.len() ==> !chars::alphanumeric(#[trigger] l[i]) {
        assert forall|i: int| 0 <= i < h.len() implies #[trigger] h[i] == '-' by {
            assert(!chars::alphanumeric(l[i]));
        }
    }
}

/// Sanitizing a file name that is in lower case changes nothing.
pub proof fn law_file_name_is_kept(title: Seq<char>)
    requires
        chars::lowercase(file_name_of(title)) == file_name_of(title),
    ensures
        file_name_of(file_name_of(title)) == file_name_of(title),
{
    let name = file_name_of(title);
    let parts = runs_of(title);
    law_file_name_is_tidy(title);
    lemma_runs(title, |c: char| true);
    assert(hyphenated(name) =~= name);
    if parts.len() > 0 {
        lemma_split_back(parts);
        lemma_filled_same(parts, 0);
        assert(parts.skip(0) =~= parts);
    } else {
        assert(name =~= Seq::<char>::empty());
        lemma_empty_runs(name);
    }
}

/// The file name of a Latin title is in lower case, and sanitizing it again changes
/// nothing.
pub proof fn law_latin_file_names_settle(title: Seq<char>)
    requires
        chars::all_latin(title),
    ensures
        chars::lowercase(file_name_of(title)) == file_name_of(title),
        file_name_of(file_name_of(title)) == file_name_of(title),
{
    let name = file_name_of(title);
    let parts = runs_of(title);
    let p = |c: char| chars::is_latin(c) && chars::latin_lower_char(c) == c;
    assert forall|j: int| 0 <= j < chars::lowercase(title).len() implies p(
        #[trigger] chars::lowercase(title)[j],
    ) by {
        assert(chars::is_latin(title[j]));
        chars::lemma_latin_lower_char(title[j]);
    }
    lemma_runs(title, p);
    assert forall|i: int| 0 <= i < name.len() implies p(#[trigger] name[i]) by {
        lemma_join_all(parts, p, i);
    }
    assert(chars::all_latin(name)) by {
        assert forall|i: int| 0 <= i < name.len() implies chars::is_latin(#[trigger] name[i]) by {
            assert(p(name[i]));
        }
    }
    assert(chars::latin_lower(name) =~= name) by {
        assert forall|i: int| 0 <= i < name.len() implies chars::latin_lower_char(name[i])
            == name[i] by {
            assert(p(name[i]));
        }
    }
    law_file_name_is_kept(title);
}

proof fn lemma_join_all(parts: Seq<Seq<char>>, p: spec_fn(char) -> bool, i: int)
    requires
        0 <= i < text::join(parts, "-"@).len(),
        p('-'),
        forall|k: int, j: int|
            0 <= k < parts.len() && 0 <= j < parts[k].len() ==> p(#[trigger] parts[k][j]),
    ensures
        p(text::join(parts, "-"@)[i]),
    decreases parts.len(),
{
    reveal_strlit("-");
    if parts.len() == 1 {
        assert(p(parts[0][i]));
    } else if parts.len() > 1 {
        let front = parts.drop_last();
        let head = text::join(front, "-"@);
        if i < head.len() {
            assert forall|k: int, j: int| 0 <= k < front.len() && 0 <= j < front[k].len() implies p(
                #[trigger] front[k][j],
            ) by {
                assert(p(parts[k][j]));
            }
            lemma_join_all(front, p, i);
            assert(text::join(parts, "-"@)[i] == head[i]);
        } else if i > head.len() {
            let j = i - head.len() - 1;
            assert(text::join(parts, "-"@)[i] == parts.last()[j]);
            assert(p(parts[parts.len() - 1][j]));
        }
    }
}

/// Assets are mirrored into the build directory and nowhere else, and a source is not.
pub proof fn law_assets_are_mirrored_inside(
    path: Seq<char>,
    root: Seq<char>,
    build_dir: Seq<char>,
)
    requires
        paths::components(root).len() > 0,
    ensures
        mirrored(path, root, build_dir) matches Some(target) ==> paths::is_under(
            target,
            build_dir,
        ) && paths::extension(path) != Some("tex"@),
{
    if paths::is_under(path, root) {
        paths::law_relative_is_relative(path, root);
        paths::law_join_stays_under(build_dir, paths::relative(path, root)->0);
    }
}

} // verus!
