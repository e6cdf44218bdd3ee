//! The keys of a bibliography, and which of them are cited.

use vstd::prelude::*;

use super::checks;
use crate::order;
use crate::text::{self, chars_of, string_of};
use crate::texutil;
use crate::wordset::{self, WordSet};

verus! {

/// The key of an entry line `@type{key, ...}`; comments have none.
pub open spec fn entry_key(line: Seq<char>) -> Option<Seq<char>> {
    let t = text::trim(line);
    if t.len() > 0 && t[0] == '@' && !text::starts_with(t, "@comment"@) {
        match text::find_char(t, '{') {
            Some(a) => {
                let rest = t.skip(a + 1);
                match text::find_char(rest, ',') {
                    Some(b) => if text::trim(rest.take(b)).len() > 0 {
                        Some(text::trim(rest.take(b)))
                    } else {
                        None
                    },
                    None => None,
                }
            },
            None => None,
        }
    } else {
        None
    }
}

/// The keys of the lines from the `k`-th on.
pub open spec fn entry_keys(ls: Seq<Seq<char>>, k: int) -> Seq<Seq<char>>
    decreases ls.len() - k,
{
    if k < 0 || k >= ls.len() {
        Seq::empty()
    } else {
        match entry_key(ls[k]) {
            Some(key) => seq![key] + entry_keys(ls, k + 1),
            None => entry_keys(ls, k + 1),
        }
    }
}

/// The keys of a bibliography, each once.
pub open spec fn bib_keys(content: Seq<char>) -> Seq<Seq<char>> {
    wordset::distinct(entry_keys(text::lines(content), 0))
}

fn read_key(line: &[char]) -> (r: Option<String>)
    ensures
        text::opt_text(r) == entry_key(line@),
{
    let t = text::trimmed(line);
    let n: usize = t.len();
    if n == 0 || t[0] != '@' || text::begins(t, "@comment") {
        return None;
    }
    match text::find_ch(t, '{') {
        Some(a) => {
            let rest = text::from(t, a + 1);
            match text::find_ch(rest, ',') {
                Some(b) => {
                    let key = text::trimmed(text::upto(rest, b));
                    if key.len() > 0 {
                        Some(string_of(key))
                    } else {
                        None
                    }
                },
                None => None,
            }
        },
        None => None,
    }
}

proof fn lemma_push_distinct(done: Seq<Seq<char>>, w: Seq<char>)
    ensures
        wordset::distinct(done.push(w)) == wordset::with_word(wordset::distinct(done), w),
{
    assert(done.push(w).drop_last() =~= done);
}

/// Parse the `@type{key, ...}` entries of a `.bib` file.
pub fn parse_bib_keys(content: &str) -> (r: WordSet)
    ensures
        r.wf(),
        r@ == bib_keys(content@),
{
    let c = chars_of(content);
    let ls = text::lines_of(c.as_slice());
    let ghost all = text::lines(content@);
    let ghost mut done: Seq<Seq<char>> = Seq::empty();
    let mut set = WordSet::new();
    let mut k: usize = 0;
    assert(done + entry_keys(all, 0) =~= entry_keys(all, 0));
    while k < ls.len()
        invariant
            k <= ls@.len(),
            all == text::slices(ls@),
            set.wf(),
            set@ == wordset::distinct(done),
            done + entry_keys(all, k as int) == entry_keys(all, 0),
        decreases ls@.len() - k,
    {
        assert(all[k as int] == ls@[k as int]@);
        if let Some(key) = read_key(ls[k]) {
            proof {
                lemma_push_distinct(done, key@);
                assert(done + (seq![key@] + entry_keys(all, k + 1)) =~= done.push(key@)
                    + entry_keys(all, k + 1));
                done = done.push(key@);
            }
            set.insert(key.as_str());
        }
        k = k + 1;
    }
    assert(done =~= entry_keys(all, 0));
    set
}

/// The arguments from the `k`-th on that are not a single star.
pub open spec fn without_star(args: Seq<Seq<char>>, k: int) -> Seq<Seq<char>>
    decreases args.len() - k,
{
    if k < 0 || k >= args.len() {
        Seq::empty()
    } else if args[k] == "*"@ {
        without_star(args, k + 1)
    } else {
        seq![args[k]] + without_star(args, k + 1)
    }
}

/// The keys that a line cites, by `\cite` or `\nocite`.
pub open spec fn line_cites(line: Seq<char>) -> Seq<Seq<char>> {
    checks::keys_of(texutil::commands_in(line, "cite"@), 0) + checks::keys_of(
        without_star(texutil::commands_in(line, "nocite"@), 0),
        0,
    )
}

/// The keys that the lines from the `k`-th on cite.
pub open spec fn lines_cite(ls: Seq<Seq<char>>, k: int) -> Seq<Seq<char>>
    decreases ls.len() - k,
{
    if k < 0 || k >= ls.len() {
        Seq::empty()
    } else {
        line_cites(texutil::uncommented(ls[k])) + lines_cite(ls, k + 1)
    }
}

/// Whether one of the lines from the `k`-th on cites every key, by `\nocite{*}`.
pub open spec fn lines_cite_all(ls: Seq<Seq<char>>, k: int) -> bool
    decreases ls.len() - k,
{
    if k < 0 || k >= ls.len() {
        false
    } else {
        texutil::commands_in(texutil::uncommented(ls[k]), "nocite"@).contains("*"@)
            || lines_cite_all(ls, k + 1)
    }
}

/// The keys that the files from the `k`-th on cite.
pub open spec fn files_cite(files: Seq<(Seq<char>, Seq<char>)>, k: int) -> Seq<Seq<char>>
    decreases files.len() - k,
{
    if k < 0 || k >= files.len() {
        Seq::empty()
    } else {
        lines_cite(text::lines(files[k].1), 0) + files_cite(files, k + 1)
    }
}

/// Whether one of the files from the `k`-th on cites every key.
pub open spec fn files_cite_all(files: Seq<(Seq<char>, Seq<char>)>, k: int) -> bool
    decreases files.len() - k,
{
    if k < 0 || k >= files.len() {
        false
    } else {
        lines_cite_all(text::lines(files[k].1), 0) || files_cite_all(files, k + 1)
    }
}

fn insert_slices(set: &mut WordSet, keys: &Vec<&[char]>, Ghost(done): Ghost<Seq<Seq<char>>>)
    requires
        old(set).wf(),
        old(set)@ == wordset::distinct(done),
    ensures
        final(set).wf(),
        final(set)@ == wordset::distinct(done + text::slices(keys@)),
{
    let ghost all = text::slices(keys@);
    let mut k: usize = 0;
    assert(done + all.take(0) =~= done);
    while k < keys.len()
        invariant
            k <= keys@.len(),
            all == text::slices(keys@),
            set.wf(),
            set@ == wordset::distinct(done + all.take(k as int)),
        decreases keys@.len() - k,
    {
        let key = string_of(keys[k]);
        proof {
            lemma_push_distinct(done + all.take(k as int), key@);
            assert(done + all.take(k + 1) =~= (done + all.take(k as int)).push(key@));
        }
        set.insert(key.as_str());
        k = k + 1;
    }
    assert(all.take(k as int) =~= all);
}

fn drop_stars<'a>(args: &Vec<&'a [char]>) -> (r: (Vec<&'a [char]>, bool))
    ensures
        text::slices(r.0@) == without_star(text::slices(args@), 0),
        r.1 == text::slices(args@).contains("*"@),
{
    broadcast use text::lemma_slices_push;

    let ghost all = text::slices(args@);
    let mut out: Vec<&'a [char]> = Vec::new();
    let mut star = false;
    let mut k: usize = 0;
    assert(text::slices(out@) + without_star(all, 0) =~= without_star(all, 0));
    while k < args.len()
        invariant
            k <= args@.len(),
            all == text::slices(args@),
            text::slices(out@) + without_star(all, k as int) == without_star(all, 0),
            star ==> all.contains("*"@),
            !star ==> forall|j: int| 0 <= j < k ==> all[j] != "*"@,
        decreases args@.len() - k,
    {
        assert(all[k as int] == args@[k as int]@);
        let ghost done = text::slices(out@);
        if text::is_lit(args[k], "*") {
            star = true;
        } else {
            assert(done + (seq![all[k as int]] + without_star(all, k + 1)) =~= done.push(
                all[k as int],
            ) + without_star(all, k + 1));
            out.push(args[k]);
        }
        k = k + 1;
    }
    assert(text::slices(out@) + Seq::<Seq<char>>::empty() =~= text::slices(out@));
    (out, star)
}

fn collect_line(set: &mut WordSet, line: &[char], Ghost(done): Ghost<Seq<Seq<char>>>) -> (star: bool)
    requires
        old(set).wf(),
        old(set)@ == wordset::distinct(done),
    ensures
        final(set).wf(),
        final(set)@ == wordset::distinct(done + line_cites(line@)),
        star == texutil::commands_in(line@, "nocite"@).contains("*"@),
{
    let cites = texutil::command_arguments(line, "cite");
    let keys = checks::all_keys(&cites);
    insert_slices(set, &keys, Ghost(done));
    let nocites = texutil::command_arguments(line, "nocite");
    let (named, star) = drop_stars(&nocites);
    let more = checks::all_keys(&named);
    let ghost mid = done + text::slices(keys@);
    insert_slices(set, &more, Ghost(mid));
    assert(mid + text::slices(more@) =~= done + line_cites(line@));
    star
}

fn collect_file(
    set: &mut WordSet,
    content: &str,
    Ghost(done): Ghost<Seq<Seq<char>>>,
) -> (star: bool)
    requires
        old(set).wf(),
        old(set)@ == wordset::distinct(done),
    ensures
        final(set).wf(),
        final(set)@ == wordset::distinct(done + lines_cite(text::lines(content@), 0)),
        star == lines_cite_all(text::lines(content@), 0),
{
    let c = chars_of(content);
    let ls = text::lines_of(c.as_slice());
    let ghost all = text::lines(content@);
    let ghost mut so_far = done;
    let mut star = false;
    let mut k: usize = 0;
    while k < ls.len()
        invariant
            k <= ls@.len(),
            all == text::slices(ls@),
            set.wf(),
            set@ == wordset::distinct(so_far),
            so_far + lines_cite(all, k as int) == done + lines_cite(all, 0),
            lines_cite_all(all, 0) == (star || lines_cite_all(all, k as int)),
        decreases ls@.len() - k,
    {
        assert(all[k as int] == ls@[k as int]@);
        let line = texutil::without_comment(ls[k]);
        let here = collect_line(set, line, Ghost(so_far));
        proof {
            let cites = line_cites(line@);
            assert(so_far + (cites + lines_cite(all, k + 1)) =~= (so_far + cites) + lines_cite(
                all,
                k + 1,
            ));
            so_far = so_far + cites;
        }
        star = star || here;
        k = k + 1;
    }
    assert(so_far + Seq::<Seq<char>>::empty() =~= so_far);
    star
}

/// The keys that the files cite, and whether `\nocite{*}` cites every key.
pub fn collect_cited_keys(files: &Vec<(String, String)>) -> (r: (WordSet, bool))
    ensures
        r.0.wf(),
        r.0@ == wordset::distinct(files_cite(super::spell::files_view(files@), 0)),
        r.1 == files_cite_all(super::spell::files_view(files@), 0),
{
    let ghost all = super::spell::files_view(files@);
    let ghost mut so_far: Seq<Seq<char>> = Seq::empty();
    let mut set = WordSet::new();
    let mut star = false;
    let mut k: usize = 0;
    assert(so_far + files_cite(all, 0) =~= files_cite(all, 0));
    while k < files.len()
        invariant
            k <= files@.len(),
            all == super::spell::files_view(files@),
            set.wf(),
            set@ == wordset::distinct(so_far),
            so_far + files_cite(all, k as int) == files_cite(all, 0),
            files_cite_all(all, 0) == (star || files_cite_all(all, k as int)),
        decreases files@.len() - k,
    {
        assert(all[k as int] == (files@[k as int].0@, files@[k as int].1@));
        let here = collect_file(&mut set, files[k].1.as_str(), Ghost(so_far));
        proof {
            let cites = lines_cite(text::lines(all[k as int].1), 0);
            assert(so_far + (cites + files_cite(all, k + 1)) =~= (so_far + cites) + files_cite(
                all,
                k + 1,
            ));
            so_far = so_far + cites;
        }
        star = star || here;
        k = k + 1;
    }
    assert(so_far =~= files_cite(all, 0));
    (set, star)
}

/// The keys from the `k`-th on that are not cited.
pub open spec fn uncited(keys: Seq<Seq<char>>, cited: Seq<Seq<char>>, k: int) -> Seq<Seq<char>>
    decreases keys.len() - k,
{
    if k < 0 || k >= keys.len() {
        Seq::empty()
    } else if cited.contains(keys[k]) {
        uncited(keys, cited, k + 1)
    } else {
        seq![keys[k]] + uncited(keys, cited, k + 1)
    }
}

/// The keys of a bibliography that are never cited, in order.
pub open spec fn unused_keys(
    keys: Seq<Seq<char>>,
    files: Seq<(Seq<char>, Seq<char>)>,
) -> Seq<Seq<char>> {
    if files_cite_all(files, 0) {
        Seq::empty()
    } else {
        order::sorted(uncited(keys, wordset::distinct(files_cite(files, 0)), 0))
    }
}

/// The keys of a bibliography that are never cited, in order.
pub fn unused(keys: &WordSet, files: &Vec<(String, String)>) -> (r: Vec<String>)
    requires
        keys.wf(),
    ensures
        text::texts(r@) == unused_keys(keys@, super::spell::files_view(files@)),
{
    broadcast use text::lemma_texts_push;

    let (cited, star) = collect_cited_keys(files);
    let mut out: Vec<String> = Vec::new();
    if star {
        assert(text::texts(out@) =~= Seq::<Seq<char>>::empty());
        return out;
    }
    let ghost all = keys@;
    let mut k: usize = 0;
    assert(text::texts(out@) + uncited(all, cited@, 0) =~= uncited(all, cited@, 0));
    while k < keys.len()
        invariant
            k <= all.len(),
            keys.wf(),
            cited.wf(),
            all == keys@,
            text::texts(out@) + uncited(all, cited@, k as int) == uncited(all, cited@, 0),
        decreases all.len() - k,
    {
        let ghost done = text::texts(out@);
        let key = keys.word(k);
        if !cited.contains(key.as_str()) {
            assert(done + (seq![key@] + uncited(all, cited@, k + 1)) =~= done.push(key@) + uncited(
                all,
                cited@,
                k + 1,
            ));
            out.push(key);
        }
        k = k + 1;
    }
    assert(text::texts(out@) =~= uncited(all, cited@, 0));
    order::sort(&out)
}

/// The labels that the lines from the `k`-th on define.
pub open spec fn lines_label(ls: Seq<Seq<char>>, k: int) -> Seq<Seq<char>>
    decreases ls.len() - k,
{
    if k < 0 || k >= ls.len() {
        Seq::empty()
    } else {
        texutil::commands_in(texutil::uncommented(ls[k]), "label"@) + lines_label(ls, k + 1)
    }
}

/// The labels that the files from the `k`-th on define.
pub open spec fn files_label(files: Seq<(Seq<char>, Seq<char>)>, k: int) -> Seq<Seq<char>>
    decreases files.len() - k,
{
    if k < 0 || k >= files.len() {
        Seq::empty()
    } else {
        lines_label(text::lines(files[k].1), 0) + files_label(files, k + 1)
    }
}

/// The labels that the files define, each once.
pub fn collect_labels(files: &Vec<(String, String)>) -> (r: WordSet)
    ensures
        r.wf(),
        r@ == wordset::distinct(files_label(super::spell::files_view(files@), 0)),
{
    let ghost all = super::spell::files_view(files@);
    let ghost mut so_far: Seq<Seq<char>> = Seq::empty();
    let mut set = WordSet::new();
    let mut k: usize = 0;
    assert(so_far + files_label(all, 0) =~= files_label(all, 0));
    while k < files.len()
        invariant
            k <= files@.len(),
            all == super::spell::files_view(files@),
            set.wf(),
            set@ == wordset::distinct(so_far),
            so_far + files_label(all, k as int) == files_label(all, 0),
        decreases files@.len() - k,
    {
        assert(all[k as int] == (files@[k as int].0@, files@[k as int].1@));
        let c = chars_of(files[k].1.as_str());
        let ls = text::lines_of(c.as_slice());
        let ghost lines = text::lines(all[k as int].1);
        let ghost start = so_far;
        let mut i: usize = 0;
        while i < ls.len()
            invariant
                i <= ls@.len(),
                lines == text::slices(ls@),
                set.wf(),
                set@ == wordset::distinct(so_far),
                so_far + lines_label(lines, i as int) == start + lines_label(lines, 0),
            decreases ls@.len() - i,
        {
            assert(lines[i as int] == ls@[i as int]@);
            let found = texutil::command_arguments(texutil::without_comment(ls[i]), "label");
            insert_slices(&mut set, &found, Ghost(so_far));
            proof {
                let here = text::slices(found@);
                assert(so_far + (here + lines_label(lines, i + 1)) =~= (so_far + here)
                    + lines_label(lines, i + 1));
                so_far = so_far + here;
            }
            i = i + 1;
        }
        proof {
            let here = lines_label(lines, 0);
            assert(so_far + Seq::<Seq<char>>::empty() =~= so_far);
            assert(start + (here + files_label(all, k + 1)) =~= (start + here) + files_label(
                all,
                k + 1,
            ));
        }
        k = k + 1;
    }
    assert(so_far =~= files_label(all, 0));
    set
}

// ---------------------------------------------------------------------------
// Laws
// ---------------------------------------------------------------------------

proof fn lemma_uncited(keys: Seq<Seq<char>>, cited: Seq<Seq<char>>, k: int, w: Seq<char>)
    requires
        0 <= k,
    ensures
        uncited(keys, cited, k).contains(w) <==> !cited.contains(w) && exists|i: int|
            k <= i < keys.len() && #[trigger] keys[i] == w,
    decreases keys.len() - k,
{
    if k < keys.len() {
        lemma_uncited(keys, cited, k + 1, w);
        let rest = uncited(keys, cited, k + 1);
        let all = uncited(keys, cited, k);
        if !cited.contains(keys[k]) {
            if all.contains(w) {
                let j = choose|j: int| 0 <= j < all.len() && all[j] == w;
                if j == 0 {
                    assert(keys[k] == w);
                } else {
                    assert(rest[j - 1] == w);
                }
            }
            if keys[k] == w {
                assert(all[0] == w);
            } else if rest.contains(w) {
                let j = choose|j: int| 0 <= j < rest.len() && rest[j] == w;
                assert(all[j + 1] == w);
            }
        }
    }
}

/// A key of a bibliography is reported as unused exactly if no file cites it, and no file
/// cites all keys at once.
pub proof fn law_unused_keys(
    keys: Seq<Seq<char>>,
    files: Seq<(Seq<char>, Seq<char>)>,
    w: Seq<char>,
)
    ensures
        unused_keys(keys, files).contains(w) <==> keys.contains(w) && !files_cite(
            files,
            0,
        ).contains(w) && !files_cite_all(files, 0),
{
    let cited = wordset::distinct(files_cite(files, 0));
    let open = uncited(keys, cited, 0);
    wordset::lemma_distinct(files_cite(files, 0));
    lemma_uncited(keys, cited, 0, w);
    order::law_sorted(open);
    broadcast use vstd::seq_lib::group_to_multiset_ensures;

    assert(order::sorted(open).contains(w) <==> order::sorted(open).to_multiset().count(w) > 0);
    assert(open.contains(w) <==> open.to_multiset().count(w) > 0);
    if keys.contains(w) {
        let i = choose|i: int| 0 <= i < keys.len() && keys[i] == w;
        assert(keys[i] == w);
    }
}

} // verus!
