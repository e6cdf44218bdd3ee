//! The `spell` command: the personal dictionary and the whitelist of a project.
//!
//! There are two scopes: the personal dictionary, shared by every project, is the default,
//! since a word that the user accepts is mostly true of the user and not of one document;
//! the whitelist of the project is asked for. Adding appends and rewrites nothing;
//! removing drops the matching lines only.

use vstd::prelude::*;

use crate::chars;
use crate::linter::spell;
use crate::number;
use crate::order;
use crate::paths;
use crate::text::{self, chars_of, string_of};
use crate::wordset::{self, WordSet};

verus! {

broadcast use text::lemma_texts_push;

/// Which whitelist an action targets.
#[derive(Debug, Clone, Copy, PartialEq, Eq, Structural)]
pub enum Scope {
    Global,
    Local,
}

impl Scope {
    /// The scope of flags that exclude each other: global where neither is set.
    pub fn from_flags(local: bool, global: bool) -> (r: Scope)
        requires
            !(local && global),
        ensures
            r == if local {
                Scope::Local
            } else {
                Scope::Global
            },
    {
        if local {
            Scope::Local
        } else {
            Scope::Global
        }
    }
}

/// An action of the `spell` command.
#[derive(Debug, Clone)]
pub enum SpellAction {
    /// Add one or more words to the whitelist.
    Add { words: Vec<String>, scope: Scope },
    /// List the effective whitelist words for the scope.
    List { scope: Scope },
    /// Remove one or more words from the whitelist.
    Remove { words: Vec<String>, scope: Scope },
}

/// The message where the home directory is not known.
pub const NO_HOME: &'static str =
    "Could not determine home directory for the global personal dictionary";

/// The message where there is no project.
pub const NO_PROJECT: &'static str =
    "`--local` requires a texforge project (project.toml not found in this directory or any parent)";

/// The whitelist of a project: the first of its files, from the `k`-th on, that exists,
/// else the last one.
pub open spec fn project_target(root: Seq<char>, exists: Seq<bool>, k: int) -> Seq<char>
    decreases spell::whitelist_names().len() - k,
{
    if 0 <= k < spell::whitelist_names().len() {
        if k < exists.len() && exists[k] {
            paths::joined(root, spell::whitelist_names()[k])
        } else {
            project_target(root, exists, k + 1)
        }
    } else {
        paths::joined(paths::joined(root, ".texforge"@), "spell-words"@)
    }
}

/// The file that an action targets, given the home directory, the root of the project,
/// and which of its whitelist files exist. Outside a project, the local scope is an error
/// and no silent fallback to the global one.
pub fn target_file(
    scope: Scope,
    home: Option<&str>,
    root: Option<&str>,
    exists: &Vec<bool>,
) -> (r: Result<String, String>)
    ensures
        match (scope, r) {
            (Scope::Global, Ok(p)) => home matches Some(h) && p@ == spell::home_path(
                h@,
                "spell-words"@,
            ),
            (Scope::Global, Err(m)) => home is None && m@ == NO_HOME@,
            (Scope::Local, Ok(p)) => root matches Some(d) && p@ == project_target(
                d@,
                exists@,
                0,
            ),
            (Scope::Local, Err(m)) => root is None && m@ == NO_PROJECT@,
        },
{
    match scope {
        Scope::Global => match spell::global_whitelist_path(home) {
            Some(p) => Ok(p),
            None => Err(text::lit(NO_HOME)),
        },
        Scope::Local => match root {
            Some(d) => Ok(local_target(d, exists)),
            None => Err(text::lit(NO_PROJECT)),
        },
    }
}

fn local_target(root: &str, exists: &Vec<bool>) -> (r: String)
    ensures
        r@ == project_target(root@, exists@, 0),
{
    let names = spell::project_whitelist_files();
    let ghost all = spell::whitelist_names();
    let mut k: usize = 0;
    while k < names.len()
        invariant
            k <= names@.len(),
            all == text::texts(names@),
            all == spell::whitelist_names(),
            project_target(root@, exists@, 0) == project_target(root@, exists@, k as int),
        decreases names@.len() - k,
    {
        assert(all[k as int] == names@[k as int]@);
        if k < exists.len() && exists[k] {
            return paths::join(root, names[k].as_str());
        }
        k = k + 1;
    }
    paths::join(paths::join(root, ".texforge").as_str(), "spell-words")
}

// ---------------------------------------------------------------------------
// Adding
// ---------------------------------------------------------------------------

/// Words on their way into a whitelist: the words known by now, the words to append, and
/// those that were there.
#[verifier::ext_equal]
pub struct AddView {
    pub known: Seq<Seq<char>>,
    pub added: Seq<Seq<char>>,
    pub present: Seq<Seq<char>>,
}

/// The first `k` words on their way into a whitelist with known words. A word that is
/// known, in whatever case, is not appended.
pub open spec fn adding(words: Seq<Seq<char>>, known: Seq<Seq<char>>, k: int) -> AddView
    decreases k,
{
    if k <= 0 || k > words.len() {
        AddView { known, added: Seq::empty(), present: Seq::empty() }
    } else {
        let a = adding(words, known, k - 1);
        let w = words[k - 1];
        if a.known.contains(chars::lowercase(w)) {
            AddView { present: a.present.push(w), ..a }
        } else {
            AddView {
                known: wordset::with_word(a.known, chars::lowercase(w)),
                added: a.added.push(w),
                ..a
            }
        }
    }
}

/// Words, each on a line of its own.
pub open spec fn block(words: Seq<Seq<char>>) -> Seq<char>
    decreases words.len(),
{
    if words.len() == 0 {
        Seq::empty()
    } else {
        block(words.drop_last()) + words.last() + "\n"@
    }
}

/// What is appended to a whitelist: the words, on lines of their own.
pub open spec fn appended(existing: Seq<char>, words: Seq<Seq<char>>) -> Seq<char> {
    if words.len() == 0 {
        Seq::empty()
    } else if existing.len() > 0 && existing.last() != '\n' {
        "\n"@ + block(words)
    } else {
        block(words)
    }
}

/// The words that are added to a whitelist.
pub open spec fn additions(existing: Seq<char>, words: Seq<Seq<char>>) -> AddView {
    adding(words, spell::whitelist_words(existing), words.len() as int)
}

/// A whitelist after words have been added.
pub open spec fn after_add(existing: Seq<char>, words: Seq<Seq<char>>) -> Seq<char> {
    existing + appended(existing, additions(existing, words).added)
}

/// What adding words to a whitelist does: what is reported first, what is appended, and
/// what is reported then.
#[derive(Debug)]
pub struct AddPlan {
    pub notices: Vec<String>,
    pub append: String,
    pub confirmations: Vec<String>,
}

/// A line of the report on a word and a file.
pub open spec fn report_line(
    before: Seq<char>,
    word: Seq<char>,
    between: Seq<char>,
    path: Seq<char>,
) -> Seq<char> {
    "  ◇ "@ + before + "'"@ + word + "'"@ + between + path
}

/// The lines of the report on words and a file.
pub open spec fn report_lines(
    before: Seq<char>,
    words: Seq<Seq<char>>,
    between: Seq<char>,
    path: Seq<char>,
) -> Seq<Seq<char>> {
    Seq::new(words.len(), |k: int| report_line(before, words[k], between, path))
}

fn report(before: &str, word: &str, between: &str, path: &str) -> (r: String)
    ensures
        r@ == report_line(before@, word@, between@, path@),
{
    let mut out = text::cat5("  ◇ ", before, "'", word, "'");
    text::push(&mut out, between);
    text::push(&mut out, path);
    out
}

fn report_all(before: &str, words: &Vec<String>, between: &str, path: &str) -> (r: Vec<String>)
    ensures
        text::texts(r@) == report_lines(before@, text::texts(words@), between@, path@),
{
    let ghost all = report_lines(before@, text::texts(words@), between@, path@);
    let mut out: Vec<String> = Vec::new();
    let mut k: usize = 0;
    assert(text::texts(out@) =~= all.take(0));
    while k < words.len()
        invariant
            k <= words@.len(),
            all == report_lines(before@, text::texts(words@), between@, path@),
            text::texts(out@) == all.take(k as int),
        decreases words@.len() - k,
    {
        assert(text::texts(words@)[k as int] == words@[k as int]@);
        out.push(report(before, words[k].as_str(), between, path));
        assert(all.take(k + 1) =~= all.take(k as int).push(all[k as int]));
        k = k + 1;
    }
    assert(all.take(k as int) =~= all);
    out
}

fn block_of(words: &Vec<String>) -> (r: String)
    ensures
        r@ == block(text::texts(words@)),
{
    let ghost all = text::texts(words@);
    let mut out = String::new();
    let mut k: usize = 0;
    assert(all.take(0) =~= Seq::<Seq<char>>::empty());
    while k < words.len()
        invariant
            k <= words@.len(),
            all == text::texts(words@),
            out@ == block(all.take(k as int)),
        decreases words@.len() - k,
    {
        assert(all.take(k + 1).drop_last() =~= all.take(k as int));
        assert(all.take(k + 1).last() == words@[k as int]@);
        text::push(&mut out, words[k].as_str());
        text::push(&mut out, "\n");
        k = k + 1;
    }
    assert(all.take(k as int) =~= all);
    out
}

/// Plan to add words to a whitelist, given its text (empty where there is none yet). It
/// is an error to add no word.
pub fn add(words: &Vec<String>, existing: &str, path: &str) -> (r: Result<AddPlan, String>)
    ensures
        match r {
            Ok(p) => {
                let a = additions(existing@, text::texts(words@));
                &&& words@.len() > 0
                &&& text::texts(p.notices@) == report_lines(
                    ""@,
                    a.present,
                    " already present in "@,
                    path@,
                )
                &&& existing@ + p.append@ == after_add(existing@, text::texts(words@))
                &&& text::texts(p.confirmations@) == report_lines(
                    "Added "@,
                    a.added,
                    " to "@,
                    path@,
                )
            },
            Err(m) => words@.len() == 0 && m@
                == "No words given; usage: texforge spell add <WORD>..."@,
        },
{
    if words.len() == 0 {
        return Err(text::lit("No words given; usage: texforge spell add <WORD>..."));
    }
    let ghost all = text::texts(words@);
    let mut known = spell::parse_whitelist_words(existing);
    let ghost start = known@;
    let mut added: Vec<String> = Vec::new();
    let mut present: Vec<String> = Vec::new();
    let mut k: usize = 0;
    assert(text::texts(added@) =~= Seq::<Seq<char>>::empty());
    assert(text::texts(present@) =~= Seq::<Seq<char>>::empty());
    while k < words.len()
        invariant
            k <= words@.len(),
            all == text::texts(words@),
            known.wf(),
            adding(all, start, k as int) == (AddView {
                known: known@,
                added: text::texts(added@),
                present: text::texts(present@),
            }),
        decreases words@.len() - k,
    {
        let w = words[k].as_str();
        assert(all[k as int] == w@);
        let lower = chars::to_lowercase(w);
        if known.contains(lower.as_str()) {
            present.push(text::lit(w));
        } else {
            known.insert(lower.as_str());
            added.push(text::lit(w));
        }
        assert(adding(all, start, k + 1) =~= (AddView {
            known: known@,
            added: text::texts(added@),
            present: text::texts(present@),
        }));
        k = k + 1;
    }
    let e = chars_of(existing);
    let n: usize = e.len();
    let mut append = String::new();
    if added.len() > 0 {
        if n > 0 && e[n - 1] != '\n' {
            text::push(&mut append, "\n");
        }
        text::push(&mut append, block_of(&added).as_str());
    }
    assert(append@ =~= appended(existing@, text::texts(added@)));
    Ok(
        AddPlan {
            notices: report_all("", &present, " already present in ", path),
            append,
            confirmations: report_all("Added ", &added, " to ", path),
        },
    )
}

// ---------------------------------------------------------------------------
// Removing
// ---------------------------------------------------------------------------

/// Words in lower case.
pub open spec fn lowered(words: Seq<Seq<char>>) -> Seq<Seq<char>> {
    Seq::new(words.len(), |k: int| chars::lowercase(words[k]))
}

/// Whether a line of a whitelist holds one of the words.
pub open spec fn is_hit(line: Seq<char>, targets: Seq<Seq<char>>) -> bool {
    let t = text::trim(line);
    t.len() > 0 && t[0] != '#' && targets.contains(chars::lowercase(t))
}

/// The lines, from the `k`-th on, that hold none of the words.
pub open spec fn kept(ls: Seq<Seq<char>>, targets: Seq<Seq<char>>, k: int) -> Seq<Seq<char>>
    decreases ls.len() - k,
{
    if k < 0 || k >= ls.len() {
        Seq::empty()
    } else if is_hit(ls[k], targets) {
        kept(ls, targets, k + 1)
    } else {
        seq![ls[k]] + kept(ls, targets, k + 1)
    }
}

/// Whether one of the lines holds a word.
pub open spec fn is_listed(ls: Seq<Seq<char>>, lower: Seq<char>) -> bool {
    exists|k: int| 0 <= k < ls.len() && is_hit(#[trigger] ls[k], seq![lower])
}

/// A whitelist after words have been removed: the other lines, and the last line ending
/// where there was one. Without a matching line nothing changes.
pub open spec fn after_remove(content: Seq<char>, words: Seq<Seq<char>>) -> Seq<char> {
    let ls = text::lines(content);
    let rest = kept(ls, lowered(words), 0);
    let joined = text::join(rest, "\n"@);
    if rest.len() == ls.len() {
        content
    } else if content.len() > 0 && content.last() == '\n' && joined.len() > 0 {
        joined + "\n"@
    } else {
        joined
    }
}

/// What removing words from a whitelist does: what is reported, and the new text where it
/// changes.
#[derive(Debug)]
pub struct RemovePlan {
    pub notices: Vec<String>,
    pub content: Option<String>,
}

/// What is reported on a word to remove.
pub open spec fn remove_line(ls: Seq<Seq<char>>, word: Seq<char>, path: Seq<char>) -> Seq<char> {
    if is_listed(ls, chars::lowercase(word)) {
        report_line("Removed "@, word, " from "@, path)
    } else {
        report_line(""@, word, " was not in "@, path)
    }
}

fn hits(line: &[char], targets: &WordSet) -> (r: bool)
    requires
        targets.wf(),
    ensures
        r == is_hit(line@, targets@),
{
    let t = text::trimmed(line);
    if t.len() == 0 || t[0] == '#' {
        return false;
    }
    let lower = chars::to_lowercase(string_of(t).as_str());
    targets.contains(lower.as_str())
}

fn lists(ls: &Vec<&[char]>, lower: &str) -> (r: bool)
    ensures
        r == is_listed(text::slices(ls@), lower@),
{
    let ghost all = text::slices(ls@);
    let mut one = WordSet::new();
    one.insert(lower);
    assert(one@ =~= seq![lower@]);
    let mut k: usize = 0;
    while k < ls.len()
        invariant
            k <= ls@.len(),
            one.wf(),
            one@ == seq![lower@],
            all == text::slices(ls@),
            forall|j: int| 0 <= j < k ==> !is_hit(#[trigger] all[j], seq![lower@]),
        decreases ls@.len() - k,
    {
        assert(all[k as int] == ls@[k as int]@);
        if hits(ls[k], &one) {
            assert(is_hit(all[k as int], seq![lower@]));
            return true;
        }
        k = k + 1;
    }
    false
}

proof fn lemma_lowered_distinct(words: Seq<Seq<char>>, line: Seq<char>)
    ensures
        is_hit(line, wordset::distinct(lowered(words))) == is_hit(line, lowered(words)),
{
    wordset::lemma_distinct(lowered(words));
}

/// Plan to remove words from a whitelist, given its text where it can be read. It is an
/// error to remove no word.
pub fn remove(words: &Vec<String>, content: Option<&str>, path: &str) -> (r: Result<
    RemovePlan,
    String,
>)
    ensures
        match (r, content) {
            (Ok(p), Some(c)) => {
                let ls = text::lines(c@);
                &&& words@.len() > 0
                &&& text::texts(p.notices@) == Seq::new(
                    words@.len(),
                    |k: int| remove_line(ls, words@[k]@, path@),
                )
                &&& match p.content {
                    Some(t) => t@ == after_remove(c@, text::texts(words@)) && kept(
                        ls,
                        lowered(text::texts(words@)),
                        0,
                    ).len() != ls.len(),
                    None => after_remove(c@, text::texts(words@)) == c@ && kept(
                        ls,
                        lowered(text::texts(words@)),
                        0,
                    ).len() == ls.len(),
                }
            },
            (Ok(p), None) => {
                &&& words@.len() > 0
                &&& p.content is None
                &&& text::texts(p.notices@) == report_lines(
                    ""@,
                    text::texts(words@),
                    " was not in "@,
                    path@ + " ("@ + path@ + " does not exist)"@,
                )
            },
            (Err(m), _) => words@.len() == 0 && m@
                == "No words given; usage: texforge spell remove <WORD>..."@,
        },
{
    if words.len() == 0 {
        return Err(text::lit("No words given; usage: texforge spell remove <WORD>..."));
    }
    match content {
        Some(c) => Ok(remove_from(words, c, path)),
        None => {
            let missing = text::cat4(path, " (", path, " does not exist)");
            Ok(
                RemovePlan {
                    notices: report_all("", words, " was not in ", missing.as_str()),
                    content: None,
                },
            )
        },
    }
}

fn targets_of(words: &Vec<String>) -> (r: WordSet)
    ensures
        r.wf(),
        r@ == wordset::distinct(lowered(text::texts(words@))),
{
    let ghost all = lowered(text::texts(words@));
    let mut set = WordSet::new();
    let mut k: usize = 0;
    assert(all.take(0) =~= Seq::<Seq<char>>::empty());
    while k < words.len()
        invariant
            k <= words@.len(),
            set.wf(),
            all == lowered(text::texts(words@)),
            set@ == wordset::distinct(all.take(k as int)),
        decreases words@.len() - k,
    {
        assert(all.take(k + 1).drop_last() =~= all.take(k as int));
        assert(all.take(k + 1).last() == chars::lowercase(words@[k as int]@));
        let lower = chars::to_lowercase(words[k].as_str());
        set.insert(lower.as_str());
        k = k + 1;
    }
    assert(all.take(k as int) =~= all);
    set
}

fn remove_from(words: &Vec<String>, content: &str, path: &str) -> (p: RemovePlan)
    ensures
        ({
            let ls = text::lines(content@);
            let rest = kept(ls, lowered(text::texts(words@)), 0);
            &&& text::texts(p.notices@) == Seq::new(
                words@.len(),
                |k: int| remove_line(ls, words@[k]@, path@),
            )
            &&& match p.content {
                Some(t) => t@ == after_remove(content@, text::texts(words@)) && rest.len()
                    != ls.len(),
                None => after_remove(content@, text::texts(words@)) == content@ && rest.len()
                    == ls.len(),
            }
        }),
{
    let c = chars_of(content);
    let ls = text::lines_of(c.as_slice());
    let ghost all = text::slices(ls@);
    let ghost targets = lowered(text::texts(words@));
    let set = targets_of(words);
    let mut rest: Vec<&[char]> = Vec::new();
    let mut k: usize = 0;
    assert(text::slices(rest@) + kept(all, targets, 0) =~= kept(all, targets, 0));
    while k < ls.len()
        invariant
            k <= ls@.len(),
            all == text::slices(ls@),
            targets == lowered(text::texts(words@)),
            set.wf(),
            set@ == wordset::distinct(targets),
            text::slices(rest@) + kept(all, targets, k as int) == kept(all, targets, 0),
        decreases ls@.len() - k,
    {
        assert(all[k as int] == ls@[k as int]@);
        proof {
            lemma_lowered_distinct(text::texts(words@), all[k as int]);
        }
        if !hits(ls[k], &set) {
            let ghost done = text::slices(rest@);
            rest.push(ls[k]);
            assert(text::slices(rest@) =~= done.push(all[k as int]));
            assert(done + (seq![all[k as int]] + kept(all, targets, k + 1)) =~= text::slices(rest@)
                + kept(all, targets, k + 1));
        }
        k = k + 1;
    }
    assert(text::slices(rest@) + kept(all, targets, k as int) =~= text::slices(rest@));
    let ghost lines_said = Seq::new(words@.len(), |k: int| remove_line(all, words@[k]@, path@));
    let mut notices: Vec<String> = Vec::new();
    let mut i: usize = 0;
    assert(text::texts(notices@) =~= lines_said.take(0));
    while i < words.len()
        invariant
            i <= words@.len(),
            all == text::slices(ls@),
            lines_said == Seq::new(words@.len(), |k: int| remove_line(all, words@[k]@, path@)),
            text::texts(notices@) == lines_said.take(i as int),
        decreases words@.len() - i,
    {
        let w = words[i].as_str();
        let lower = chars::to_lowercase(w);
        if lists(&ls, lower.as_str()) {
            notices.push(report("Removed ", w, " from ", path));
        } else {
            notices.push(report("", w, " was not in ", path));
        }
        assert(lines_said.take(i + 1) =~= lines_said.take(i as int).push(lines_said[i as int]));
        i = i + 1;
    }
    assert(lines_said.take(i as int) =~= lines_said);
    if rest.len() == ls.len() {
        return RemovePlan { notices, content: None };
    }
    let mut new_content = text::joined_slices(&rest, "\n");
    let n: usize = c.len();
    let filled = !new_content.as_str().is_empty();
    if n > 0 && c[n - 1] == '\n' && filled {
        text::push(&mut new_content, "\n");
    }
    RemovePlan { notices, content: Some(new_content) }
}

// ---------------------------------------------------------------------------
// Listing
// ---------------------------------------------------------------------------

/// The words of a list, each on an indented line.
pub open spec fn word_lines(words: Seq<Seq<char>>, k: int) -> Seq<char>
    decreases k,
{
    if k <= 0 || k > words.len() {
        Seq::empty()
    } else {
        word_lines(words, k - 1) + "  "@ + words[k - 1] + "\n"@
    }
}

/// The list of a whitelist file: its words, sorted, each once.
pub open spec fn listing(path: Seq<char>, content: Option<Seq<char>>) -> Seq<char> {
    match content {
        Some(c) => {
            let words = order::sorted(spell::whitelist_words(c));
            path + " ("@ + number::decimal(words.len()) + " word(s)):\n"@ + word_lines(
                words,
                words.len() as int,
            )
        },
        None => path + " (not found)\n"@,
    }
}

/// The list of a whitelist file, given its text where it can be read.
pub fn list_whitelist_file(path: &str, content: Option<&str>) -> (r: String)
    ensures
        r@ == listing(path@, text::opt_str(content)),
{
    let c = match content {
        Some(c) => c,
        None => {
            return text::cat2(path, " (not found)\n");
        },
    };
    let set = spell::parse_whitelist_words(c);
    let n: usize = set.len();
    let ghost words = set@;
    let mut list: Vec<String> = Vec::new();
    let mut i: usize = 0;
    assert(text::texts(list@) =~= words.take(0));
    while i < n
        invariant
            i <= n == words.len(),
            set.wf(),
            words == set@,
            text::texts(list@) == words.take(i as int),
        decreases n - i,
    {
        list.push(set.word(i));
        assert(words.take(i + 1) =~= words.take(i as int).push(words[i as int]));
        i = i + 1;
    }
    assert(words.take(n as int) =~= words);
    let sorted = order::sort(&list);
    let ghost all = text::texts(sorted@);
    let head = text::cat4(path, " (", number::show_size(sorted.len()).as_str(), " word(s)):\n");
    let mut out = text::lit(head.as_str());
    let mut k: usize = 0;
    assert(head@ + word_lines(all, 0) =~= head@);
    while k < sorted.len()
        invariant
            k <= sorted@.len(),
            all == text::texts(sorted@),
            out@ == head@ + word_lines(all, k as int),
        decreases sorted@.len() - k,
    {
        assert(all[k as int] == sorted@[k as int]@);
        let ghost before = word_lines(all, k as int);
        text::push(&mut out, "  ");
        text::push(&mut out, sorted[k].as_str());
        text::push(&mut out, "\n");
        assert(out@ =~= head@ + (before + "  "@ + all[k as int] + "\n"@));
        k = k + 1;
    }
    assert(all.len() == sorted@.len());
    out
}

/// The message where a project has no whitelist file yet.
pub fn no_whitelist_message() -> (r: String)
    ensures
        r@ == "  ◇ No project whitelist file exists yet (checked: "@ + text::join(
            spell::whitelist_names(),
            ", "@,
        ) + ")"@,
{
    let names = spell::project_whitelist_files();
    text::cat3(
        "  ◇ No project whitelist file exists yet (checked: ",
        text::joined(&names, ", ").as_str(),
        ")",
    )
}

// ---------------------------------------------------------------------------
// Laws
// ---------------------------------------------------------------------------

proof fn lemma_find_first(a: Seq<char>, b: Seq<char>, k: int)
    requires
        0 <= k <= a.len(),
    ensures
        match text::find_char_from(a, '\n', k) {
            Some(i) => text::find_char_from(a + b, '\n', k) == Some(i),
            None => text::find_char_from(a + b, '\n', k) == text::find_char_from(
                a + b,
                '\n',
                a.len() as int,
            ),
        },
    decreases a.len() - k,
{
    if k < a.len() {
        assert((a + b)[k] == a[k]);
        if a[k] != '\n' {
            lemma_find_first(a, b, k + 1);
        }
    }
}

/// Lines of a text that ends in a line feed do not run into what follows it.
proof fn lemma_lines_append(a: Seq<char>, b: Seq<char>)
    requires
        a.len() == 0 || a.last() == '\n',
    ensures
        text::lines(a + b) == text::lines(a) + text::lines(b),
    decreases a.len(),
{
    if a.len() == 0 {
        assert(a + b =~= b);
        assert(text::lines(a) + text::lines(b) =~= text::lines(b));
    } else {
        lemma_find_first(a, b, 0);
        text::lemma_find_char_bounds(a, '\n', 0);
        match text::find_char(a, '\n') {
            Some(k) => {
                let rest = a.skip(k + 1);
                assert((a + b).take(k) =~= a.take(k));
                assert((a + b).skip(k + 1) =~= rest + b);
                if rest.len() > 0 {
                    assert(rest.last() == a.last());
                }
                lemma_lines_append(rest, b);
                assert(seq![text::strip_cr(a.take(k))] + (text::lines(rest) + text::lines(b)) =~= (
                seq![text::strip_cr(a.take(k))] + text::lines(rest)) + text::lines(b));
            },
            None => {
                assert(a[a.len() - 1] == '\n');
            },
        }
    }
}

proof fn lemma_entries_append(a: Seq<Seq<char>>, b: Seq<Seq<char>>, k: int)
    requires
        0 <= k <= a.len(),
    ensures
        spell::whitelist_entries(a + b, k) == spell::whitelist_entries(a, k)
            + spell::whitelist_entries(b, 0),
    decreases a.len() - k,
{
    if k < a.len() {
        lemma_entries_append(a, b, k + 1);
        assert((a + b)[k] == a[k]);
        let w = text::trim(a[k]);
        if !(w.len() == 0 || w[0] == '#') {
            assert(seq![chars::lowercase(w)] + (spell::whitelist_entries(a, k + 1)
                + spell::whitelist_entries(b, 0)) =~= (seq![chars::lowercase(w)]
                + spell::whitelist_entries(a, k + 1)) + spell::whitelist_entries(b, 0));
        }
    } else {
        lemma_entries_shift(a, b, 0);
        assert(spell::whitelist_entries(a, k) + spell::whitelist_entries(b, 0)
            =~= spell::whitelist_entries(b, 0));
    }
}

proof fn lemma_entries_shift(a: Seq<Seq<char>>, b: Seq<Seq<char>>, k: int)
    requires
        0 <= k <= b.len(),
    ensures
        spell::whitelist_entries(a + b, a.len() + k) == spell::whitelist_entries(b, k),
    decreases b.len() - k,
{
    if k < b.len() {
        assert((a + b)[a.len() + k] == b[k]);
        lemma_entries_shift(a, b, k + 1);
    }
}

proof fn lemma_strip_cr_trim(s: Seq<char>)
    ensures
        text::trim(text::strip_cr(s)) == text::trim(s),
{
    if s.len() > 0 && s.last() == '\r' {
        lemma_trim_drop(s);
    }
}

proof fn lemma_trim_drop(s: Seq<char>)
    requires
        s.len() > 0,
        chars::is_space(s.last()),
    ensures
        text::trim(s.drop_last()) == text::trim(s),
    decreases s.len(),
{
    if chars::is_space(s[0]) {
        if s.len() > 1 {
            assert(s.skip(1).drop_last() =~= s.drop_last().skip(1));
            assert(s.drop_last()[0] == s[0]);
            lemma_trim_drop(s.skip(1));
        } else {
            assert(s.drop_last() =~= s.skip(1));
        }
    } else {
        assert(s.drop_last().len() > 0);
        assert(s.drop_last()[0] == s[0]);
        assert(text::trim_start(s.drop_last()) == s.drop_last());
        assert(text::trim_start(s) == s);
    }
}

spec fn one_line(s: Seq<char>) -> bool {
    forall|i: int| 0 <= i < s.len() ==> #[trigger] s[i] != '\n'
}

proof fn lemma_no_break(s: Seq<char>, k: int)
    requires
        one_line(s),
        0 <= k <= s.len(),
    ensures
        text::find_char_from(s, '\n', k) is None,
        text::find_char_from(s + "\n"@, '\n', k) == Some(s.len() as int),
    decreases s.len() - k,
{
    reveal_strlit("\n");
    if k < s.len() {
        assert((s + "\n"@)[k] == s[k]);
        lemma_no_break(s, k + 1);
    } else {
        assert((s + "\n"@)[k] == '\n');
    }
}

/// The words of one line, with or without its ending.
proof fn lemma_one_line(s: Seq<char>)
    requires
        one_line(s),
    ensures
        text::lines(s + "\n"@) == seq![text::strip_cr(s)],
        spell::whitelist_entries(text::lines(s), 0) == spell::whitelist_entries(seq![s], 0),
        spell::whitelist_entries(text::lines(s + "\n"@), 0) == spell::whitelist_entries(seq![s], 0),
{
    reveal_strlit("\n");
    lemma_no_break(s, 0);
    let t = s + "\n"@;
    assert(t.take(s.len() as int) =~= s);
    assert(t.skip(s.len() as int + 1) =~= Seq::<char>::empty());
    assert(text::lines(t.skip(s.len() as int + 1)).len() == 0);
    assert(text::lines(t) =~= seq![text::strip_cr(s)]);
    lemma_strip_cr_trim(s);
    reveal_with_fuel(spell::whitelist_entries, 2);
    if s.len() > 0 {
        assert(text::lines(s) == seq![s]);
    } else {
        assert(text::trim(s) =~= Seq::<char>::empty());
    }
}

/// A line feed at the end adds no word.
proof fn lemma_entries_line_feed(x: Seq<char>)
    ensures
        spell::whitelist_entries(text::lines(x + "\n"@), 0) == spell::whitelist_entries(
            text::lines(x),
            0,
        ),
    decreases x.len(),
{
    text::lemma_find_char_bounds(x, '\n', 0);
    match text::find_char(x, '\n') {
        Some(k) => {
            let head = x.take(k + 1);
            let rest = x.skip(k + 1);
            assert(x =~= head + rest);
            assert(x + "\n"@ =~= head + (rest + "\n"@));
            lemma_lines_append(head, rest);
            lemma_lines_append(head, rest + "\n"@);
            lemma_entries_line_feed(rest);
            lemma_entries_append(text::lines(head), text::lines(rest), 0);
            lemma_entries_append(text::lines(head), text::lines(rest + "\n"@), 0);
        },
        None => {
            assert forall|i: int| 0 <= i < x.len() implies #[trigger] x[i] != '\n' by {
                if x[i] == '\n' {
                    assert(x.contains('\n'));
                }
            }
            lemma_one_line(x);
        },
    }
}

/// Whether a word reads back from a whitelist as it was written: one line, without white
/// space at its ends, that does not look like a comment.
pub open spec fn is_plain(w: Seq<char>) -> bool {
    &&& text::trim(w) == w
    &&& w.len() > 0
    &&& w[0] != '#'
    &&& forall|i: int| 0 <= i < w.len() ==> #[trigger] w[i] != '\n'
}

proof fn lemma_block(words: Seq<Seq<char>>)
    requires
        forall|i: int| 0 <= i < words.len() ==> is_plain(#[trigger] words[i]),
    ensures
        spell::whitelist_entries(text::lines(block(words)), 0) == lowered(words),
        block(words).len() == 0 || block(words).last() == '\n',
    decreases words.len(),
{
    reveal_strlit("\n");
    if words.len() == 0 {
        assert(lowered(words) =~= Seq::<Seq<char>>::empty());
    } else {
        let t = words.drop_last();
        let w = words.last();
        assert forall|i: int| 0 <= i < t.len() implies is_plain(#[trigger] t[i]) by {
            assert(t[i] == words[i]);
        }
        lemma_block(t);
        assert(is_plain(words[words.len() - 1]));
        assert(block(words) =~= block(t) + (w + "\n"@));
        lemma_lines_append(block(t), w + "\n"@);
        lemma_entries_append(text::lines(block(t)), text::lines(w + "\n"@), 0);
        lemma_one_line(w);
        reveal_with_fuel(spell::whitelist_entries, 2);
        assert(spell::whitelist_entries(seq![w], 0) =~= seq![chars::lowercase(w)]);
        assert(lowered(words) =~= lowered(t) + seq![chars::lowercase(w)]);
    }
}

proof fn lemma_appended(existing: Seq<char>, added: Seq<Seq<char>>)
    requires
        forall|i: int| 0 <= i < added.len() ==> is_plain(#[trigger] added[i]),
    ensures
        spell::whitelist_entries(text::lines(existing + appended(existing, added)), 0)
            == spell::whitelist_entries(text::lines(existing), 0) + lowered(added),
{
    reveal_strlit("\n");
    if added.len() == 0 {
        assert(existing + appended(existing, added) =~= existing);
        assert(spell::whitelist_entries(text::lines(existing), 0) + lowered(added)
            =~= spell::whitelist_entries(text::lines(existing), 0));
    } else {
        lemma_block(added);
        if existing.len() > 0 && existing.last() != '\n' {
            let head = existing + "\n"@;
            assert(existing + appended(existing, added) =~= head + block(added));
            lemma_lines_append(head, block(added));
            lemma_entries_append(text::lines(head), text::lines(block(added)), 0);
            lemma_entries_line_feed(existing);
        } else {
            lemma_lines_append(existing, block(added));
            lemma_entries_append(text::lines(existing), text::lines(block(added)), 0);
        }
    }
}

proof fn lemma_adding(words: Seq<Seq<char>>, known: Seq<Seq<char>>, k: int)
    requires
        0 <= k <= words.len(),
        forall|i: int| 0 <= i < words.len() ==> is_plain(#[trigger] words[i]),
    ensures
        ({
            let a = adding(words, known, k);
            &&& forall|i: int|
                0 <= i < k ==> a.known.contains(chars::lowercase(#[trigger] words[i]))
            &&& forall|x: Seq<char>|
                #[trigger] a.known.contains(x) ==> known.contains(x) || lowered(a.added).contains(x)
            &&& forall|i: int| 0 <= i < a.added.len() ==> is_plain(#[trigger] a.added[i])
        }),
    decreases k,
{
    if k > 0 {
        lemma_adding(words, known, k - 1);
        let b = adding(words, known, k - 1);
        let a = adding(words, known, k);
        let w = words[k - 1];
        let low = chars::lowercase(w);
        assert(is_plain(words[k - 1]));
        if b.known.contains(low) {
        } else {
            assert(a.known == b.known.push(low));
            assert(lowered(a.added) =~= lowered(b.added).push(low));
            assert(a.known[b.known.len() as int] == low);
            assert forall|i: int| 0 <= i < k implies a.known.contains(
                chars::lowercase(#[trigger] words[i]),
            ) by {
                if i < k - 1 {
                    assert(b.known.contains(chars::lowercase(words[i])));
                    let j = choose|j: int|
                        0 <= j < b.known.len() && b.known[j] == chars::lowercase(words[i]);
                    assert(a.known[j] == b.known[j]);
                }
            }
            assert forall|x: Seq<char>| #[trigger] a.known.contains(x) implies known.contains(x)
                || lowered(a.added).contains(x) by {
                let j = choose|j: int| 0 <= j < a.known.len() && a.known[j] == x;
                if j < b.known.len() {
                    assert(b.known[j] == x);
                    assert(b.known.contains(x));
                    if lowered(b.added).contains(x) {
                        let m = choose|m: int|
                            0 <= m < lowered(b.added).len() && lowered(b.added)[m] == x;
                        assert(lowered(a.added)[m] == x);
                    }
                } else {
                    assert(lowered(a.added)[b.added.len() as int] == x);
                }
            }
            assert forall|i: int| 0 <= i < a.added.len() implies is_plain(#[trigger] a.added[i]) by {
                if i < b.added.len() {
                    assert(a.added[i] == b.added[i]);
                }
            }
        }
    }
}

/// Adding rewrites nothing: the text of a whitelist stays at its start.
pub proof fn law_add_only_appends(existing: Seq<char>, words: Seq<Seq<char>>)
    ensures
        after_add(existing, words).take(existing.len() as int) == existing,
{
    assert(after_add(existing, words).take(existing.len() as int) =~= existing);
}

/// A word that was added is among the words of the whitelist, in lower case, and so are
/// the words that were there before.
pub proof fn law_added_words_are_known(existing: Seq<char>, words: Seq<Seq<char>>, w: Seq<char>)
    requires
        forall|i: int| 0 <= i < words.len() ==> is_plain(#[trigger] words[i]),
    ensures
        words.contains(w) ==> spell::whitelist_words(after_add(existing, words)).contains(
            chars::lowercase(w),
        ),
        spell::whitelist_words(existing).contains(w) ==> spell::whitelist_words(
            after_add(existing, words),
        ).contains(w),
{
    let known = spell::whitelist_words(existing);
    let a = additions(existing, words);
    lemma_adding(words, known, words.len() as int);
    lemma_appended(existing, a.added);
    let old_entries = spell::whitelist_entries(text::lines(existing), 0);
    let new_entries = spell::whitelist_entries(text::lines(after_add(existing, words)), 0);
    wordset::lemma_distinct(old_entries);
    wordset::lemma_distinct(new_entries);
    assert forall|x: Seq<char>| known.contains(x) || lowered(a.added).contains(x) implies #[trigger] new_entries.contains(
        x,
    ) by {
        if known.contains(x) {
            assert(old_entries.contains(x));
            let j = choose|j: int| 0 <= j < old_entries.len() && old_entries[j] == x;
            assert(new_entries[j] == x);
        } else {
            let j = choose|j: int| 0 <= j < lowered(a.added).len() && lowered(a.added)[j] == x;
            assert(new_entries[old_entries.len() + j] == x);
        }
    }
    if words.contains(w) {
        let i = choose|i: int| 0 <= i < words.len() && words[i] == w;
        assert(a.known.contains(chars::lowercase(words[i])));
        assert(new_entries.contains(chars::lowercase(w)));
    }
    if known.contains(w) {
        assert(new_entries.contains(w));
    }
}

proof fn lemma_added_are_words(words: Seq<Seq<char>>, known: Seq<Seq<char>>, k: int)
    requires
        0 <= k <= words.len(),
    ensures
        forall|i: int|
            0 <= i < adding(words, known, k).added.len() ==> words.contains(
                #[trigger] adding(words, known, k).added[i],
            ),
    decreases k,
{
    if k > 0 {
        lemma_added_are_words(words, known, k - 1);
        let b = adding(words, known, k - 1);
        let a = adding(words, known, k);
        assert forall|i: int| 0 <= i < a.added.len() implies words.contains(#[trigger] a.added[i]) by {
            if i < b.added.len() {
                assert(a.added[i] == b.added[i]);
            } else {
                assert(a.added[i] == words[k - 1]);
            }
        }
    }
}

/// Adding words makes nothing known but these words, in lower case.
pub proof fn law_only_added_words_are_new(existing: Seq<char>, words: Seq<Seq<char>>, x: Seq<char>)
    requires
        forall|i: int| 0 <= i < words.len() ==> is_plain(#[trigger] words[i]),
    ensures
        spell::whitelist_words(after_add(existing, words)).contains(x) <==> {
            ||| spell::whitelist_words(existing).contains(x)
            ||| exists|i: int| 0 <= i < words.len() && chars::lowercase(#[trigger] words[i]) == x
        },
{
    let known = spell::whitelist_words(existing);
    let a = additions(existing, words);
    lemma_adding(words, known, words.len() as int);
    lemma_added_are_words(words, known, words.len() as int);
    lemma_appended(existing, a.added);
    let old_entries = spell::whitelist_entries(text::lines(existing), 0);
    let new_entries = spell::whitelist_entries(text::lines(after_add(existing, words)), 0);
    wordset::lemma_distinct(old_entries);
    wordset::lemma_distinct(new_entries);
    if spell::whitelist_words(after_add(existing, words)).contains(x) {
        assert(new_entries.contains(x));
        let j = choose|j: int| 0 <= j < new_entries.len() && new_entries[j] == x;
        if j < old_entries.len() {
            assert(old_entries[j] == x);
            assert(old_entries.contains(x));
            assert(known.contains(x));
        } else {
            let m = j - old_entries.len();
            assert(lowered(a.added)[m] == x);
            assert(words.contains(a.added[m]));
            let i = choose|i: int| 0 <= i < words.len() && words[i] == a.added[m];
            assert(chars::lowercase(words[i]) == x);
        }
    }
    law_added_words_are_known(existing, words, x);
    if exists|i: int| 0 <= i < words.len() && chars::lowercase(#[trigger] words[i]) == x {
        let i = choose|i: int| 0 <= i < words.len() && chars::lowercase(#[trigger] words[i]) == x;
        law_added_words_are_known(existing, words, words[i]);
    }
}

proof fn lemma_all_known(words: Seq<Seq<char>>, known: Seq<Seq<char>>, k: int)
    requires
        0 <= k <= words.len(),
        forall|i: int|
            0 <= i < words.len() ==> known.contains(chars::lowercase(#[trigger] words[i])),
    ensures
        adding(words, known, k).known == known,
        adding(words, known, k).added.len() == 0,
    decreases k,
{
    if k > 0 {
        lemma_all_known(words, known, k - 1);
        assert(known.contains(chars::lowercase(words[k - 1])));
    }
}

/// Adding words twice is the same as adding them once.
pub proof fn law_add_twice(existing: Seq<char>, words: Seq<Seq<char>>)
    requires
        forall|i: int| 0 <= i < words.len() ==> is_plain(#[trigger] words[i]),
    ensures
        after_add(after_add(existing, words), words) == after_add(existing, words),
{
    let once = after_add(existing, words);
    let known = spell::whitelist_words(once);
    assert forall|i: int| 0 <= i < words.len() implies known.contains(
        chars::lowercase(#[trigger] words[i]),
    ) by {
        assert(words.contains(words[i]));
        law_added_words_are_known(existing, words, words[i]);
    }
    lemma_all_known(words, known, words.len() as int);
    assert(after_add(once, words) =~= once);
}

proof fn lemma_lines_are_single(s: Seq<char>)
    ensures
        forall|k: int| 0 <= k < text::lines(s).len() ==> one_line(#[trigger] text::lines(s)[k]),
    decreases s.len(),
{
    if s.len() > 0 {
        text::lemma_find_char_bounds(s, '\n', 0);
        match text::find_char(s, '\n') {
            None => {
                assert forall|i: int| 0 <= i < s.len() implies #[trigger] s[i] != '\n' by {
                    if s[i] == '\n' {
                        assert(s.contains('\n'));
                    }
                }
                assert(text::lines(s) =~= seq![s]);
            },
            Some(at) => {
                let rest = s.skip(at + 1);
                lemma_lines_are_single(rest);
                let first = text::strip_cr(s.take(at));
                assert(one_line(first)) by {
                    assert forall|i: int| 0 <= i < first.len() implies #[trigger] first[i] != '\n' by {
                        assert(first[i] == s[i]);
                    }
                }
                assert forall|k: int| 0 <= k < text::lines(s).len() implies one_line(
                    #[trigger] text::lines(s)[k],
                ) by {
                    if k > 0 {
                        assert(text::lines(s)[k] == text::lines(rest)[k - 1]);
                    }
                }
            },
        }
    }
}

/// The words of lines that are joined are the words of the lines.
proof fn lemma_joined_entries(ls: Seq<Seq<char>>)
    requires
        forall|k: int| 0 <= k < ls.len() ==> one_line(#[trigger] ls[k]),
    ensures
        spell::whitelist_entries(text::lines(text::join(ls, "\n"@)), 0)
            == spell::whitelist_entries(ls, 0),
    decreases ls.len(),
{
    reveal_strlit("\n");
    if ls.len() == 1 {
        assert(ls =~= seq![ls[0]]);
        lemma_one_line(ls[0]);
    } else if ls.len() > 1 {
        let t = ls.drop_last();
        let last = ls.last();
        assert forall|k: int| 0 <= k < t.len() implies one_line(#[trigger] t[k]) by {
            assert(t[k] == ls[k]);
        }
        assert(one_line(ls[ls.len() - 1]));
        lemma_joined_entries(t);
        let head = text::join(t, "\n"@) + "\n"@;
        lemma_entries_line_feed(text::join(t, "\n"@));
        lemma_lines_append(head, last);
        lemma_entries_append(text::lines(head), text::lines(last), 0);
        lemma_one_line(last);
        assert(ls =~= t + seq![last]);
        lemma_entries_append(t, seq![last], 0);
    }
}

proof fn lemma_kept(ls: Seq<Seq<char>>, targets: Seq<Seq<char>>, k: int, x: Seq<char>)
    requires
        0 <= k,
    ensures
        spell::whitelist_entries(kept(ls, targets, k), 0).contains(x)
            <==> spell::whitelist_entries(ls, k).contains(x) && !targets.contains(x),
        kept(ls, targets, k).len() == ls.len() - k ==> kept(ls, targets, k) == ls.skip(k),
        k <= ls.len() ==> kept(ls, targets, k).len() <= ls.len() - k,
        forall|i: int|
            0 <= i < kept(ls, targets, k).len() ==> ls.contains(
                #[trigger] kept(ls, targets, k)[i],
            ),
    decreases ls.len() - k,
{
    if k < ls.len() {
        lemma_kept(ls, targets, k + 1, x);
        let rest = kept(ls, targets, k + 1);
        let all = kept(ls, targets, k);
        let t = text::trim(ls[k]);
        let low = chars::lowercase(t);
        let later = spell::whitelist_entries(ls, k + 1);
        let here = spell::whitelist_entries(ls, k);
        if !(t.len() == 0 || t[0] == '#') {
            assert(here == seq![low] + later);
            lemma_contains_first(low, later, x);
        }
        if !is_hit(ls[k], targets) {
            assert(all == seq![ls[k]] + rest);
            lemma_entries_append(seq![ls[k]], rest, 0);
            reveal_with_fuel(spell::whitelist_entries, 2);
            if !(t.len() == 0 || t[0] == '#') {
                assert(spell::whitelist_entries(seq![ls[k]], 0) =~= seq![low]);
                lemma_contains_first(low, spell::whitelist_entries(rest, 0), x);
            } else {
                assert(spell::whitelist_entries(seq![ls[k]], 0) =~= Seq::<Seq<char>>::empty());
                assert(spell::whitelist_entries(all, 0) =~= spell::whitelist_entries(rest, 0));
            }
            assert(ls.skip(k) =~= seq![ls[k]] + ls.skip(k + 1));
            assert forall|i: int| 0 <= i < all.len() implies ls.contains(#[trigger] all[i]) by {
                if i > 0 {
                    assert(all[i] == rest[i - 1]);
                }
            }
        }
    } else {
        assert(kept(ls, targets, k) =~= Seq::<Seq<char>>::empty());
        if k == ls.len() {
            assert(ls.skip(k) =~= Seq::<Seq<char>>::empty());
        }
    }
}

proof fn lemma_contains_first(a: Seq<char>, rest: Seq<Seq<char>>, x: Seq<char>)
    ensures
        (seq![a] + rest).contains(x) <==> a == x || rest.contains(x),
{
    let all = seq![a] + rest;
    assert(all[0] == a);
    if rest.contains(x) {
        let i = choose|i: int| 0 <= i < rest.len() && rest[i] == x;
        assert(all[i + 1] == x);
    }
    if all.contains(x) {
        let i = choose|i: int| 0 <= i < all.len() && all[i] == x;
        if i > 0 {
            assert(rest[i - 1] == x);
        }
    }
}

/// After a removal exactly the removed words are gone from the words of the whitelist.
pub proof fn law_removed_words_are_gone(content: Seq<char>, words: Seq<Seq<char>>, x: Seq<char>)
    ensures
        spell::whitelist_words(after_remove(content, words)).contains(x)
            <==> spell::whitelist_words(content).contains(x) && !lowered(words).contains(x),
{
    let ls = text::lines(content);
    let targets = lowered(words);
    let rest = kept(ls, targets, 0);
    let joined = text::join(rest, "\n"@);
    lemma_kept(ls, targets, 0, x);
    lemma_lines_are_single(content);
    wordset::lemma_distinct(spell::whitelist_entries(ls, 0));
    wordset::lemma_distinct(
        spell::whitelist_entries(text::lines(after_remove(content, words)), 0),
    );
    if rest.len() == ls.len() {
        assert(rest =~= ls);
    } else {
        assert forall|k: int| 0 <= k < rest.len() implies one_line(#[trigger] rest[k]) by {
            assert(ls.contains(rest[k]));
            let i = choose|i: int| 0 <= i < ls.len() && ls[i] == rest[k];
            assert(one_line(ls[i]));
        }
        lemma_joined_entries(rest);
        lemma_entries_line_feed(joined);
    }
}

/// Removing words that no line holds changes nothing.
pub proof fn law_remove_of_absent_words(content: Seq<char>, words: Seq<Seq<char>>)
    requires
        forall|k: int|
            0 <= k < text::lines(content).len() ==> !is_hit(
                #[trigger] text::lines(content)[k],
                lowered(words),
            ),
    ensures
        after_remove(content, words) == content,
{
    lemma_none_hit(text::lines(content), lowered(words), 0);
}

proof fn lemma_none_hit(ls: Seq<Seq<char>>, targets: Seq<Seq<char>>, k: int)
    requires
        0 <= k <= ls.len(),
        forall|k: int| 0 <= k < ls.len() ==> !is_hit(#[trigger] ls[k], targets),
    ensures
        kept(ls, targets, k).len() == ls.len() - k,
    decreases ls.len() - k,
{
    if k < ls.len() {
        lemma_none_hit(ls, targets, k + 1);
    }
}

} // verus!
