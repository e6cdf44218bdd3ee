//! The `init` command: migrate an existing document, or set up a new project.

use vstd::prelude::*;

use crate::paths;
use crate::text::{self, chars_of, string_of};
use crate::version::{self, SemVer};

verus! {

broadcast use text::lemma_texts_push;

/// The banner of the tool.
pub const BANNER: &'static str = "
 ███████████          █████ █████ ███████████                                     
░█░░░███░░░█         ░░███ ░░███ ░░███░░░░░░█                                     
░   ░███  ░   ██████  ░░███ ███   ░███   █ ░   ██████  ████████   ███████  ██████ 
    ░███     ███░░███  ░░█████    ░███████    ███░░███░░███░░███ ███░░███ ███░░███
    ░███    ░███████    ███░███   ░███░░░█   ░███ ░███ ░███ ░░░ ░███ ░███░███████ 
    ░███    ░███░░░    ███ ░░███  ░███  ░    ░███ ░███ ░███     ░███ ░███░███░░░  
    █████   ░░██████  █████ █████ █████      ░░██████  █████    ░░███████░░██████ 
   ░░░░░     ░░░░░░  ░░░░░ ░░░░░ ░░░░░        ░░░░░░  ░░░░░      ░░░░░███ ░░░░░░  
                                                                 ███ ░███         
                                                                ░░██████          
                                                                 ░░░░░░           
";

/// What the command does, given what the current directory holds.
#[derive(Debug, Clone, Copy, PartialEq, Eq, Structural)]
pub enum InitPlan {
    /// There is a document: describe it in a configuration.
    Migrate,
    /// There is none: set up a new project.
    CreateNew,
}

/// What the command does, given whether there is a configuration and a document.
pub fn plan(has_config: bool, has_document: bool) -> (r: Result<InitPlan, String>)
    ensures
        has_config ==> r is Err && r->Err_0@
            == "project.toml already exists — nothing to do"@,
        !has_config ==> r == Ok::<InitPlan, String>(
            if has_document {
                InitPlan::Migrate
            } else {
                InitPlan::CreateNew
            },
        ),
{
    if has_config {
        Err(text::lit("project.toml already exists — nothing to do"))
    } else if has_document {
        Ok(InitPlan::Migrate)
    } else {
        Ok(InitPlan::CreateNew)
    }
}

/// The title that is proposed for a document in a directory.
pub fn proposed_title(root: &str) -> (r: String)
    ensures
        r@ == match paths::file_name(root@) {
            Some(n) => n,
            None => "document"@,
        },
{
    match paths::file_name_of(root) {
        Some(n) => n,
        None => text::lit("document"),
    }
}

// ---------------------------------------------------------------------------
// What a document consists of
// ---------------------------------------------------------------------------

/// A file below the project root, in the order of the walk.
#[derive(Debug)]
pub struct FoundFile {
    pub path: String,
    /// How many directories it lies deep: one for a file in the root itself.
    pub depth: usize,
    /// What it holds, where that can be read as text.
    pub content: Option<String>,
}

/// Whether a file begins a document.
pub open spec fn is_entry(f: FoundFile) -> bool {
    &&& f.depth <= 2
    &&& paths::extension(f.path@) == Some("tex"@)
    &&& f.content is Some
    &&& text::contains(f.content->0@, "\\documentclass"@)
}

/// Whether a file is a bibliography.
pub open spec fn is_bib(f: FoundFile) -> bool {
    f.depth <= 3 && paths::extension(f.path@) == Some("bib"@)
}

/// The first of the files from the `k`-th on that is meant, relative to the root.
pub open spec fn first_of(files: Seq<FoundFile>, bib: bool, root: Seq<char>, k: int) -> Option<
    Seq<char>,
>
    decreases files.len() - k,
{
    if k < 0 || k >= files.len() {
        None
    } else if (bib && is_bib(files[k])) || (!bib && is_entry(files[k])) {
        paths::relative(files[k].path@, root)
    } else {
        first_of(files, bib, root, k + 1)
    }
}

fn extended(path: &str, ext: &str) -> (r: bool)
    ensures
        r == (paths::extension(path@) == Some(ext@)),
{
    match paths::extension_of(path) {
        Some(e) => text::same_str(e.as_str(), ext),
        None => false,
    }
}

fn is_meant(f: &FoundFile, bib: bool) -> (r: bool)
    ensures
        r == ((bib && is_bib(*f)) || (!bib && is_entry(*f))),
{
    if bib {
        f.depth <= 3 && extended(f.path.as_str(), "bib")
    } else if f.depth <= 2 && extended(f.path.as_str(), "tex") {
        match &f.content {
            Some(c) => {
                let cs = chars_of(c.as_str());
                text::has(cs.as_slice(), "\\documentclass")
            },
            None => false,
        }
    } else {
        false
    }
}

fn find_file_by(root: &str, files: &Vec<FoundFile>, bib: bool) -> (r: Option<String>)
    ensures
        text::opt_text(r) == first_of(files@, bib, root@, 0),
{
    let mut k: usize = 0;
    while k < files.len()
        invariant
            k <= files@.len(),
            first_of(files@, bib, root@, 0) == first_of(files@, bib, root@, k as int),
        decreases files@.len() - k,
    {
        if is_meant(&files[k], bib) {
            return paths::relative_to(files[k].path.as_str(), root);
        }
        k = k + 1;
    }
    None
}

/// Find the `.tex` file that contains `\documentclass`.
pub fn detect_entry(root: &str, files: &Vec<FoundFile>) -> (r: Option<String>)
    ensures
        text::opt_text(r) == first_of(files@, false, root@, 0),
{
    find_file_by(root, files, false)
}

/// Find the first `.bib` file of the project.
pub fn detect_bib(root: &str, files: &Vec<FoundFile>) -> (r: Option<String>)
    ensures
        text::opt_text(r) == first_of(files@, true, root@, 0),
{
    find_file_by(root, files, true)
}

// ---------------------------------------------------------------------------
// Migration
// ---------------------------------------------------------------------------

/// The line on the bibliography.
pub open spec fn bib_line(bib: Option<Seq<char>>) -> Seq<char> {
    match bib {
        Some(b) => "bibliography = \""@ + b + "\""@,
        None => "# bibliography = \"refs.bib\""@,
    }
}

/// The configuration of a migrated document.
pub open spec fn migrated_config(
    title: Seq<char>,
    author: Seq<char>,
    entry: Seq<char>,
    bib: Option<Seq<char>>,
) -> Seq<char> {
    "[document]\ntitle = \""@ + title + "\"\nauthor = \""@ + author
        + "\"\ntemplate = \"general\"\n\n[build]\nentry = \""@ + entry + "\"\n"@ + bib_line(bib)
        + "\n"@
}

/// The configuration of a migrated document.
pub fn project_toml(title: &str, author: &str, entry: &str, bib: Option<&str>) -> (r: String)
    ensures
        r@ == migrated_config(title@, author@, entry@, text::opt_str(bib)),
{
    let line = match bib {
        Some(b) => text::cat3("bibliography = \"", b, "\""),
        None => text::lit("# bibliography = \"refs.bib\""),
    };
    let mut out = text::cat5(
        "[document]\ntitle = \"",
        title,
        "\"\nauthor = \"",
        author,
        "\"\ntemplate = \"general\"\n\n[build]\nentry = \"",
    );
    text::push(&mut out, entry);
    text::push(&mut out, "\"\n");
    text::push(&mut out, line.as_str());
    text::push(&mut out, "\n");
    out
}

/// What is reported of a migration.
pub open spec fn migration_text(entry: Seq<char>, bib: Option<Seq<char>>) -> Seq<char> {
    "\n  ◇ project.toml generated  ✓\n  ◇ entry: "@ + entry + "\n"@ + (match bib {
        Some(b) => "  ◇ bibliography: "@ + b + "\n"@,
        None => Seq::empty(),
    }) + "\n  Run: texforge build\n\n"@
}

/// What is reported of a migration.
pub fn migration_report(entry: &str, bib: Option<&str>) -> (r: String)
    ensures
        r@ == migration_text(entry@, text::opt_str(bib)),
{
    let mut out = text::cat3("\n  ◇ project.toml generated  ✓\n  ◇ entry: ", entry, "\n");
    let ghost head = out@;
    match bib {
        Some(b) => {
            text::push(&mut out, "  ◇ bibliography: ");
            text::push(&mut out, b);
            text::push(&mut out, "\n");
            assert(out@ =~= head + ("  ◇ bibliography: "@ + b@ + "\n"@));
        },
        None => {
            assert(out@ =~= head + Seq::<char>::empty());
        },
    }
    text::push(&mut out, "\n  Run: texforge build\n\n");
    out
}

// ---------------------------------------------------------------------------
// The choice of a template
// ---------------------------------------------------------------------------

/// The option of the built-in template.
pub const BUILT_IN: &'static str = "general  (built-in, works offline)";

/// The options with the templates of the registry, from the `k`-th on.
pub open spec fn with_remote(
    options: Seq<Seq<char>>,
    remote: Seq<Seq<char>>,
    k: int,
) -> Seq<Seq<char>>
    decreases remote.len() - k,
{
    if k < 0 || k >= remote.len() {
        options
    } else if remote[k] != "general"@ {
        with_remote(options.push(remote[k]), remote, k + 1)
    } else {
        with_remote(options, remote, k + 1)
    }
}

/// Whether an option begins with a name.
pub open spec fn is_offered(options: Seq<Seq<char>>, name: Seq<char>) -> bool {
    exists|i: int| 0 <= i < options.len() && text::starts_with(#[trigger] options[i], name)
}

/// The options with the cached templates, from the `k`-th on, that are not offered yet.
pub open spec fn with_cached(
    options: Seq<Seq<char>>,
    cached: Seq<Seq<char>>,
    k: int,
) -> Seq<Seq<char>>
    decreases cached.len() - k,
{
    if k < 0 || k >= cached.len() {
        options
    } else if !is_offered(options, cached[k]) {
        with_cached(options.push(cached[k]), cached, k + 1)
    } else {
        with_cached(options, cached, k + 1)
    }
}

fn offered(options: &Vec<String>, name: &str) -> (r: bool)
    ensures
        r == is_offered(text::texts(options@), name@),
{
    let ghost all = text::texts(options@);
    let mut k: usize = 0;
    while k < options.len()
        invariant
            k <= options@.len(),
            all == text::texts(options@),
            forall|i: int| 0 <= i < k ==> !text::starts_with(#[trigger] all[i], name@),
        decreases options@.len() - k,
    {
        assert(all[k as int] == options@[k as int]@);
        let c = chars_of(options[k].as_str());
        if text::begins(c.as_slice(), name) {
            return true;
        }
        k = k + 1;
    }
    false
}

/// The templates that are offered: the built-in one, those of the registry where it can
/// be reached, and the cached ones not offered yet.
pub fn template_options(remote: Option<&Vec<String>>, cached: Option<&Vec<String>>) -> (r: Vec<
    String,
>)
    ensures
        text::texts(r@) == with_cached(
            with_remote(
                seq![BUILT_IN@],
                match remote {
                    Some(v) => text::texts(v@),
                    None => Seq::empty(),
                },
                0,
            ),
            match cached {
                Some(v) => text::texts(v@),
                None => Seq::empty(),
            },
            0,
        ),
{
    let mut options: Vec<String> = Vec::new();
    options.push(text::lit(BUILT_IN));
    assert(text::texts(options@) =~= seq![BUILT_IN@]);
    if let Some(v) = remote {
        add_remote(&mut options, v);
    }
    if let Some(v) = cached {
        add_cached(&mut options, v);
    }
    options
}

fn add_remote(options: &mut Vec<String>, remote: &Vec<String>)
    ensures
        text::texts(final(options)@) == with_remote(
            text::texts(old(options)@),
            text::texts(remote@),
            0,
        ),
{
    let ghost all = text::texts(remote@);
    let ghost start = text::texts(options@);
    let mut k: usize = 0;
    while k < remote.len()
        invariant
            k <= remote@.len(),
            all == text::texts(remote@),
            with_remote(text::texts(options@), all, k as int) == with_remote(start, all, 0),
        decreases remote@.len() - k,
    {
        assert(all[k as int] == remote@[k as int]@);
        if !text::same_str(remote[k].as_str(), "general") {
            options.push(text::lit(remote[k].as_str()));
        }
        k = k + 1;
    }
}

fn add_cached(options: &mut Vec<String>, cached: &Vec<String>)
    ensures
        text::texts(final(options)@) == with_cached(
            text::texts(old(options)@),
            text::texts(cached@),
            0,
        ),
{
    let ghost all = text::texts(cached@);
    let ghost start = text::texts(options@);
    let mut k: usize = 0;
    while k < cached.len()
        invariant
            k <= cached@.len(),
            all == text::texts(cached@),
            with_cached(text::texts(options@), all, k as int) == with_cached(start, all, 0),
        decreases cached@.len() - k,
    {
        assert(all[k as int] == cached@[k as int]@);
        if !offered(options, cached[k].as_str()) {
            options.push(text::lit(cached[k].as_str()));
        }
        k = k + 1;
    }
}

/// The name of the template that was chosen: what stands before any space.
pub fn chosen_template(selected: &str) -> (r: String)
    ensures
        r@ == if text::words(selected@).len() > 0 {
            text::words(selected@)[0]
        } else {
            "general"@
        },
{
    let c = chars_of(selected);
    let words = text::words_of(c.as_slice());
    assert(words@.len() == text::slices(words@).len());
    if words.len() > 0 {
        assert(text::slices(words@)[0] == words@[0]@);
        string_of(words[0])
    } else {
        text::lit("general")
    }
}

// ---------------------------------------------------------------------------
// Updates
// ---------------------------------------------------------------------------

/// The notice of a newer version.
pub fn update_notice(local: &SemVer, latest: &SemVer) -> (r: String)
    ensures
        r@ == "\n  ℹ A new version of texforge is available: "@ + version::version_text(local@) + " → "@
            + version::version_text(latest@) + "\n"@,
{
    text::cat5(
        "\n  ℹ A new version of texforge is available: ",
        local.to_string().as_str(),
        " → ",
        latest.to_string().as_str(),
        "\n",
    )
}

// ---------------------------------------------------------------------------
// Laws
// ---------------------------------------------------------------------------

proof fn lemma_with_cached_keeps(options: Seq<Seq<char>>, cached: Seq<Seq<char>>, k: int, i: int)
    requires
        0 <= i < options.len(),
    ensures
        with_cached(options, cached, k).len() >= options.len(),
        with_cached(options, cached, k)[i] == options[i],
    decreases cached.len() - k,
{
    if 0 <= k < cached.len() {
        if !is_offered(options, cached[k]) {
            lemma_with_cached_keeps(options.push(cached[k]), cached, k + 1, i);
        } else {
            lemma_with_cached_keeps(options, cached, k + 1, i);
        }
    }
}

proof fn lemma_with_remote_keeps(options: Seq<Seq<char>>, remote: Seq<Seq<char>>, k: int, i: int)
    requires
        0 <= i < options.len(),
    ensures
        with_remote(options, remote, k).len() >= options.len(),
        with_remote(options, remote, k)[i] == options[i],
    decreases remote.len() - k,
{
    if 0 <= k < remote.len() {
        if remote[k] != "general"@ {
            lemma_with_remote_keeps(options.push(remote[k]), remote, k + 1, i);
        } else {
            lemma_with_remote_keeps(options, remote, k + 1, i);
        }
    }
}

/// The built-in template is offered first, whatever the registry and the cache hold.
pub proof fn law_built_in_is_first(remote: Seq<Seq<char>>, cached: Seq<Seq<char>>)
    ensures
        with_cached(with_remote(seq![BUILT_IN@], remote, 0), cached, 0).len() > 0,
        with_cached(with_remote(seq![BUILT_IN@], remote, 0), cached, 0)[0] == BUILT_IN@,
{
    lemma_with_remote_keeps(seq![BUILT_IN@], remote, 0, 0);
    lemma_with_cached_keeps(with_remote(seq![BUILT_IN@], remote, 0), cached, 0, 0);
}

proof fn lemma_cached_offered(
    options: Seq<Seq<char>>,
    cached: Seq<Seq<char>>,
    k: int,
    j: int,
)
    requires
        0 <= k <= j < cached.len(),
    ensures
        is_offered(with_cached(options, cached, k), cached[j]),
    decreases cached.len() - k,
{
    if k == j {
        let next = if is_offered(options, cached[k]) {
            options
        } else {
            options.push(cached[k])
        };
        if !is_offered(options, cached[k]) {
            let own = cached[k];
            assert(next[options.len() as int] == own);
            assert(own.subrange(0, own.len() as int) =~= own);
            assert(text::starts_with(next[options.len() as int], cached[k]));
        }
        assert(is_offered(next, cached[k]));
        let i = choose|i: int| 0 <= i < next.len() && text::starts_with(#[trigger] next[i], cached[k]);
        lemma_with_cached_keeps(next, cached, k + 1, i);
        assert(with_cached(options, cached, k) == with_cached(next, cached, k + 1));
        assert(text::starts_with(with_cached(options, cached, k)[i], cached[j]));
    } else if is_offered(options, cached[k]) {
        lemma_cached_offered(options, cached, k + 1, j);
    } else {
        lemma_cached_offered(options.push(cached[k]), cached, k + 1, j);
    }
}

/// Every cached template is offered: by itself, or by an option that begins with its name.
pub proof fn law_cached_templates_are_offered(
    remote: Seq<Seq<char>>,
    cached: Seq<Seq<char>>,
    j: int,
)
    requires
        0 <= j < cached.len(),
    ensures
        is_offered(with_cached(with_remote(seq![BUILT_IN@], remote, 0), cached, 0), cached[j]),
{
    lemma_cached_offered(with_remote(seq![BUILT_IN@], remote, 0), cached, 0, j);
}

} // verus!
