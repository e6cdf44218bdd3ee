//! Templates: the built-in one, those of the registry, and which one is taken.

use vstd::prelude::*;
use vstd::string::StrSliceExecFns;

use crate::archives::{self, EntryView, Listing, ListingView};
use crate::order;
use crate::text::{self, chars_of, string_of};

verus! {

broadcast use text::lemma_texts_push;

/// The repository of the registry.
pub const REGISTRY_REPO: &'static str = "UniverLab/texforge-templates";

/// For how many seconds a cached template is fresh: a day. A template rarely changes more
/// than once a day, and a user who builds every day gets a change within a day.
pub const CACHE_TTL_SECS: u64 = 86400;

/// The file in a cached template that says when it was fetched.
pub const CACHE_META_FILE: &'static str = ".cache_meta.json";

// ---------------------------------------------------------------------------
// Files
// ---------------------------------------------------------------------------

/// Files by their relative path, each path once.
#[derive(Debug)]
pub struct FileMap {
    entries: Vec<(String, Vec<u8>)>,
}

/// What entries say.
pub open spec fn file_views(v: Seq<(String, Vec<u8>)>) -> Seq<(Seq<char>, Seq<u8>)> {
    Seq::new(v.len(), |k: int| (v[k].0@, v[k].1@))
}

impl View for FileMap {
    type V = Seq<(Seq<char>, Seq<u8>)>;

    closed spec fn view(&self) -> Seq<(Seq<char>, Seq<u8>)> {
        file_views(self.entries@)
    }
}

/// Where a path stands among the files from the `k`-th on.
pub open spec fn file_index(files: Seq<(Seq<char>, Seq<u8>)>, path: Seq<char>, k: int) -> Option<int>
    decreases files.len() - k,
{
    if k < 0 || k >= files.len() {
        None
    } else if files[k].0 == path {
        Some(k)
    } else {
        file_index(files, path, k + 1)
    }
}

/// The content of a file.
pub open spec fn content_of(files: Seq<(Seq<char>, Seq<u8>)>, path: Seq<char>) -> Option<Seq<u8>> {
    match file_index(files, path, 0) {
        Some(k) => Some(files[k].1),
        None => None,
    }
}

/// Files with one more; a file with the same path is replaced.
pub open spec fn with_file(
    files: Seq<(Seq<char>, Seq<u8>)>,
    path: Seq<char>,
    content: Seq<u8>,
) -> Seq<(Seq<char>, Seq<u8>)> {
    match file_index(files, path, 0) {
        Some(k) => files.update(k, (path, content)),
        None => files.push((path, content)),
    }
}

impl FileMap {
    /// No files.
    pub fn new() -> (r: FileMap)
        ensures
            r@ == Seq::<(Seq<char>, Seq<u8>)>::empty(),
    {
        let r = FileMap { entries: Vec::new() };
        assert(r@ =~= Seq::<(Seq<char>, Seq<u8>)>::empty());
        r
    }

    fn index_of(&self, path: &str) -> (r: Option<usize>)
        ensures
            match r {
                Some(k) => file_index(self@, path@, 0) == Some(k as int) && k < self@.len()
                    && self@.len() == self.entries@.len(),
                None => file_index(self@, path@, 0) is None,
            },
    {
        let ghost all = self@;
        let mut k: usize = 0;
        while k < self.entries.len()
            invariant
                k <= self.entries@.len(),
                all == self@,
                file_index(all, path@, 0) == file_index(all, path@, k as int),
            decreases self.entries@.len() - k,
        {
            assert(all[k as int] == (self.entries@[k as int].0@, self.entries@[k as int].1@));
            if text::same_str(self.entries[k].0.as_str(), path) {
                return Some(k);
            }
            k = k + 1;
        }
        None
    }

    /// Puts a file; one with the same path is replaced.
    pub fn insert(&mut self, path: String, content: Vec<u8>)
        ensures
            final(self)@ == with_file(old(self)@, path@, content@),
    {
        let ghost before = self@;
        let ghost f = (path@, content@);
        match self.index_of(path.as_str()) {
            Some(k) => {
                self.entries.set(k, (path, content));
                assert(self@ =~= before.update(k as int, f));
            },
            None => {
                self.entries.push((path, content));
                assert(self@ =~= before.push(f));
            },
        }
    }

    /// The content of a file.
    pub fn get(&self, path: &str) -> (r: Option<&Vec<u8>>)
        ensures
            match r {
                Some(c) => content_of(self@, path@) == Some(c@),
                None => content_of(self@, path@) is None,
            },
    {
        match self.index_of(path) {
            Some(k) => Some(&self.entries[k].1),
            None => None,
        }
    }

    /// Whether there is a file at a path.
    pub fn contains_key(&self, path: &str) -> (r: bool)
        ensures
            r == content_of(self@, path@) is Some,
    {
        self.get(path).is_some()
    }

    /// The number of files.
    pub fn len(&self) -> (r: usize)
        ensures
            r == self@.len(),
    {
        self.entries.len()
    }

    /// Whether there is no file.
    pub fn is_empty(&self) -> (r: bool)
        ensures
            r == (self@.len() == 0),
    {
        self.entries.len() == 0
    }

    /// The path of the `k`-th file.
    pub fn path(&self, k: usize) -> (r: &String)
        requires
            k < self@.len(),
        ensures
            r@ == self@[k as int].0,
    {
        &self.entries[k].0
    }

    /// The content of the `k`-th file.
    pub fn content(&self, k: usize) -> (r: &Vec<u8>)
        requires
            k < self@.len(),
        ensures
            r@ == self@[k as int].1,
    {
        &self.entries[k].1
    }
}

/// A template ready to scaffold a project.
#[derive(Debug)]
pub struct ResolvedTemplate {
    /// The files by their relative path.
    pub files: FileMap,
}

// ---------------------------------------------------------------------------
// The built-in template
// ---------------------------------------------------------------------------

/// The manifest of the built-in template.
pub const GENERAL_TEMPLATE_TOML: &'static str =
    "[template]\nname = \"general\"\ndescription = \"General purpose document\"\nentry = \"main.tex\"\n";

/// The entry point of the built-in template.
pub const GENERAL_MAIN_TEX: &'static str =
    "\\documentclass{article}\n\n\\usepackage[utf8]{inputenc}\n\\usepackage{graphicx}\n\\usepackage{float}\n\\usepackage{hyperref}\n\n\\title{Title}\n\\author{Author}\n\\date{\\today}\n\n\\begin{document}\n\n\\maketitle\n\n\\input{sections/body}\n\n\\bibliographystyle{plain}\n\\bibliography{bib/references}\n\n\\end{document}\n";

/// The body of the built-in template.
pub const GENERAL_BODY_TEX: &'static str =
    "\\section{Introduction}\n\nWrite here. See \\cite{knuth1984} for the book on \\TeX.\n";

/// The bibliography of the built-in template.
pub const GENERAL_REFERENCES_BIB: &'static str =
    "@book{knuth1984,\n  author = {Donald E. Knuth},\n  title = {The TeXbook},\n  publisher = {Addison-Wesley},\n  year = {1984}\n}\n";

/// The files of the built-in template.
pub open spec fn general_files() -> Seq<(Seq<char>, Seq<u8>)> {
    seq![
        ("template.toml"@, vstd::utf8::encode_utf8(GENERAL_TEMPLATE_TOML@)),
        ("main.tex"@, vstd::utf8::encode_utf8(GENERAL_MAIN_TEX@)),
        ("sections/body.tex"@, vstd::utf8::encode_utf8(GENERAL_BODY_TEX@)),
        ("bib/references.bib"@, vstd::utf8::encode_utf8(GENERAL_REFERENCES_BIB@)),
    ]
}

/// The built-in template, which works offline.
pub fn embedded_general() -> (r: ResolvedTemplate)
    ensures
        r.files@ == general_files(),
{
    let mut entries: Vec<(String, Vec<u8>)> = Vec::new();
    entries.push((text::lit("template.toml"), GENERAL_TEMPLATE_TOML.as_bytes_vec()));
    entries.push((text::lit("main.tex"), GENERAL_MAIN_TEX.as_bytes_vec()));
    entries.push((text::lit("sections/body.tex"), GENERAL_BODY_TEX.as_bytes_vec()));
    entries.push((text::lit("bib/references.bib"), GENERAL_REFERENCES_BIB.as_bytes_vec()));
    let files = FileMap { entries };
    assert(files@ =~= general_files());
    ResolvedTemplate { files }
}

// ---------------------------------------------------------------------------
// Resolving a template
// ---------------------------------------------------------------------------

/// Whether a cached template is stale: it does not say when it was fetched, or that was
/// longer ago than it stays fresh. One fetched in the future is fresh.
pub open spec fn stale(fetched_at: Option<u64>, now: u64) -> bool {
    match fetched_at {
        Some(t) => now - t > CACHE_TTL_SECS,
        None => true,
    }
}

/// Whether a cached template is stale at a time, both in seconds since the Unix epoch.
pub fn is_stale(fetched_at: Option<u64>, now: u64) -> (r: bool)
    ensures
        r == stale(fetched_at, now),
{
    match fetched_at {
        Some(t) => now > t && now - t > CACHE_TTL_SECS,
        None => true,
    }
}

/// The cache of a template: there is none, or it says when it was fetched, or not.
#[derive(Debug, Clone, Copy, PartialEq, Eq, Structural)]
pub enum Cached {
    Nothing,
    Undated,
    FetchedAt(u64),
}

/// What is done first to resolve a template.
#[derive(Debug, Clone, Copy, PartialEq, Eq, Structural)]
pub enum ResolveStep {
    /// The cached copy is taken.
    UseCached,
    /// The template is downloaded; the cached copy stays where that fails.
    Refresh,
    /// The template is downloaded.
    Download,
}

/// What is done first to resolve a template.
pub open spec fn first_step(cached: Cached, now: u64) -> ResolveStep {
    match cached {
        Cached::Nothing => ResolveStep::Download,
        Cached::Undated => ResolveStep::Refresh,
        Cached::FetchedAt(t) => if stale(Some(t), now) {
            ResolveStep::Refresh
        } else {
            ResolveStep::UseCached
        },
    }
}

/// What is done first to resolve a template: a fresh cache needs no network, a stale one
/// is refreshed, and without a cache the template is downloaded.
pub fn resolve_step(cached: Cached, now: u64) -> (r: ResolveStep)
    ensures
        r == first_step(cached, now),
{
    match cached {
        Cached::Nothing => ResolveStep::Download,
        Cached::Undated => ResolveStep::Refresh,
        Cached::FetchedAt(t) => if is_stale(Some(t), now) {
            ResolveStep::Refresh
        } else {
            ResolveStep::UseCached
        },
    }
}

/// The template that is taken.
#[derive(Debug)]
pub enum Resolution {
    /// The downloaded one.
    Downloaded,
    /// The cached copy, with a notice where a refresh failed.
    Cached(Option<String>),
    /// The built-in one.
    Embedded,
    /// There is none.
    Missing(String),
}

/// The notice on a refresh that failed.
pub open spec fn refresh_notice(name: Seq<char>, cause: Seq<char>, end: Seq<char>) -> Seq<char> {
    "texforge: could not refresh template '"@ + name + "' ("@ + cause + "); "@ + end
}

/// Whether a resolution follows from the first step and from how the download went.
pub open spec fn resolves(
    name: Seq<char>,
    step: ResolveStep,
    downloaded: Result<(), Seq<char>>,
    r: Resolution,
) -> bool {
    match (step, downloaded) {
        (ResolveStep::UseCached, _) => r matches Resolution::Cached(None),
        (_, Ok(_)) => r is Downloaded,
        (ResolveStep::Refresh, Err(e)) => r matches Resolution::Cached(Some(m)) && m@
            == refresh_notice(name, e, "using cached copy"@),
        (ResolveStep::Download, Err(_)) => if name == "general"@ {
            r is Embedded
        } else {
            r matches Resolution::Missing(m) && m@ == "Template '"@ + name
                + "' not found. Run 'texforge template add "@ + name + "' first."@
        },
    }
}

/// What a result says.
pub open spec fn outcome(r: Result<(), String>) -> Result<(), Seq<char>> {
    match r {
        Ok(_) => Ok(()),
        Err(e) => Err(e@),
    }
}

/// The template that is taken, given how the download went where there was one. Offline
/// the built-in template is still there.
pub fn resolve(name: &str, step: ResolveStep, downloaded: Result<(), String>) -> (r: Resolution)
    ensures
        resolves(name@, step, outcome(downloaded), r),
{
    match (step, downloaded) {
        (ResolveStep::UseCached, _) => Resolution::Cached(None),
        (ResolveStep::Refresh, Ok(_)) => Resolution::Downloaded,
        (ResolveStep::Download, Ok(_)) => Resolution::Downloaded,
        (ResolveStep::Refresh, Err(e)) => {
            let mut m = text::cat5(
                "texforge: could not refresh template '",
                name,
                "' (",
                e.as_str(),
                "); ",
            );
            text::push(&mut m, "using cached copy");
            Resolution::Cached(Some(m))
        },
        (ResolveStep::Download, Err(_)) => if text::same_str(name, "general") {
            Resolution::Embedded
        } else {
            Resolution::Missing(
                text::cat5(
                    "Template '",
                    name,
                    "' not found. Run 'texforge template add ",
                    name,
                    "' first.",
                ),
            )
        },
    }
}

/// A fresh cache is served without the network, whatever a download would have given.
pub proof fn law_fresh_cache_needs_no_network(
    name: Seq<char>,
    t: u64,
    now: u64,
    downloaded: Result<(), Seq<char>>,
    r: Resolution,
)
    requires
        !stale(Some(t), now),
        resolves(name, first_step(Cached::FetchedAt(t), now), downloaded, r),
    ensures
        r matches Resolution::Cached(None),
{
}

/// A cached template is never lost to a failed refresh, and the built-in template resolves
/// always.
pub proof fn law_resolution_degrades_gently(
    name: Seq<char>,
    cached: Cached,
    now: u64,
    downloaded: Result<(), Seq<char>>,
    r: Resolution,
)
    requires
        resolves(name, first_step(cached, now), downloaded, r),
        !(cached is Nothing) || name == "general"@,
    ensures
        !(r is Missing),
{
}

/// How a forced refresh ends.
#[derive(Debug)]
pub enum RefreshEnd {
    /// The template was downloaded.
    Done,
    /// The download failed and the cached copy was kept; the notice says so.
    Kept(String),
    /// The download failed and there was no cached copy.
    Failed(String),
}

/// Force-refresh a single template: where the download fails, a cached copy is kept.
pub fn refresh(name: &str, had_cache: bool, downloaded: Result<(), String>) -> (r: RefreshEnd)
    ensures
        match outcome(downloaded) {
            Ok(_) => r is Done,
            Err(e) => if had_cache {
                r matches RefreshEnd::Kept(m) && m@ == refresh_notice(
                    name@,
                    e,
                    "keeping cached copy"@,
                )
            } else {
                r matches RefreshEnd::Failed(m) && m@ == e
            },
        },
{
    match downloaded {
        Ok(_) => RefreshEnd::Done,
        Err(e) => if had_cache {
            let mut m = text::cat5(
                "texforge: could not refresh template '",
                name,
                "' (",
                e.as_str(),
                "); ",
            );
            text::push(&mut m, "keeping cached copy");
            RefreshEnd::Kept(m)
        } else {
            RefreshEnd::Failed(e)
        },
    }
}

// ---------------------------------------------------------------------------
// The registry
// ---------------------------------------------------------------------------

/// The address of the archive of the registry.
pub fn tarball_url() -> (r: String)
    ensures
        r@ == "https://api.github.com/repos/"@ + REGISTRY_REPO@ + "/tarball/main"@,
{
    text::cat3("https://api.github.com/repos/", REGISTRY_REPO, "/tarball/main")
}

/// The address that lists the registry.
pub fn contents_url() -> (r: String)
    ensures
        r@ == "https://api.github.com/repos/"@ + REGISTRY_REPO@ + "/contents"@,
{
    text::cat3("https://api.github.com/repos/", REGISTRY_REPO, "/contents")
}

/// The path of an entry inside a template: the archive has one directory at its top, and
/// a template is a directory in that. Directories belong to no template.
pub open spec fn path_in_template(path: Seq<char>, is_dir: bool, name: Seq<char>) -> Option<
    Seq<char>,
> {
    match text::find_char(path, '/') {
        Some(k) => {
            let inner = path.skip(k + 1);
            let prefix = name + "/"@;
            if text::starts_with(inner, prefix) && inner.len() > prefix.len() && !is_dir {
                Some(inner.skip(prefix.len() as int))
            } else {
                None
            }
        },
        None => None,
    }
}

/// What is taken out of the archive of a registry, up to where it cannot be read on.
#[verifier::ext_equal]
pub struct DownloadView {
    pub files: Seq<(Seq<char>, Seq<u8>)>,
    pub fault: Option<Seq<char>>,
}

/// The files of a template among the first `k` entries of an archive, given what each of
/// them holds. An entry that cannot be read ends it.
pub open spec fn taken(
    entries: Seq<EntryView>,
    contents: spec_fn(int) -> Result<Seq<u8>, Seq<char>>,
    name: Seq<char>,
    k: int,
) -> DownloadView
    decreases k,
{
    if k <= 0 || k > entries.len() {
        DownloadView { files: Seq::empty(), fault: None }
    } else {
        let before = taken(entries, contents, name, k - 1);
        match (before.fault, path_in_template(
            entries[k - 1].path,
            entries[k - 1].tag == archives::DIRECTORY,
            name,
        )) {
            (None, Some(rel)) => match contents(k - 1) {
                Ok(c) => DownloadView { files: with_file(before.files, rel, c), fault: None },
                Err(m) => DownloadView { fault: Some(m), ..before },
            },
            _ => before,
        }
    }
}

/// What is taken out of an archive: the files of the template, and why the download
/// fails, where an entry or the archive cannot be read, or the template is not there.
pub open spec fn downloaded(
    l: ListingView,
    contents: spec_fn(int) -> Result<Seq<u8>, Seq<char>>,
    name: Seq<char>,
) -> DownloadView {
    let t = taken(l.entries, contents, name, l.entries.len() as int);
    DownloadView {
        files: t.files,
        fault: match (t.fault, l.fault) {
            (Some(m), _) => Some(m),
            (None, Some(m)) => Some(m),
            (None, None) => if t.files.len() == 0 {
                Some("Template '"@ + name + "' not found in registry"@)
            } else {
                None
            },
        },
    }
}

/// What is taken out of the archive of a registry. The files are there up to the fault.
#[derive(Debug)]
pub struct Download {
    pub files: FileMap,
    pub fault: Option<String>,
}

impl View for Download {
    type V = DownloadView;

    open spec fn view(&self) -> DownloadView {
        DownloadView { files: self.files@, fault: text::opt_text(self.fault) }
    }
}

/// The path of an entry inside a template.
pub fn template_path(path: &str, is_dir: bool, name: &str) -> (r: Option<String>)
    ensures
        text::opt_text(r) == path_in_template(path@, is_dir, name@),
{
    let c = chars_of(path);
    let all = c.as_slice();
    let n: usize = all.len();
    proof {
        text::lemma_find_char_bounds(path@, '/', 0);
    }
    match text::find_ch(all, '/') {
        Some(k) => {
            let inner = text::from(all, k + 1);
            let prefix = chars_of(text::cat2(name, "/").as_str());
            if text::stands_at(inner, 0, prefix.as_slice()) && inner.len() > prefix.len()
                && !is_dir {
                Some(string_of(text::from(inner, prefix.len())))
            } else {
                None
            }
        },
        None => None,
    }
}

/// How an entry of an archive ends up in a download, given what it holds.
fn take_entry(d: &mut Download, rel: String, content: Result<Vec<u8>, String>)
    requires
        old(d)@.fault is None,
    ensures
        final(d)@ == match archives::content_view(content) {
            Ok(c) => DownloadView { files: with_file(old(d)@.files, rel@, c), fault: None },
            Err(m) => DownloadView { fault: Some(m), ..old(d)@ },
        },
{
    match content {
        Ok(c) => {
            d.files.insert(rel, c);
        },
        Err(m) => {
            d.fault = Some(m);
        },
    }
}

/// The end of a download, given the fault of the archive.
fn finish(d: Download, l: &Listing, name: &str) -> (r: Download)
    ensures
        r@.files == d@.files,
        r@.fault == match (d@.fault, l@.fault) {
            (Some(m), _) => Some(m),
            (None, Some(m)) => Some(m),
            (None, None) => if d@.files.len() == 0 {
                Some("Template '"@ + name@ + "' not found in registry"@)
            } else {
                None
            },
        },
{
    if d.fault.is_some() {
        return d;
    }
    let fault = match &l.fault {
        Some(m) => Some(text::lit(m.as_str())),
        None => if d.files.is_empty() {
            Some(text::cat3("Template '", name, "' not found in registry"))
        } else {
            None
        },
    };
    Download { files: d.files, fault }
}

/// What a row of contents says.
pub open spec fn given(v: Seq<Result<Vec<u8>, String>>) -> spec_fn(int) -> Result<
    Seq<u8>,
    Seq<char>,
> {
    |k: int| archives::content_view(v[k])
}

/// Takes the files of a template out of the listed entries of an archive, given what each
/// of them holds.
pub fn template_files(
    l: &Listing,
    contents: Vec<Result<Vec<u8>, String>>,
    name: &str,
) -> (r: Download)
    requires
        contents@.len() == l.entries@.len(),
    ensures
        r@ == downloaded(l@, given(contents@), name@),
{
    let ghost all = archives::entry_views(l.entries@);
    let ghost what = given(contents@);
    let mut contents = contents;
    let ghost whole = contents@;
    let mut d = Download { files: FileMap::new(), fault: None };
    let mut k: usize = 0;
    let n: usize = l.entries.len();
    assert(d@ =~= taken(all, what, name@, 0));
    while k < n
        invariant
            k <= n == l.entries@.len() == whole.len(),
            all == archives::entry_views(l.entries@),
            what == given(whole),
            contents@ == whole.skip(k as int),
            d@ == taken(all, what, name@, k as int),
        decreases n - k,
    {
        assert(all[k as int] == l.entries@[k as int]@);
        let content = contents.remove(0);
        assert(content == whole[k as int]);
        assert(contents@ =~= whole.skip(k + 1));
        let e = &l.entries[k];
        if d.fault.is_none() {
            if let Some(rel) = template_path(e.path.as_str(), e.tag == archives::DIRECTORY, name) {
                take_entry(&mut d, rel, content);
            }
        }
        assert(d@ =~= taken(all, what, name@, k + 1));
        k = k + 1;
    }
    let r = finish(d, l, name);
    assert(r@ =~= downloaded(l@, what, name@));
    r
}

/// What the entries of a gzipped tar archive hold.
pub open spec fn tarball_contents(bytes: Seq<u8>) -> spec_fn(int) -> Result<Seq<u8>, Seq<char>> {
    |k: int| archives::tar_gz_content(bytes, k)
}

/// Takes the files of a template out of the archive of the registry.
pub fn download(bytes: &[u8], name: &str) -> (r: Download)
    ensures
        r@ == downloaded(archives::tar_gz_listing(bytes@), tarball_contents(bytes@), name@),
{
    let l = archives::list_tar_gz(bytes);
    let ghost all = archives::entry_views(l.entries@);
    let ghost what = tarball_contents(bytes@);
    let mut d = Download { files: FileMap::new(), fault: None };
    let mut k: usize = 0;
    assert(d@ =~= taken(all, what, name@, 0));
    while k < l.entries.len()
        invariant
            k <= l.entries@.len(),
            all == archives::entry_views(l.entries@),
            what == tarball_contents(bytes@),
            d@ == taken(all, what, name@, k as int),
        decreases l.entries@.len() - k,
    {
        assert(all[k as int] == l.entries@[k as int]@);
        let e = &l.entries[k];
        if d.fault.is_none() {
            if let Some(rel) = template_path(e.path.as_str(), e.tag == archives::DIRECTORY, name) {
                take_entry(&mut d, rel, archives::read_tar_gz(bytes, k));
            }
        }
        assert(d@ =~= taken(all, what, name@, k + 1));
        k = k + 1;
    }
    let r = finish(d, &l, name);
    assert(r@ =~= downloaded(archives::tar_gz_listing(bytes@), what, name@));
    r
}

proof fn lemma_file_index(files: Seq<(Seq<char>, Seq<u8>)>, path: Seq<char>, k: int)
    requires
        0 <= k,
    ensures
        match file_index(files, path, k) {
            Some(i) => k <= i < files.len() && files[i].0 == path,
            None => forall|i: int| k <= i < files.len() ==> (#[trigger] files[i]).0 != path,
        },
    decreases files.len() - k,
{
    if k < files.len() && files[k].0 != path {
        lemma_file_index(files, path, k + 1);
    }
}

/// Whether no path comes twice.
pub open spec fn distinct_files(files: Seq<(Seq<char>, Seq<u8>)>) -> bool {
    forall|i: int, j: int|
        0 <= i < j < files.len() ==> (#[trigger] files[i]).0 != (#[trigger] files[j]).0
}

/// What is put can be read back, no other file changes, and no path comes twice.
pub proof fn law_insert_then_get(
    files: Seq<(Seq<char>, Seq<u8>)>,
    path: Seq<char>,
    content: Seq<u8>,
    other: Seq<char>,
)
    requires
        distinct_files(files),
    ensures
        content_of(with_file(files, path, content), path) == Some(content),
        other != path ==> content_of(with_file(files, path, content), other) == content_of(
            files,
            other,
        ),
        distinct_files(with_file(files, path, content)),
{
    let t = with_file(files, path, content);
    lemma_file_index(files, path, 0);
    lemma_file_index(files, other, 0);
    lemma_file_index(t, path, 0);
    lemma_file_index(t, other, 0);
    match file_index(files, path, 0) {
        Some(k) => {
            assert(t[k] == (path, content));
            assert(file_index(t, path, 0) is Some);
            if other != path {
                match file_index(files, other, 0) {
                    Some(i) => {
                        assert(t[i] == files[i]);
                    },
                    None => {
                        match file_index(t, other, 0) {
                            Some(i) => {
                                assert(t[i] == files[i]);
                            },
                            None => {},
                        }
                    },
                }
            }
        },
        None => {
            assert(t[files.len() as int] == (path, content));
            if other != path {
                match file_index(files, other, 0) {
                    Some(i) => {
                        assert(t[i] == files[i]);
                    },
                    None => {
                        match file_index(t, other, 0) {
                            Some(i) => {
                                assert(t[i] == files[i]);
                            },
                            None => {},
                        }
                    },
                }
            }
        },
    }
}

// ---------------------------------------------------------------------------
// Lists
// ---------------------------------------------------------------------------

/// An entry of the list of the registry.
#[derive(Debug)]
pub struct RegistryEntry {
    pub name: String,
    pub kind: String,
}

/// The names of the directories among the entries from the `k`-th on.
pub open spec fn directory_names(entries: Seq<(Seq<char>, Seq<char>)>, k: int) -> Seq<Seq<char>>
    decreases entries.len() - k,
{
    if k < 0 || k >= entries.len() {
        Seq::empty()
    } else if entries[k].1 == "dir"@ {
        seq![entries[k].0] + directory_names(entries, k + 1)
    } else {
        directory_names(entries, k + 1)
    }
}

/// What entries of the registry say: each name with its kind.
pub open spec fn registry_views(v: Seq<RegistryEntry>) -> Seq<(Seq<char>, Seq<char>)> {
    Seq::new(v.len(), |k: int| (v[k].name@, v[k].kind@))
}

/// The templates of the registry, given its list: the directories, sorted.
pub fn list_remote(entries: &Vec<RegistryEntry>) -> (r: Vec<String>)
    ensures
        text::texts(r@) == order::sorted(directory_names(registry_views(entries@), 0)),
{
    let ghost all = registry_views(entries@);
    let mut names: Vec<String> = Vec::new();
    let mut k: usize = 0;
    assert(text::texts(names@) + directory_names(all, 0) =~= directory_names(all, 0));
    while k < entries.len()
        invariant
            k <= entries@.len(),
            all == registry_views(entries@),
            text::texts(names@) + directory_names(all, k as int) == directory_names(all, 0),
        decreases entries@.len() - k,
    {
        assert(all[k as int] == (entries@[k as int].name@, entries@[k as int].kind@));
        if text::same_str(entries[k].kind.as_str(), "dir") {
            let ghost done = text::texts(names@);
            names.push(text::lit(entries[k].name.as_str()));
            assert(done + (seq![all[k as int].0] + directory_names(all, k + 1)) =~= text::texts(
                names@,
            ) + directory_names(all, k + 1));
        }
        k = k + 1;
    }
    assert(text::texts(names@) + directory_names(all, k as int) =~= text::texts(names@));
    order::sort(&names)
}

/// The cached templates, given the directories of the cache: sorted.
pub fn list_cached(directories: &Vec<String>) -> (r: Vec<String>)
    ensures
        text::texts(r@) == order::sorted(text::texts(directories@)),
{
    order::sort(directories)
}

/// Whether a cached template can be removed: it must be there.
pub fn remove_cached(name: &str, is_cached: bool) -> (r: Result<(), String>)
    ensures
        match r {
            Ok(_) => is_cached,
            Err(m) => !is_cached && m@ == "Template '"@ + name@ + "' is not installed"@,
        },
{
    if is_cached {
        Ok(())
    } else {
        Err(text::cat3("Template '", name, "' is not installed"))
    }
}

/// The files of a cached template among the first `k` files of its directory.
pub open spec fn cached_files(files: Seq<(Seq<char>, Seq<u8>)>, k: int) -> Seq<
    (Seq<char>, Seq<u8>),
>
    decreases k,
{
    if k <= 0 || k > files.len() {
        Seq::empty()
    } else if files[k - 1].0 != CACHE_META_FILE@ {
        with_file(cached_files(files, k - 1), files[k - 1].0, files[k - 1].1)
    } else {
        cached_files(files, k - 1)
    }
}

/// The template that the files of a directory make up, given their relative paths and
/// contents: all but the file that says when it was fetched.
pub fn load_dir_recursive(files: Vec<(String, Vec<u8>)>) -> (r: ResolvedTemplate)
    ensures
        r.files@ == cached_files(file_views(files@), files@.len() as int),
{
    let ghost all = file_views(files@);
    let ghost whole = files@;
    let mut files = files;
    let mut out = FileMap::new();
    let n: usize = files.len();
    let mut k: usize = 0;
    while k < n
        invariant
            k <= n == whole.len(),
            all == file_views(whole),
            files@ == whole.skip(k as int),
            out@ == cached_files(all, k as int),
        decreases n - k,
    {
        let (path, content) = files.remove(0);
        assert(all[k as int] == (path@, content@));
        assert(files@ =~= whole.skip(k + 1));
        if belongs_to_template(path.as_str()) {
            out.insert(path, content);
        }
        k = k + 1;
    }
    ResolvedTemplate { files: out }
}

/// Whether a file in the directory of a cached template belongs to the template: all but
/// the file that says when it was fetched.
pub fn belongs_to_template(rel: &str) -> (r: bool)
    ensures
        r == (rel@ != CACHE_META_FILE@),
{
    !text::same_str(rel, CACHE_META_FILE)
}

} // verus!
