//! Detecting newer releases, and taking the binary out of a release archive.

use vstd::prelude::*;

use crate::archives::{self, EntryView, ListedEntry, Listing, ListingView};
use crate::paths;
use crate::text::{self, chars_of};
use crate::version::{self, SemVer, VersionView};

verus! {

/// The version of this program.
pub const VERSION: &'static str = "0.1.0";

/// A release as the registry lists it.
#[derive(Debug)]
pub struct GitHubRelease {
    pub tag_name: String,
    pub prerelease: bool,
    pub draft: bool,
}

/// What a [`GitHubRelease`] says.
pub struct ReleaseView {
    pub tag_name: Seq<char>,
    pub prerelease: bool,
    pub draft: bool,
}

impl View for GitHubRelease {
    type V = ReleaseView;

    open spec fn view(&self) -> ReleaseView {
        ReleaseView {
            tag_name: self.tag_name@,
            prerelease: self.prerelease,
            draft: self.draft,
        }
    }
}

/// What a sequence of releases says.
pub open spec fn release_views(v: Seq<GitHubRelease>) -> Seq<ReleaseView> {
    Seq::new(v.len(), |k: int| v[k]@)
}

/// What an optional version says.
pub open spec fn opt_version(v: Option<SemVer>) -> Option<VersionView> {
    match v {
        Some(x) => Some(x@),
        None => None,
    }
}

/// The version of a release, where it is published and its tag names one.
pub open spec fn published(r: ReleaseView) -> Option<VersionView> {
    if r.draft || r.prerelease {
        None
    } else {
        version::parsed_version(text::trim_start_char(r.tag_name, 'v'))
    }
}

/// The first published version among the releases from the `k`-th on.
pub open spec fn first_published(rs: Seq<ReleaseView>, k: int) -> Option<VersionView>
    decreases rs.len() - k,
{
    if k < 0 || k >= rs.len() {
        None
    } else {
        match published(rs[k]) {
            Some(v) => Some(v),
            None => first_published(rs, k + 1),
        }
    }
}

/// The latest stable release of a list that begins with the latest one: drafts,
/// prereleases and tags that name no version are skipped.
pub fn latest_stable_release(releases: &Vec<GitHubRelease>) -> (r: Option<SemVer>)
    ensures
        opt_version(r) == first_published(release_views(releases@), 0),
{
    let ghost all = release_views(releases@);
    let mut k: usize = 0;
    while k < releases.len()
        invariant
            k <= releases@.len(),
            all == release_views(releases@),
            first_published(all, 0) == first_published(all, k as int),
        decreases releases@.len() - k,
    {
        assert(all[k as int] == releases@[k as int]@);
        let r = &releases[k];
        if !r.draft && !r.prerelease {
            let c = text::chars_of(r.tag_name.as_str());
            let tag = text::string_of(text::trimmed_start_char(c.as_slice(), 'v'));
            if let Some(v) = SemVer::parse(tag.as_str()) {
                return Some(v);
            }
        }
        k = k + 1;
    }
    None
}

/// Version check result.
#[derive(Debug, Clone)]
pub struct VersionCheckResult {
    pub local_version: SemVer,
    pub latest_stable: Option<SemVer>,
    pub update_available: bool,
}

/// Check for a newer stable version: an update is there where the latest stable release
/// is newer than the local version.
pub fn check_for_updates(local: SemVer, releases: &Vec<GitHubRelease>) -> (r: VersionCheckResult)
    ensures
        r.local_version == local,
        opt_version(r.latest_stable) == first_published(release_views(releases@), 0),
        r.update_available == match first_published(release_views(releases@), 0) {
            Some(remote) => version::is_older(local@, remote),
            None => false,
        },
{
    let latest_stable = latest_stable_release(releases);
    let update_available = match &latest_stable {
        Some(remote) => remote.is_newer_than(&local),
        None => false,
    };
    VersionCheckResult { local_version: local, latest_stable, update_available }
}

/// The version of this program.
pub fn get_local_version() -> (r: Result<SemVer, String>)
    ensures
        match r {
            Ok(v) => version::parsed_version(VERSION@) == Some(v@),
            Err(m) => version::parsed_version(VERSION@) is None && m@
                == "Failed to parse local version: "@ + VERSION@,
        },
{
    match SemVer::parse(VERSION) {
        Some(v) => Ok(v),
        None => Err(text::cat2("Failed to parse local version: ", VERSION)),
    }
}

/// The address that lists the releases of a repository.
pub fn releases_url(owner: &str, repo: &str) -> (r: String)
    ensures
        r@ == "https://api.github.com/repos/"@ + owner@ + "/"@ + repo@ + "/releases"@,
{
    text::cat5("https://api.github.com/repos/", owner, "/", repo, "/releases")
}

/// The target triple of a platform and the ending of its archives.
pub open spec fn target_of(os: Seq<char>, arch: Seq<char>) -> (Seq<char>, Seq<char>) {
    if os == "linux"@ && arch == "x86_64"@ {
        ("x86_64-unknown-linux-musl"@, "tar.gz"@)
    } else if os == "linux"@ && arch == "aarch64"@ {
        ("aarch64-unknown-linux-musl"@, "tar.gz"@)
    } else if os == "macos"@ && arch == "x86_64"@ {
        ("x86_64-apple-darwin"@, "tar.gz"@)
    } else if os == "macos"@ && arch == "aarch64"@ {
        ("aarch64-apple-darwin"@, "tar.gz"@)
    } else if os == "windows"@ && arch == "x86_64"@ {
        ("x86_64-pc-windows-msvc"@, "zip"@)
    } else {
        ("unknown"@, "tar.gz"@)
    }
}

/// The target triple that releases are built for on a platform, and the ending of the
/// archive.
pub fn release_target(os: &str, arch: &str) -> (r: (&'static str, &'static str))
    ensures
        (r.0@, r.1@) == target_of(os@, arch@),
{
    let x86 = text::same_str(arch, "x86_64");
    let arm = text::same_str(arch, "aarch64");
    if text::same_str(os, "linux") && x86 {
        ("x86_64-unknown-linux-musl", "tar.gz")
    } else if text::same_str(os, "linux") && arm {
        ("aarch64-unknown-linux-musl", "tar.gz")
    } else if text::same_str(os, "macos") && x86 {
        ("x86_64-apple-darwin", "tar.gz")
    } else if text::same_str(os, "macos") && arm {
        ("aarch64-apple-darwin", "tar.gz")
    } else if text::same_str(os, "windows") && x86 {
        ("x86_64-pc-windows-msvc", "zip")
    } else {
        ("unknown", "tar.gz")
    }
}

/// The architecture that a machine counts as; none where it is not known.
pub open spec fn architecture_of(arch: Seq<char>) -> Option<Seq<char>> {
    if arch == "x86_64"@ || arch == "aarch64"@ || arch == "arm"@ {
        Some(arch)
    } else {
        None
    }
}

/// The name of an architecture that is known, given that of the machine.
pub fn get_architecture(arch: &str) -> (r: Option<&'static str>)
    ensures
        text::opt_str(r) == architecture_of(arch@),
{
    if text::same_str(arch, "x86_64") {
        Some("x86_64")
    } else if text::same_str(arch, "aarch64") {
        Some("aarch64")
    } else if text::same_str(arch, "arm") {
        Some("arm")
    } else {
        None
    }
}

/// The operating system that a machine counts as.
pub open spec fn os_of(os: Seq<char>) -> Seq<char> {
    if os == "linux"@ || os == "macos"@ || os == "windows"@ {
        os
    } else {
        "unknown"@
    }
}

/// The name of an operating system, given that of the machine; `unknown` for one that is
/// not known.
pub fn get_os(os: &str) -> (r: &'static str)
    ensures
        r@ == os_of(os@),
{
    if text::same_str(os, "linux") {
        "linux"
    } else if text::same_str(os, "macos") {
        "macos"
    } else if text::same_str(os, "windows") {
        "windows"
    } else {
        "unknown"
    }
}

/// The address of the archive of a release: the tag is the version behind a `v`, and the
/// archive is named `<repo>-v<version>-<target>.<ending>`.
pub open spec fn download_url(
    owner: Seq<char>,
    repo: Seq<char>,
    v: VersionView,
    target: (Seq<char>, Seq<char>),
) -> Seq<char> {
    let shown = version::version_text(v);
    "https://github.com/"@ + owner + "/"@ + repo + "/releases/download/v"@ + shown + "/"@ + repo
        + "-v"@ + shown + "-"@ + target.0 + "."@ + target.1
}

/// Get the download URL of a release for a platform.
pub fn get_release_download_url(
    owner: &str,
    repo: &str,
    version: &SemVer,
    os: &str,
    arch: &str,
) -> (r: String)
    ensures
        r@ == download_url(owner@, repo@, version@, target_of(os@, arch@)),
{
    let (target, ext) = release_target(os, arch);
    let shown = version.to_string();
    let mut out = text::cat5("https://github.com/", owner, "/", repo, "/releases/download/v");
    text::push(&mut out, shown.as_str());
    text::push(&mut out, "/");
    text::push(&mut out, repo);
    text::push(&mut out, "-v");
    text::push(&mut out, shown.as_str());
    text::push(&mut out, "-");
    text::push(&mut out, target);
    text::push(&mut out, ".");
    text::push(&mut out, ext);
    out
}

// ---------------------------------------------------------------------------
// Installs managed by cargo
// ---------------------------------------------------------------------------

/// What decides where `cargo install` places binaries.
pub struct CargoRootEnv {
    pub install_root: Option<String>,
    pub cargo_home: Option<String>,
    pub home: Option<String>,
}

/// Where `cargo install` places binaries: the install root wins over the home of cargo,
/// which wins over `.cargo` in the home directory.
pub open spec fn cargo_bin(
    install_root: Option<Seq<char>>,
    cargo_home: Option<Seq<char>>,
    home: Option<Seq<char>>,
) -> Option<Seq<char>> {
    match (install_root, cargo_home, home) {
        (Some(r), _, _) => Some(paths::joined(r, "bin"@)),
        (None, Some(c), _) => Some(paths::joined(c, "bin"@)),
        (None, None, Some(h)) => Some(paths::joined(paths::joined(h, ".cargo"@), "bin"@)),
        (None, None, None) => None,
    }
}

/// Where `cargo install` places binaries.
pub fn resolve_cargo_bin_dir(env: &CargoRootEnv) -> (r: Option<String>)
    ensures
        text::opt_text(r) == cargo_bin(
            text::opt_text(env.install_root),
            text::opt_text(env.cargo_home),
            text::opt_text(env.home),
        ),
{
    if let Some(root) = &env.install_root {
        return Some(paths::join(root.as_str(), "bin"));
    }
    if let Some(home) = &env.cargo_home {
        return Some(paths::join(home.as_str(), "bin"));
    }
    match &env.home {
        Some(h) => Some(paths::join(paths::join(h.as_str(), ".cargo").as_str(), "bin")),
        None => None,
    }
}

/// Whether a binary lies inside the directory of cargo, both given as resolved paths. A
/// path that cannot be resolved counts as not managed.
pub fn is_cargo_managed(exe: Option<&str>, cargo_bin: Option<&str>) -> (r: bool)
    ensures
        r == match (exe, cargo_bin) {
            (Some(e), Some(b)) => paths::is_under(e@, b@),
            _ => false,
        },
{
    match (exe, cargo_bin) {
        (Some(e), Some(b)) => paths::under(e, b),
        _ => false,
    }
}

// ---------------------------------------------------------------------------
// Extraction
// ---------------------------------------------------------------------------

/// The first entry from the `k`-th on whose file name is `bin`.
pub open spec fn binary_at(entries: Seq<EntryView>, bin: Seq<char>, k: int) -> Option<int>
    decreases entries.len() - k,
{
    if k < 0 || k >= entries.len() {
        None
    } else if paths::file_name(entries[k].path) == Some(bin) {
        Some(k)
    } else {
        binary_at(entries, bin, k + 1)
    }
}

/// The entry to take, or why there is none. An entry before the fault of an archive can
/// be taken.
pub open spec fn choice(l: ListingView, bin: Seq<char>) -> Result<int, Seq<char>> {
    match binary_at(l.entries, bin, 0) {
        Some(k) => Ok(k),
        None => match l.fault {
            Some(_) => Err("failed to read archive entry"@),
            None => Err("binary '"@ + bin + "' not found in downloaded archive"@),
        },
    }
}

/// The entry of an archive that holds the binary, or why there is none.
pub fn choose_binary(l: &Listing, bin: &str) -> (r: Result<usize, String>)
    ensures
        match r {
            Ok(k) => k < l.entries@.len() && choice(l@, bin@) == Ok::<int, Seq<char>>(k as int),
            Err(m) => choice(l@, bin@) == Err::<int, Seq<char>>(m@),
        },
{
    let ghost all = archives::entry_views(l.entries@);
    let mut k: usize = 0;
    while k < l.entries.len()
        invariant
            k <= l.entries@.len(),
            all == archives::entry_views(l.entries@),
            binary_at(all, bin@, 0) == binary_at(all, bin@, k as int),
        decreases l.entries@.len() - k,
    {
        assert(all[k as int] == l.entries@[k as int]@);
        if let Some(name) = paths::file_name_of(l.entries[k].path.as_str()) {
            if text::same_str(name.as_str(), bin) {
                return Ok(k);
            }
        }
        k = k + 1;
    }
    match l.fault {
        Some(_) => Err(text::lit("failed to read archive entry")),
        None => Err(text::cat3("binary '", bin, "' not found in downloaded archive")),
    }
}

/// What a binary is unpacked as.
#[derive(Debug)]
pub enum Unpacked {
    /// A file with these bytes.
    File(Vec<u8>),
    /// A symbolic link to a path.
    SymbolicLink(String),
    /// A hard link to a path.
    HardLink(String),
}

/// What an [`Unpacked`] says.
pub enum UnpackedView {
    File(Seq<u8>),
    SymbolicLink(Seq<char>),
    HardLink(Seq<char>),
}

impl View for Unpacked {
    type V = UnpackedView;

    open spec fn view(&self) -> UnpackedView {
        match self {
            Unpacked::File(b) => UnpackedView::File(b@),
            Unpacked::SymbolicLink(p) => UnpackedView::SymbolicLink(p@),
            Unpacked::HardLink(p) => UnpackedView::HardLink(p@),
        }
    }
}

/// What unpacking gives: a file or a link, or a message.
pub open spec fn unpacked_view(r: Result<Unpacked, String>) -> Result<UnpackedView, Seq<char>> {
    match r {
        Ok(u) => Ok(u@),
        Err(m) => Err(m@),
    }
}

/// Whether a tag marks an entry that only describes others: one of `g`, `x`, `K` and `L`.
pub open spec fn is_note(tag: u8) -> bool {
    tag == 0x67 || tag == 0x78 || tag == 0x4b || tag == 0x4c
}

/// The message on an empty binary.
pub open spec fn empty_binary(bin: Seq<char>) -> Seq<char> {
    "extracted binary '"@ + bin + "' is empty"@
}

/// The binary, given its entry and what that holds. A directory, a link that leads
/// nowhere and an entry that cannot be read are refused, and so is what is empty.
pub open spec fn unpacked(
    e: EntryView,
    content: Result<Seq<u8>, Seq<char>>,
    bin: Seq<char>,
) -> Result<UnpackedView, Seq<char>> {
    let refused = Err("failed to extract binary from archive"@);
    if e.tag == archives::DIRECTORY {
        refused
    } else if e.tag == archives::HARD_LINK || e.tag == archives::SYMBOLIC_LINK {
        match e.link {
            Some(p) => if p.len() == 0 {
                refused
            } else if e.tag == archives::HARD_LINK {
                Ok(UnpackedView::HardLink(p))
            } else {
                Ok(UnpackedView::SymbolicLink(p))
            },
            None => refused,
        }
    } else if is_note(e.tag) {
        Err(empty_binary(bin))
    } else if e.is_old && text::ends_with(e.path, "/"@) {
        refused
    } else {
        match content {
            Ok(b) => if b.len() == 0 {
                Err(empty_binary(bin))
            } else {
                Ok(UnpackedView::File(b))
            },
            Err(_) => refused,
        }
    }
}

/// The binary, given its entry and what that holds.
pub fn unpack(e: &ListedEntry, content: Result<Vec<u8>, String>, bin: &str) -> (r: Result<
    Unpacked,
    String,
>)
    ensures
        unpacked_view(r) == unpacked(e@, archives::content_view(content), bin@),
{
    if e.tag == archives::DIRECTORY {
        return Err(text::lit("failed to extract binary from archive"));
    }
    if e.tag == archives::HARD_LINK || e.tag == archives::SYMBOLIC_LINK {
        return match &e.link {
            Some(p) => if chars_of(p.as_str()).len() == 0 {
                Err(text::lit("failed to extract binary from archive"))
            } else if e.tag == archives::HARD_LINK {
                Ok(Unpacked::HardLink(text::lit(p.as_str())))
            } else {
                Ok(Unpacked::SymbolicLink(text::lit(p.as_str())))
            },
            None => Err(text::lit("failed to extract binary from archive")),
        };
    }
    if e.tag == 0x67 || e.tag == 0x78 || e.tag == 0x4b || e.tag == 0x4c {
        return Err(text::cat3("extracted binary '", bin, "' is empty"));
    }
    if e.is_old && text::ends(chars_of(e.path.as_str()).as_slice(), "/") {
        return Err(text::lit("failed to extract binary from archive"));
    }
    match content {
        Ok(b) => if b.len() == 0 {
            Err(text::cat3("extracted binary '", bin, "' is empty"))
        } else {
            Ok(Unpacked::File(b))
        },
        Err(_) => Err(text::lit("failed to extract binary from archive")),
    }
}

/// What a link leads to is checked once it is in place, given its size: one that leads
/// nowhere or to an empty file is refused.
pub fn check_size(size: Option<u64>, bin: &str) -> (r: Result<(), String>)
    ensures
        match size {
            Some(n) => if n == 0 {
                r is Err && r->Err_0@ == empty_binary(bin@)
            } else {
                r is Ok
            },
            None => r is Err && r->Err_0@ == "failed to read extracted binary metadata"@,
        },
{
    match size {
        Some(n) => if n == 0 {
            Err(text::cat3("extracted binary '", bin, "' is empty"))
        } else {
            Ok(())
        },
        None => Err(text::lit("failed to read extracted binary metadata")),
    }
}

/// Takes the binary named `bin` out of a gzipped tar archive. A missing or empty entry
/// is refused, so that a truncated download never replaces anything.
pub fn extract_binary_from_tar_gz(bytes: &[u8], bin: &str) -> (r: Result<Unpacked, String>)
    ensures
        unpacked_view(r) == match choice(archives::tar_gz_listing(bytes@), bin@) {
            Ok(k) => unpacked(
                archives::tar_gz_listing(bytes@).entries[k],
                archives::tar_gz_content(bytes@, k),
                bin@,
            ),
            Err(m) => Err(m),
        },
{
    let listing = archives::list_tar_gz(bytes);
    match choose_binary(&listing, bin) {
        Ok(k) => {
            assert(listing@.entries[k as int] == listing.entries@[k as int]@);
            unpack(&listing.entries[k], archives::read_tar_gz(bytes, k), bin)
        },
        Err(m) => Err(m),
    }
}

/// A file that is taken out of an archive is never empty, and holds what its entry does.
pub proof fn law_extracted_binary_is_not_empty(
    e: EntryView,
    content: Result<Seq<u8>, Seq<char>>,
    bin: Seq<char>,
)
    ensures
        unpacked(e, content, bin) matches Ok(UnpackedView::File(b)) ==> b.len() > 0 && content
            == Ok::<Seq<u8>, Seq<char>>(b),
{
}

} // verus!
