//! Archives in memory: which entries they list, and what an entry holds.

use vstd::prelude::*;

use crate::text;

verus! {

/// The tag of a hard link in a tar archive.
pub const HARD_LINK: u8 = 0x31;

/// The tag of a symbolic link.
pub const SYMBOLIC_LINK: u8 = 0x32;

/// The tag of a directory.
pub const DIRECTORY: u8 = 0x35;

/// The tag of a file.
pub const FILE: u8 = 0x30;

/// One entry of an archive.
pub struct ListedEntry {
    pub path: String,
    /// The byte that tells files, directories and links apart.
    pub tag: u8,
    /// What a link leads to.
    pub link: Option<String>,
    /// Whether the entry has a header of the oldest kind, in which a slash at the end of
    /// the path marks a directory.
    pub is_old: bool,
}

/// The entries of an archive, up to the fault where it cannot be read on.
pub struct Listing {
    pub entries: Vec<ListedEntry>,
    pub fault: Option<String>,
}

/// What a [`ListedEntry`] says.
pub struct EntryView {
    pub path: Seq<char>,
    pub tag: u8,
    pub link: Option<Seq<char>>,
    pub is_old: bool,
}

/// What a [`Listing`] says.
pub struct ListingView {
    pub entries: Seq<EntryView>,
    pub fault: Option<Seq<char>>,
}

impl View for ListedEntry {
    type V = EntryView;

    open spec fn view(&self) -> EntryView {
        EntryView {
            path: self.path@,
            tag: self.tag,
            link: text::opt_text(self.link),
            is_old: self.is_old,
        }
    }
}

/// What a sequence of entries says.
pub open spec fn entry_views(v: Seq<ListedEntry>) -> Seq<EntryView> {
    Seq::new(v.len(), |k: int| v[k]@)
}

impl View for Listing {
    type V = ListingView;

    open spec fn view(&self) -> ListingView {
        ListingView { entries: entry_views(self.entries@), fault: text::opt_text(self.fault) }
    }
}

/// What reading an entry gives: its bytes, or a message.
pub open spec fn content_view(r: Result<Vec<u8>, String>) -> Result<Seq<u8>, Seq<char>> {
    match r {
        Ok(v) => Ok(v@),
        Err(e) => Err(e@),
    }
}

/// The entries that a gzipped tar archive lists.
pub uninterp spec fn tar_gz_listing(bytes: Seq<u8>) -> ListingView;

/// What the `k`-th entry of a gzipped tar archive holds.
pub uninterp spec fn tar_gz_content(bytes: Seq<u8>, k: int) -> Result<Seq<u8>, Seq<char>>;

/// The entries that a zip archive lists.
pub uninterp spec fn zip_listing(bytes: Seq<u8>) -> ListingView;

/// What the `k`-th entry of a zip archive holds.
pub uninterp spec fn zip_content(bytes: Seq<u8>, k: int) -> Result<Seq<u8>, Seq<char>>;

/// `tar::Archive::entries`, over `flate2::read::GzDecoder`, walks the entries of a
/// gzipped tar archive in order and stops at the first that cannot be read. The paths, the
/// tags, the links, the kinds of header and the message depend on the bytes alone.
#[verifier::external_body]
pub(crate) fn list_tar_gz(bytes: &[u8]) -> (r: Listing)
    ensures
        r@ == tar_gz_listing(bytes@),
{
    let mut archive = tar::Archive::new(flate2::read::GzDecoder::new(bytes));
    let mut listing = Listing { entries: Vec::new(), fault: None };
    match archive.entries() {
        Err(e) => listing.fault = Some(e.to_string()),
        Ok(all) => all.for_each(|entry| match entry {
            Err(e) => listing.fault = Some(e.to_string()),
            Ok(e) => listing.entries.push(ListedEntry {
                path: String::from_utf8_lossy(&e.path_bytes()).into_owned(),
                tag: e.header().entry_type().as_byte(),
                link: e.link_name_bytes().map(|b| String::from_utf8_lossy(&b).into_owned()),
                is_old: e.header().as_ustar().is_none(),
            }),
        }),
    }
    listing
}

/// `tar::Entry` reads, over `flate2::read::GzDecoder`, what the `k`-th entry of a
/// gzipped tar archive holds. The bytes or the message depend on the archive and on `k`
/// alone.
#[verifier::external_body]
pub(crate) fn read_tar_gz(bytes: &[u8], k: usize) -> (r: Result<Vec<u8>, String>)
    ensures
        content_view(r) == tar_gz_content(bytes@, k as int),
{
    let mut archive = tar::Archive::new(flate2::read::GzDecoder::new(bytes));
    let mut entries = archive.entries().map_err(|e| e.to_string())?;
    let mut content = Vec::new();
    if let Some(entry) = entries.nth(k) {
        let mut e = entry.map_err(|e| e.to_string())?;
        std::io::Read::read_to_end(&mut e, &mut content).map_err(|e| e.to_string())?;
    }
    Ok(content)
}

/// `zip::ZipArchive::by_index` walks the entries of a zip archive in order; the first
/// that cannot be opened ends the list. The names and the message depend on the bytes
/// alone. Every entry counts as a file.
#[verifier::external_body]
pub(crate) fn list_zip(bytes: &[u8]) -> (r: Listing)
    ensures
        r@ == zip_listing(bytes@),
{
    let mut listing = Listing { entries: Vec::new(), fault: None };
    match zip::ZipArchive::new(std::io::Cursor::new(bytes)) {
        Err(e) => listing.fault = Some(e.to_string()),
        Ok(mut archive) => for i in 0..archive.len() {
            match archive.by_index(i).and_then(|f| f.name().map(|n| n.into_owned())) {
                Ok(path) => listing.entries.push(ListedEntry { path, tag: FILE, link: None, is_old: false }),
                Err(e) => {
                    listing.fault = Some(e.to_string());
                    break;
                }
            }
        },
    }
    listing
}

/// `zip::ZipArchive::by_index` reads what the `k`-th entry of a zip archive holds. The
/// bytes or the message depend on the archive and on `k` alone.
#[verifier::external_body]
pub(crate) fn read_zip(bytes: &[u8], k: usize) -> (r: Result<Vec<u8>, String>)
    ensures
        content_view(r) == zip_content(bytes@, k as int),
{
    let mut archive =
        zip::ZipArchive::new(std::io::Cursor::new(bytes)).map_err(|e| e.to_string())?;
    let mut file = archive.by_index(k).map_err(|e| e.to_string())?;
    let mut content = Vec::new();
    std::io::Read::read_to_end(&mut file, &mut content).map_err(|e| e.to_string())?;
    Ok(content)
}

} // verus!
