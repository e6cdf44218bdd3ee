//! The objects of a PDF file: fonts with their embedding, and the Info dictionary.

use vstd::prelude::*;

use crate::order;
use crate::pdftext::{self, FontView, InfoView, MetadataView, PdfFontInfo, PdfInfo, PdfMetadata};
use crate::text::{self, chars_of};

verus! {

// ---------------------------------------------------------------------------
// Objects
// ---------------------------------------------------------------------------

/// The number and the generation of an indirect object.
pub type ObjectId = (u32, u16);

/// A PDF object. What numbers and streams hold is left out.
#[derive(Debug)]
pub enum PdfObject {
    Null,
    Boolean,
    Integer,
    Real,
    Name(Vec<u8>),
    Text(Vec<u8>),
    Array(Vec<PdfObject>),
    Dictionary(Vec<(Vec<u8>, PdfObject)>),
    Stream,
    Reference(ObjectId),
}

/// What a [`PdfObject`] says.
pub enum ObjectView {
    Null,
    Boolean,
    Integer,
    Real,
    Name(Seq<u8>),
    Text(Seq<u8>),
    Array(Seq<ObjectView>),
    Dictionary(Seq<(Seq<u8>, ObjectView)>),
    Stream,
    Reference(ObjectId),
}

/// What an object says.
pub open spec fn shape(o: PdfObject) -> ObjectView
    decreases o,
{
    match o {
        PdfObject::Null => ObjectView::Null,
        PdfObject::Boolean => ObjectView::Boolean,
        PdfObject::Integer => ObjectView::Integer,
        PdfObject::Real => ObjectView::Real,
        PdfObject::Name(b) => ObjectView::Name(b@),
        PdfObject::Text(b) => ObjectView::Text(b@),
        PdfObject::Array(v) => ObjectView::Array(shapes(v@)),
        PdfObject::Dictionary(v) => ObjectView::Dictionary(entries(v@)),
        PdfObject::Stream => ObjectView::Stream,
        PdfObject::Reference(id) => ObjectView::Reference(id),
    }
}

/// What the items of an array say.
pub open spec fn shapes(v: Seq<PdfObject>) -> Seq<ObjectView>
    decreases v,
{
    if v.len() == 0 {
        Seq::empty()
    } else {
        shapes(v.drop_last()).push(shape(v.last()))
    }
}

/// What the entries of a dictionary say.
pub open spec fn entries(v: Seq<(Vec<u8>, PdfObject)>) -> Seq<(Seq<u8>, ObjectView)>
    decreases v,
{
    if v.len() == 0 {
        Seq::empty()
    } else {
        entries(v.drop_last()).push((v.last().0@, shape(v.last().1)))
    }
}

pub proof fn lemma_shapes(v: Seq<PdfObject>)
    ensures
        shapes(v).len() == v.len(),
        forall|k: int| 0 <= k < v.len() ==> #[trigger] shapes(v)[k] == shape(v[k]),
    decreases v.len(),
{
    if v.len() > 0 {
        lemma_shapes(v.drop_last());
    }
}

pub proof fn lemma_entries(v: Seq<(Vec<u8>, PdfObject)>)
    ensures
        entries(v).len() == v.len(),
        forall|k: int| 0 <= k < v.len() ==> #[trigger] entries(v)[k] == (v[k].0@, shape(v[k].1)),
    decreases v.len(),
{
    if v.len() > 0 {
        lemma_entries(v.drop_last());
    }
}

/// A PDF file as it is read: its trailer, its indirect objects, and its pages in order.
pub struct PdfDocument {
    pub trailer: PdfObject,
    pub objects: Vec<(ObjectId, PdfObject)>,
    pub pages: Vec<ObjectId>,
}

/// What a [`PdfDocument`] says.
#[verifier::ext_equal]
pub struct DocumentView {
    pub trailer: ObjectView,
    pub objects: Seq<(ObjectId, ObjectView)>,
    pub pages: Seq<ObjectId>,
}

/// What indirect objects say.
pub open spec fn object_views(v: Seq<(ObjectId, PdfObject)>) -> Seq<(ObjectId, ObjectView)> {
    Seq::new(v.len(), |k: int| (v[k].0, shape(v[k].1)))
}

impl View for PdfDocument {
    type V = DocumentView;

    open spec fn view(&self) -> DocumentView {
        DocumentView {
            trailer: shape(self.trailer),
            objects: object_views(self.objects@),
            pages: self.pages@,
        }
    }
}

// ---------------------------------------------------------------------------
// Text strings
// ---------------------------------------------------------------------------

/// What `String::from_utf8_lossy` makes of bytes.
pub uninterp spec fn utf8_lossy(bytes: Seq<u8>) -> Seq<char>;

/// The text of UTF-16 units; a surrogate without its partner becomes U+FFFD.
pub open spec fn utf16_lossy(u: Seq<u16>) -> Seq<char>
    decreases u.len(),
{
    if u.len() == 0 {
        Seq::empty()
    } else if u[0] < 0xD800 || u[0] > 0xDFFF {
        seq![u[0] as char] + utf16_lossy(u.skip(1))
    } else if u[0] < 0xDC00 && u.len() > 1 && 0xDC00 <= u[1] <= 0xDFFF {
        seq![(0x10000 + (u[0] - 0xD800) * 0x400 + (u[1] - 0xDC00)) as char] + utf16_lossy(u.skip(2))
    } else {
        seq!['\u{FFFD}'] + utf16_lossy(u.skip(1))
    }
}

/// `String::from_utf8_lossy` reads bytes as UTF-8 and puts U+FFFD in place of what is
/// not. The text depends on the bytes alone.
#[verifier::external_body]
pub(crate) fn from_utf8_lossy(bytes: &[u8]) -> (r: String)
    ensures
        r@ == utf8_lossy(bytes@),
{
    String::from_utf8_lossy(bytes).into_owned()
}

/// `String::from_utf16_lossy` reads UTF-16 units and puts U+FFFD in place of each
/// surrogate without its partner.
#[verifier::external_body]
fn from_utf16_lossy(units: &[u16]) -> (r: String)
    ensures
        r@ == utf16_lossy(units@),
{
    String::from_utf16_lossy(units)
}

/// The units of bytes, the high byte first; an odd byte at the end is left out.
pub open spec fn big_endian_units(b: Seq<u8>) -> Seq<u16> {
    Seq::new((b.len() / 2) as nat, |k: int| (b[2 * k] * 256 + b[2 * k + 1]) as u16)
}

/// The text of a PDF string: UTF-16 behind the byte order mark FE FF, else UTF-8.
pub open spec fn decoded(b: Seq<u8>) -> Seq<char> {
    if b.len() >= 2 && b[0] == 0xFE && b[1] == 0xFF {
        utf16_lossy(big_endian_units(b.skip(2)))
    } else {
        utf8_lossy(b)
    }
}

fn decode_pdf_string(bytes: &Vec<u8>) -> (r: String)
    ensures
        r@ == decoded(bytes@),
{
    let n: usize = bytes.len();
    if n >= 2 && bytes[0] == 0xFE && bytes[1] == 0xFF {
        let ghost rest = bytes@.skip(2);
        let ghost all = big_endian_units(rest);
        let mut units: Vec<u16> = Vec::new();
        let mut i: usize = 2;
        while i < n && i + 1 < n
            invariant
                2 <= i <= n == bytes@.len(),
                i % 2 == 0,
                rest == bytes@.skip(2),
                all == big_endian_units(rest),
                units@ == all.take((i - 2) / 2),
            decreases n - i,
        {
            let high = bytes[i] as u16;
            let low = bytes[i + 1] as u16;
            units.push(high * 256 + low);
            let ghost k = (i - 2) / 2;
            assert(rest[2 * k] == bytes@[i as int] && rest[2 * k + 1] == bytes@[i + 1]);
            assert(all.take(k + 1) =~= all.take(k).push(all[k]));
            i = i + 2;
        }
        assert(all.take((i - 2) / 2) =~= all);
        return from_utf16_lossy(units.as_slice());
    }
    from_utf8_lossy(bytes.as_slice())
}

/// The text of an object, where it is a string or a name.
pub open spec fn object_text(o: ObjectView) -> Option<Seq<char>> {
    match o {
        ObjectView::Text(b) => Some(decoded(b)),
        ObjectView::Name(b) => Some(utf8_lossy(b)),
        _ => None,
    }
}

fn object_to_string(o: &PdfObject) -> (r: Option<String>)
    ensures
        text::opt_text(r) == object_text(shape(*o)),
{
    match o {
        PdfObject::Text(b) => Some(decode_pdf_string(b)),
        PdfObject::Name(b) => Some(from_utf8_lossy(b.as_slice())),
        _ => None,
    }
}

// ---------------------------------------------------------------------------
// Looking up
// ---------------------------------------------------------------------------

/// Whether a key is the given name.
pub open spec fn is_key(key: Seq<u8>, name: Seq<char>) -> bool {
    key.len() == name.len() && forall|i: int|
        0 <= i < key.len() ==> (#[trigger] key[i]) as u32 == name[i] as u32
}

/// The value under a name among the entries from the `k`-th on.
pub open spec fn lookup_from(d: Seq<(Seq<u8>, ObjectView)>, name: Seq<char>, k: int) -> Option<
    ObjectView,
>
    decreases d.len() - k,
{
    if k < 0 || k >= d.len() {
        None
    } else if is_key(d[k].0, name) {
        Some(d[k].1)
    } else {
        lookup_from(d, name, k + 1)
    }
}

/// The value under a name in a dictionary.
pub open spec fn lookup(d: Seq<(Seq<u8>, ObjectView)>, name: Seq<char>) -> Option<ObjectView> {
    lookup_from(d, name, 0)
}

/// The object with an identifier among the objects from the `k`-th on.
pub open spec fn object_from(objects: Seq<(ObjectId, ObjectView)>, id: ObjectId, k: int) -> Option<
    ObjectView,
>
    decreases objects.len() - k,
{
    if k < 0 || k >= objects.len() {
        None
    } else if objects[k].0 == id {
        Some(objects[k].1)
    } else {
        object_from(objects, id, k + 1)
    }
}

/// How many references are followed, one after the other, before a chain is given up.
pub const CHAIN_LIMIT: u8 = 128;

/// What an object stands for, after at most `n` references.
pub open spec fn followed(doc: DocumentView, o: ObjectView, n: int) -> Option<ObjectView>
    decreases n,
{
    match o {
        ObjectView::Reference(id) => if n <= 0 {
            None
        } else {
            match object_from(doc.objects, id, 0) {
                Some(x) => followed(doc, x, n - 1),
                None => None,
            }
        },
        _ => Some(o),
    }
}

/// The object with an identifier, behind the references that it may consist of.
pub open spec fn object_at(doc: DocumentView, id: ObjectId) -> Option<ObjectView> {
    match object_from(doc.objects, id, 0) {
        Some(x) => followed(doc, x, CHAIN_LIMIT as int),
        None => None,
    }
}

/// What an object stands for.
pub open spec fn resolved(doc: DocumentView, o: ObjectView) -> Option<ObjectView> {
    match o {
        ObjectView::Reference(id) => object_at(doc, id),
        _ => Some(o),
    }
}

/// The dictionary that an object stands for.
pub open spec fn dict_of(doc: DocumentView, o: Option<ObjectView>) -> Option<
    Seq<(Seq<u8>, ObjectView)>,
> {
    match o {
        Some(x) => match resolved(doc, x) {
            Some(ObjectView::Dictionary(d)) => Some(d),
            _ => None,
        },
        None => None,
    }
}

fn key_is(key: &Vec<u8>, name: &str) -> (r: bool)
    ensures
        r == is_key(key@, name@),
{
    let n = chars_of(name);
    if key.len() != n.len() {
        return false;
    }
    let mut i: usize = 0;
    while i < key.len()
        invariant
            i <= key@.len() == n@.len(),
            n@ == name@,
            forall|j: int| 0 <= j < i ==> (#[trigger] key@[j]) as u32 == n@[j] as u32,
        decreases key@.len() - i,
    {
        let b: u8 = key[i];
        let c: char = n[i];
        if b as u32 != c as u32 {
            return false;
        }
        i = i + 1;
    }
    true
}

/// What a found object says.
pub open spec fn found(o: Option<&PdfObject>) -> Option<ObjectView> {
    match o {
        Some(x) => Some(shape(*x)),
        None => None,
    }
}

fn get<'a>(d: &'a Vec<(Vec<u8>, PdfObject)>, name: &str) -> (r: Option<&'a PdfObject>)
    ensures
        found(r) == lookup(entries(d@), name@),
{
    let ghost all = entries(d@);
    proof {
        lemma_entries(d@);
    }
    let mut k: usize = 0;
    while k < d.len()
        invariant
            k <= d@.len() == all.len(),
            all == entries(d@),
            forall|k: int| 0 <= k < d@.len() ==> #[trigger] all[k] == (d@[k].0@, shape(d@[k].1)),
            lookup_from(all, name@, 0) == lookup_from(all, name@, k as int),
        decreases d@.len() - k,
    {
        assert(all[k as int] == (d@[k as int].0@, shape(d@[k as int].1)));
        if key_is(&d[k].0, name) {
            return Some(&d[k].1);
        }
        k = k + 1;
    }
    None
}

fn find_object<'a>(doc: &'a PdfDocument, id: ObjectId) -> (r: Option<&'a PdfObject>)
    ensures
        found(r) == object_from(doc@.objects, id, 0),
{
    let ghost all = doc@.objects;
    let mut k: usize = 0;
    while k < doc.objects.len()
        invariant
            k <= doc.objects@.len(),
            all == doc@.objects,
            object_from(all, id, 0) == object_from(all, id, k as int),
        decreases doc.objects@.len() - k,
    {
        assert(all[k as int] == (doc.objects@[k as int].0, shape(doc.objects@[k as int].1)));
        if doc.objects[k].0.0 == id.0 && doc.objects[k].0.1 == id.1 {
            return Some(&doc.objects[k].1);
        }
        k = k + 1;
    }
    None
}

fn get_object<'a>(doc: &'a PdfDocument, id: ObjectId) -> (r: Option<&'a PdfObject>)
    ensures
        found(r) == object_at(doc@, id),
{
    let mut o = match find_object(doc, id) {
        Some(x) => x,
        None => {
            return None;
        },
    };
    let mut left: u8 = CHAIN_LIMIT;
    loop
        invariant
            followed(doc@, shape(*o), left as int) == object_at(doc@, id),
        decreases left,
    {
        match o {
            PdfObject::Reference(next) => {
                if left == 0 {
                    return None;
                }
                match find_object(doc, *next) {
                    Some(x) => {
                        o = x;
                    },
                    None => {
                        return None;
                    },
                }
                left = left - 1;
            },
            _ => {
                return Some(o);
            },
        }
    }
}

fn resolve<'a>(doc: &'a PdfDocument, o: &'a PdfObject) -> (r: Option<&'a PdfObject>)
    ensures
        found(r) == resolved(doc@, shape(*o)),
{
    match o {
        PdfObject::Reference(id) => get_object(doc, *id),
        _ => Some(o),
    }
}

fn resolve_dict<'a>(doc: &'a PdfDocument, o: Option<&'a PdfObject>) -> (r: Option<
    &'a Vec<(Vec<u8>, PdfObject)>,
>)
    ensures
        match r {
            Some(d) => dict_of(doc@, found(o)) == Some(entries(d@)),
            None => dict_of(doc@, found(o)) is None,
        },
{
    match o {
        Some(x) => match resolve(doc, x) {
            Some(PdfObject::Dictionary(d)) => Some(d),
            _ => None,
        },
        None => None,
    }
}

// ---------------------------------------------------------------------------
// Metadata
// ---------------------------------------------------------------------------

/// The text under a name in a dictionary.
pub open spec fn dict_text(d: Seq<(Seq<u8>, ObjectView)>, name: Seq<char>) -> Option<Seq<char>> {
    match lookup(d, name) {
        Some(o) => object_text(o),
        None => None,
    }
}

/// The metadata of a document: what the Info dictionary of its trailer says.
pub open spec fn metadata(doc: DocumentView) -> MetadataView {
    let info = match doc.trailer {
        ObjectView::Dictionary(t) => dict_of(doc, lookup(t, "Info"@)),
        _ => None,
    };
    match info {
        Some(d) => MetadataView {
            title: dict_text(d, "Title"@),
            author: dict_text(d, "Author"@),
            subject: dict_text(d, "Subject"@),
            keywords: dict_text(d, "Keywords"@),
            creator: dict_text(d, "Creator"@),
            producer: dict_text(d, "Producer"@),
            creation_date: dict_text(d, "CreationDate"@),
            mod_date: dict_text(d, "ModDate"@),
        },
        None => MetadataView::empty(),
    }
}

fn text_under(d: &Vec<(Vec<u8>, PdfObject)>, name: &str) -> (r: Option<String>)
    ensures
        text::opt_text(r) == dict_text(entries(d@), name@),
{
    match get(d, name) {
        Some(o) => object_to_string(o),
        None => None,
    }
}

fn read_metadata(doc: &PdfDocument) -> (r: PdfMetadata)
    ensures
        r@ == metadata(doc@),
{
    let info = match &doc.trailer {
        PdfObject::Dictionary(t) => resolve_dict(doc, get(t, "Info")),
        _ => None,
    };
    match info {
        Some(d) => PdfMetadata {
            title: text_under(d, "Title"),
            author: text_under(d, "Author"),
            subject: text_under(d, "Subject"),
            keywords: text_under(d, "Keywords"),
            creator: text_under(d, "Creator"),
            producer: text_under(d, "Producer"),
            creation_date: text_under(d, "CreationDate"),
            mod_date: text_under(d, "ModDate"),
        },
        None => PdfMetadata::default(),
    }
}

// ---------------------------------------------------------------------------
// Fonts
// ---------------------------------------------------------------------------

/// The descendants that a font lists.
pub open spec fn descendants(doc: DocumentView, font: Seq<(Seq<u8>, ObjectView)>) -> Option<
    Seq<ObjectView>,
> {
    match lookup(font, "DescendantFonts"@) {
        Some(o) => match resolved(doc, o) {
            Some(ObjectView::Array(a)) => Some(a),
            _ => None,
        },
        None => None,
    }
}

/// Whether the descriptor of a font names a font file.
pub open spec fn has_file(doc: DocumentView, font: Seq<(Seq<u8>, ObjectView)>) -> bool {
    match dict_of(doc, lookup(font, "FontDescriptor"@)) {
        Some(d) => lookup(d, "FontFile"@) is Some || lookup(d, "FontFile2"@) is Some || lookup(
            d,
            "FontFile3"@,
        ) is Some,
        None => false,
    }
}

/// Whether a font is embedded: its descriptor names a font file, or one of its descendants
/// is embedded. `None` where the search goes down more than `depth` levels before it ends.
pub open spec fn embedded(
    doc: DocumentView,
    font: Seq<(Seq<u8>, ObjectView)>,
    depth: nat,
) -> Option<bool>
    decreases depth, 0nat,
{
    if has_file(doc, font) {
        Some(true)
    } else {
        match descendants(doc, font) {
            Some(items) => if depth == 0 {
                None
            } else {
                any_embedded(doc, items, 0, (depth - 1) as nat)
            },
            None => Some(false),
        }
    }
}

/// Whether one of the fonts from the `k`-th on is embedded. Fonts behind the first that
/// is embedded are not looked at.
pub open spec fn any_embedded(
    doc: DocumentView,
    items: Seq<ObjectView>,
    k: int,
    depth: nat,
) -> Option<bool>
    decreases depth, (items.len() - k + 1) as nat,
{
    if k < 0 || k >= items.len() {
        Some(false)
    } else {
        match dict_of(doc, Some(items[k])) {
            Some(d) => match embedded(doc, d, depth) {
                Some(false) => any_embedded(doc, items, k + 1, depth),
                other => other,
            },
            None => any_embedded(doc, items, k + 1, depth),
        }
    }
}

/// Where a page number has its place among the first `k`: behind those that are not
/// larger.
pub open spec fn page_place(pages: Seq<usize>, p: usize, k: int) -> int
    decreases k,
{
    if k <= 0 || k > pages.len() || pages[k - 1] <= p {
        k
    } else {
        page_place(pages, p, k - 1)
    }
}

/// Page numbers with one more.
pub open spec fn with_page(pages: Seq<usize>, p: usize) -> Seq<usize> {
    if pages.contains(p) {
        pages
    } else {
        pages.insert(page_place(pages, p, pages.len() as int), p)
    }
}

/// A font after one more reference to it.
pub open spec fn seen_again(f: FontView, embedded: bool, page: Option<usize>) -> FontView {
    FontView {
        embedded: f.embedded || embedded,
        pages: match page {
            Some(p) => with_page(f.pages, p),
            None => f.pages,
        },
        ..f
    }
}

/// The names of fonts.
pub open spec fn font_names(fonts: Seq<FontView>) -> Seq<Seq<char>> {
    Seq::new(fonts.len(), |k: int| fonts[k].name)
}

/// Fonts, in the order of their names, after one more reference. The subtype is that of
/// the first one with the name.
pub open spec fn with_font(fonts: Seq<FontView>, f: FontView, page: Option<usize>) -> Seq<FontView> {
    let p = order::place(font_names(fonts), f.name, fonts.len() as int);
    if p > 0 && fonts[p - 1].name == f.name {
        fonts.update(p - 1, seen_again(fonts[p - 1], f.embedded, page))
    } else {
        fonts.insert(p, f)
    }
}

/// The text under a name, or another one.
pub open spec fn text_or(
    d: Seq<(Seq<u8>, ObjectView)>,
    name: Seq<char>,
    other: Seq<char>,
) -> Seq<char> {
    match dict_text(d, name) {
        Some(t) => t,
        None => other,
    }
}

/// A font that is referred to, by a page or by another font.
pub open spec fn font_entry(
    font: Seq<(Seq<u8>, ObjectView)>,
    embedded: bool,
    page: Option<usize>,
) -> FontView {
    FontView {
        name: text_or(font, "BaseFont"@, "(unnamed)"@),
        subtype: text_or(font, "Subtype"@, "Unknown"@),
        embedded,
        pages: match page {
            Some(p) => seq![p],
            None => Seq::empty(),
        },
    }
}

/// The fonts after a font and its descendants; the descendants count for no page. `None`
/// where the descent goes down more than `depth` levels.
pub open spec fn pushed(
    doc: DocumentView,
    font: Seq<(Seq<u8>, ObjectView)>,
    page: Option<usize>,
    fonts: Seq<FontView>,
    depth: nat,
) -> Option<Seq<FontView>>
    decreases depth, 0nat,
{
    match embedded(doc, font, depth) {
        Some(e) => {
            let more = with_font(fonts, font_entry(font, e, page), page);
            match descendants(doc, font) {
                Some(items) => if depth == 0 {
                    None
                } else {
                    all_pushed(doc, items, 0, more, (depth - 1) as nat)
                },
                None => Some(more),
            }
        },
        None => None,
    }
}

/// The fonts after the descendants from the `k`-th on.
pub open spec fn all_pushed(
    doc: DocumentView,
    items: Seq<ObjectView>,
    k: int,
    fonts: Seq<FontView>,
    depth: nat,
) -> Option<Seq<FontView>>
    decreases depth, (items.len() - k + 1) as nat,
{
    if k < 0 || k >= items.len() {
        Some(fonts)
    } else {
        match dict_of(doc, Some(items[k])) {
            Some(d) => match pushed(doc, d, None, fonts, depth) {
                Some(more) => all_pushed(doc, items, k + 1, more, depth),
                None => None,
            },
            None => all_pushed(doc, items, k + 1, fonts, depth),
        }
    }
}

/// The fonts that the resources of a page name.
pub open spec fn page_fonts(doc: DocumentView, page: ObjectId) -> Seq<(Seq<u8>, ObjectView)> {
    match object_at(doc, page) {
        Some(ObjectView::Dictionary(p)) => match dict_of(doc, lookup(p, "Resources"@)) {
            Some(r) => match dict_of(doc, lookup(r, "Font"@)) {
                Some(f) => f,
                None => Seq::empty(),
            },
            None => Seq::empty(),
        },
        _ => Seq::empty(),
    }
}

/// The fonts after the named ones of a page from the `k`-th on.
pub open spec fn page_pushed(
    doc: DocumentView,
    named: Seq<(Seq<u8>, ObjectView)>,
    k: int,
    page: usize,
    fonts: Seq<FontView>,
    depth: nat,
) -> Option<Seq<FontView>>
    decreases named.len() - k,
{
    if k < 0 || k >= named.len() {
        Some(fonts)
    } else {
        match dict_of(doc, Some(named[k].1)) {
            Some(d) => match pushed(doc, d, Some(page), fonts, depth) {
                Some(more) => page_pushed(doc, named, k + 1, page, more, depth),
                None => None,
            },
            None => page_pushed(doc, named, k + 1, page, fonts, depth),
        }
    }
}

/// The fonts after the first `k` pages.
pub open spec fn collected(doc: DocumentView, k: int, depth: nat) -> Option<Seq<FontView>>
    decreases k,
{
    if k <= 0 || k > doc.pages.len() {
        Some(Seq::empty())
    } else {
        match collected(doc, k - 1, depth) {
            Some(fonts) => page_pushed(
                doc,
                page_fonts(doc, doc.pages[k - 1]),
                0,
                k as usize,
                fonts,
                depth,
            ),
            None => None,
        }
    }
}

fn descendants_of<'a>(doc: &'a PdfDocument, font: &'a Vec<(Vec<u8>, PdfObject)>) -> (r: Option<
    &'a Vec<PdfObject>,
>)
    ensures
        match r {
            Some(a) => descendants(doc@, entries(font@)) == Some(shapes(a@)),
            None => descendants(doc@, entries(font@)) is None,
        },
{
    match get(font, "DescendantFonts") {
        Some(o) => match resolve(doc, o) {
            Some(PdfObject::Array(a)) => Some(a),
            _ => None,
        },
        None => None,
    }
}

fn names_file(doc: &PdfDocument, font: &Vec<(Vec<u8>, PdfObject)>) -> (r: bool)
    ensures
        r == has_file(doc@, entries(font@)),
{
    match resolve_dict(doc, get(font, "FontDescriptor")) {
        Some(d) => get(d, "FontFile").is_some() || get(d, "FontFile2").is_some() || get(
            d,
            "FontFile3",
        ).is_some(),
        None => false,
    }
}

fn font_is_embedded(doc: &PdfDocument, font: &Vec<(Vec<u8>, PdfObject)>, depth: u16) -> (r: Option<
    bool,
>)
    ensures
        r == embedded(doc@, entries(font@), depth as nat),
    decreases depth,
{
    if names_file(doc, font) {
        return Some(true);
    }
    let items = match descendants_of(doc, font) {
        Some(a) => a,
        None => {
            return Some(false);
        },
    };
    if depth == 0 {
        return None;
    }
    let ghost all = shapes(items@);
    proof {
        lemma_shapes(items@);
    }
    let ghost below = (depth - 1) as nat;
    let mut k: usize = 0;
    while k < items.len()
        invariant
            k <= items@.len() == all.len(),
            depth > 0,
            below == depth - 1,
            forall|j: int| 0 <= j < items@.len() ==> #[trigger] all[j] == shape(items@[j]),
            embedded(doc@, entries(font@), depth as nat) == any_embedded(
                doc@,
                all,
                k as int,
                below,
            ),
        decreases items@.len() - k,
    {
        assert(all[k as int] == shape(items@[k as int]));
        if let Some(d) = resolve_dict(doc, Some(&items[k])) {
            match font_is_embedded(doc, d, depth - 1) {
                Some(false) => {},
                other => {
                    return other;
                },
            }
        }
        k = k + 1;
    }
    Some(false)
}

fn add_page(pages: &mut Vec<usize>, p: usize)
    ensures
        final(pages)@ == with_page(old(pages)@, p),
{
    let ghost before = pages@;
    let mut i: usize = 0;
    while i < pages.len()
        invariant
            i <= pages@.len(),
            pages@ == before,
            forall|j: int| 0 <= j < i ==> before[j] != p,
        decreases pages@.len() - i,
    {
        if pages[i] == p {
            assert(before[i as int] == p);
            return;
        }
        i = i + 1;
    }
    let mut k: usize = pages.len();
    while k > 0 && pages[k - 1] > p
        invariant
            k <= pages@.len(),
            pages@ == before,
            page_place(before, p, before.len() as int) == page_place(before, p, k as int),
        decreases k,
    {
        k = k - 1;
    }
    pages.insert(k, p);
}

fn add_font(fonts: &mut Vec<PdfFontInfo>, f: PdfFontInfo, page: Option<usize>)
    ensures
        pdftext::font_views(final(fonts)@) == with_font(pdftext::font_views(old(fonts)@), f@, page),
{
    let ghost before = pdftext::font_views(fonts@);
    let ghost names = font_names(before);
    let mut k: usize = fonts.len();
    while k > 0 && order::before_str(f.name.as_str(), fonts[k - 1].name.as_str())
        invariant
            k <= fonts@.len(),
            before == pdftext::font_views(fonts@),
            names == font_names(before),
            order::place(names, f.name@, names.len() as int) == order::place(
                names,
                f.name@,
                k as int,
            ),
        decreases k,
    {
        assert(names[k - 1] == fonts@[k - 1].name@);
        k = k - 1;
    }
    assert(k > 0 ==> names[k - 1] == fonts@[k - 1].name@);
    if k > 0 && text::same_str(fonts[k - 1].name.as_str(), f.name.as_str()) {
        let ghost known = before[k - 1];
        let mut pages = fonts[k - 1].pages.clone();
        assert(pages@ =~= known.pages);
        if let Some(p) = page {
            add_page(&mut pages, p);
        }
        let changed = PdfFontInfo {
            name: text::lit(fonts[k - 1].name.as_str()),
            subtype: text::lit(fonts[k - 1].subtype.as_str()),
            embedded: fonts[k - 1].embedded || f.embedded,
            pages,
        };
        assert(changed@ == seen_again(known, f.embedded, page));
        fonts.set(k - 1, changed);
        assert(pdftext::font_views(fonts@) =~= before.update(
            k - 1,
            seen_again(known, f.embedded, page),
        ));
    } else {
        let ghost v = f@;
        fonts.insert(k, f);
        assert(pdftext::font_views(fonts@) =~= before.insert(k as int, v));
    }
}

fn string_or(d: &Vec<(Vec<u8>, PdfObject)>, name: &str, other: &str) -> (r: String)
    ensures
        r@ == text_or(entries(d@), name@, other@),
{
    match text_under(d, name) {
        Some(t) => t,
        None => text::lit(other),
    }
}

/// Whether two lists of fonts agree, one of them being what a descent gave.
spec fn agrees(done: bool, fonts: Seq<PdfFontInfo>, expected: Option<Seq<FontView>>) -> bool {
    match expected {
        Some(v) => done && pdftext::font_views(fonts) == v,
        None => !done,
    }
}

/// Adds a font and its descendants; answers whether the descent came to an end.
fn push_font(
    doc: &PdfDocument,
    font: &Vec<(Vec<u8>, PdfObject)>,
    page: Option<usize>,
    fonts: &mut Vec<PdfFontInfo>,
    depth: u16,
) -> (r: bool)
    ensures
        agrees(
            r,
            final(fonts)@,
            pushed(
                doc@,
                entries(font@),
                page,
                pdftext::font_views(old(fonts)@),
                depth as nat,
            ),
        ),
    decreases depth,
{
    let embedded = match font_is_embedded(doc, font, depth) {
        Some(e) => e,
        None => {
            return false;
        },
    };
    let mut pages: Vec<usize> = Vec::new();
    if let Some(p) = page {
        pages.push(p);
    }
    let entry = PdfFontInfo {
        name: string_or(font, "BaseFont", "(unnamed)"),
        subtype: string_or(font, "Subtype", "Unknown"),
        embedded,
        pages,
    };
    assert(entry@ =~= font_entry(entries(font@), embedded, page));
    add_font(fonts, entry, page);
    let items = match descendants_of(doc, font) {
        Some(a) => a,
        None => {
            return true;
        },
    };
    if depth == 0 {
        return false;
    }
    let ghost all = shapes(items@);
    proof {
        lemma_shapes(items@);
    }
    let ghost below = (depth - 1) as nat;
    let ghost whole = pushed(
        doc@,
        entries(font@),
        page,
        pdftext::font_views(old(fonts)@),
        depth as nat,
    );
    let mut k: usize = 0;
    while k < items.len()
        invariant
            k <= items@.len() == all.len(),
            depth > 0,
            below == depth - 1,
            forall|j: int| 0 <= j < items@.len() ==> #[trigger] all[j] == shape(items@[j]),
            whole == pushed(
                doc@,
                entries(font@),
                page,
                pdftext::font_views(old(fonts)@),
                depth as nat,
            ),
            whole == all_pushed(
                doc@,
                all,
                k as int,
                pdftext::font_views(fonts@),
                below,
            ),
        decreases items@.len() - k,
    {
        assert(all[k as int] == shape(items@[k as int]));
        if let Some(d) = resolve_dict(doc, Some(&items[k])) {
            if !push_font(doc, d, None, fonts, depth - 1) {
                return false;
            }
        }
        k = k + 1;
    }
    true
}

/// Adds the fonts of a page; answers whether every descent came to an end.
fn collect_fonts_from_page(
    doc: &PdfDocument,
    page_num: usize,
    page_id: ObjectId,
    fonts: &mut Vec<PdfFontInfo>,
    depth: u16,
) -> (r: bool)
    ensures
        agrees(
            r,
            final(fonts)@,
            page_pushed(
                doc@,
                page_fonts(doc@, page_id),
                0,
                page_num,
                pdftext::font_views(old(fonts)@),
                depth as nat,
            ),
        ),
{
    let page = match get_object(doc, page_id) {
        Some(PdfObject::Dictionary(p)) => p,
        _ => {
            return true;
        },
    };
    let resources = match resolve_dict(doc, get(page, "Resources")) {
        Some(r) => r,
        None => {
            return true;
        },
    };
    let named = match resolve_dict(doc, get(resources, "Font")) {
        Some(f) => f,
        None => {
            return true;
        },
    };
    let ghost all = entries(named@);
    proof {
        lemma_entries(named@);
    }
    assert(all == page_fonts(doc@, page_id));
    let ghost start = pdftext::font_views(fonts@);
    let mut k: usize = 0;
    while k < named.len()
        invariant
            k <= named@.len() == all.len(),
            forall|j: int|
                0 <= j < named@.len() ==> #[trigger] all[j] == (named@[j].0@, shape(named@[j].1)),
            all == page_fonts(doc@, page_id),
            start == pdftext::font_views(old(fonts)@),
            page_pushed(doc@, all, 0, page_num, start, depth as nat) == page_pushed(
                doc@,
                all,
                k as int,
                page_num,
                pdftext::font_views(fonts@),
                depth as nat,
            ),
        decreases named@.len() - k,
    {
        assert(all[k as int] == (named@[k as int].0@, shape(named@[k as int].1)));
        if let Some(d) = resolve_dict(doc, Some(&named[k].1)) {
            if !push_font(doc, d, Some(page_num), fonts, depth) {
                return false;
            }
        }
        k = k + 1;
    }
    true
}

/// The fonts of a document; `None` where a descent did not come to an end.
fn collect_fonts(doc: &PdfDocument, depth: u16) -> (r: Option<Vec<PdfFontInfo>>)
    ensures
        match r {
            Some(v) => collected(doc@, doc@.pages.len() as int, depth as nat) == Some(
                pdftext::font_views(v@),
            ),
            None => collected(doc@, doc@.pages.len() as int, depth as nat) is None,
        },
{
    let mut fonts: Vec<PdfFontInfo> = Vec::new();
    let n: usize = doc.pages.len();
    let mut k: usize = 0;
    assert(pdftext::font_views(fonts@) =~= Seq::<FontView>::empty());
    while k < n
        invariant
            k <= n == doc.pages@.len(),
            collected(doc@, k as int, depth as nat) == Some(pdftext::font_views(fonts@)),
        decreases n - k,
    {
        if !collect_fonts_from_page(doc, k + 1, doc.pages[k], &mut fonts, depth) {
            assert(collected(doc@, k + 1, depth as nat) is None);
            proof {
                lemma_collected_fails(doc@, k + 1, n as int, depth as nat);
            }
            return None;
        }
        k = k + 1;
    }
    Some(fonts)
}

proof fn lemma_collected_fails(doc: DocumentView, k: int, n: int, depth: nat)
    requires
        0 < k <= n <= doc.pages.len(),
        collected(doc, k, depth) is None,
    ensures
        collected(doc, n, depth) is None,
    decreases n - k,
{
    if k < n {
        lemma_collected_fails(doc, k + 1, n, depth);
    }
}

// ---------------------------------------------------------------------------
// The report
// ---------------------------------------------------------------------------

/// How many levels of descendants a font may have. A font that goes deeper is taken to
/// descend from itself.
pub const FONT_DEPTH: u16 = 1000;

/// Why there is no report on a PDF file.
#[derive(Debug)]
pub enum PdfFault {
    /// A font descends without end.
    EndlessFont,
}

/// The report on a document.
pub open spec fn info(doc: DocumentView) -> Option<InfoView> {
    match collected(doc, doc.pages.len() as int, FONT_DEPTH as nat) {
        Some(fonts) => Some(
            InfoView { pages: doc.pages.len(), fonts, metadata: metadata(doc) },
        ),
        None => None,
    }
}

/// Pages, fonts and metadata of a document.
pub fn info_from_document(doc: &PdfDocument) -> (r: Result<PdfInfo, PdfFault>)
    ensures
        match r {
            Ok(i) => info(doc@) == Some(i@),
            Err(_) => info(doc@) is None,
        },
{
    match collect_fonts(doc, FONT_DEPTH) {
        Some(fonts) => Ok(
            PdfInfo { pages: doc.pages.len(), fonts, metadata: read_metadata(doc) },
        ),
        None => Err(PdfFault::EndlessFont),
    }
}

// ---------------------------------------------------------------------------
// Laws
// ---------------------------------------------------------------------------

proof fn lemma_embedded_deeper(
    doc: DocumentView,
    font: Seq<(Seq<u8>, ObjectView)>,
    depth: nat,
    more: nat,
)
    requires
        depth <= more,
        embedded(doc, font, depth) is Some,
    ensures
        embedded(doc, font, more) == embedded(doc, font, depth),
    decreases depth, 0nat,
{
    if !has_file(doc, font) {
        match descendants(doc, font) {
            Some(items) => {
                lemma_any_embedded_deeper(doc, items, 0, (depth - 1) as nat, (more - 1) as nat);
            },
            None => {},
        }
    }
}

proof fn lemma_any_embedded_deeper(
    doc: DocumentView,
    items: Seq<ObjectView>,
    k: int,
    depth: nat,
    more: nat,
)
    requires
        depth <= more,
        any_embedded(doc, items, k, depth) is Some,
    ensures
        any_embedded(doc, items, k, more) == any_embedded(doc, items, k, depth),
    decreases depth, (items.len() - k + 1) as nat,
{
    if 0 <= k < items.len() {
        match dict_of(doc, Some(items[k])) {
            Some(d) => {
                lemma_embedded_deeper(doc, d, depth, more);
                if embedded(doc, d, depth) == Some(false) {
                    lemma_any_embedded_deeper(doc, items, k + 1, depth, more);
                }
            },
            None => {
                lemma_any_embedded_deeper(doc, items, k + 1, depth, more);
            },
        }
    }
}

proof fn lemma_pushed_deeper(
    doc: DocumentView,
    font: Seq<(Seq<u8>, ObjectView)>,
    page: Option<usize>,
    fonts: Seq<FontView>,
    depth: nat,
    more: nat,
)
    requires
        depth <= more,
        pushed(doc, font, page, fonts, depth) is Some,
    ensures
        pushed(doc, font, page, fonts, more) == pushed(doc, font, page, fonts, depth),
    decreases depth, 0nat,
{
    lemma_embedded_deeper(doc, font, depth, more);
    match (embedded(doc, font, depth), descendants(doc, font)) {
        (Some(e), Some(items)) => {
            let next = with_font(fonts, font_entry(font, e, page), page);
            lemma_all_pushed_deeper(doc, items, 0, next, (depth - 1) as nat, (more - 1) as nat);
        },
        _ => {},
    }
}

proof fn lemma_all_pushed_deeper(
    doc: DocumentView,
    items: Seq<ObjectView>,
    k: int,
    fonts: Seq<FontView>,
    depth: nat,
    more: nat,
)
    requires
        depth <= more,
        all_pushed(doc, items, k, fonts, depth) is Some,
    ensures
        all_pushed(doc, items, k, fonts, more) == all_pushed(doc, items, k, fonts, depth),
    decreases depth, (items.len() - k + 1) as nat,
{
    if 0 <= k < items.len() {
        match dict_of(doc, Some(items[k])) {
            Some(d) => {
                lemma_pushed_deeper(doc, d, None, fonts, depth, more);
                match pushed(doc, d, None, fonts, depth) {
                    Some(next) => {
                        lemma_all_pushed_deeper(doc, items, k + 1, next, depth, more);
                    },
                    None => {},
                }
            },
            None => {
                lemma_all_pushed_deeper(doc, items, k + 1, fonts, depth, more);
            },
        }
    }
}

proof fn lemma_page_pushed_deeper(
    doc: DocumentView,
    named: Seq<(Seq<u8>, ObjectView)>,
    k: int,
    page: usize,
    fonts: Seq<FontView>,
    depth: nat,
    more: nat,
)
    requires
        depth <= more,
        page_pushed(doc, named, k, page, fonts, depth) is Some,
    ensures
        page_pushed(doc, named, k, page, fonts, more) == page_pushed(
            doc,
            named,
            k,
            page,
            fonts,
            depth,
        ),
    decreases named.len() - k,
{
    if 0 <= k < named.len() {
        match dict_of(doc, Some(named[k].1)) {
            Some(d) => {
                lemma_pushed_deeper(doc, d, Some(page), fonts, depth, more);
                match pushed(doc, d, Some(page), fonts, depth) {
                    Some(next) => {
                        lemma_page_pushed_deeper(doc, named, k + 1, page, next, depth, more);
                    },
                    None => {},
                }
            },
            None => {
                lemma_page_pushed_deeper(doc, named, k + 1, page, fonts, depth, more);
            },
        }
    }
}

/// Where every descent comes to an end, the fonts do not depend on how deep a descent may
/// go.
pub proof fn law_fonts_without_depth(doc: DocumentView, k: int, depth: nat, more: nat)
    requires
        depth <= more,
        collected(doc, k, depth) is Some,
    ensures
        collected(doc, k, more) == collected(doc, k, depth),
    decreases k,
{
    if 0 < k <= doc.pages.len() {
        law_fonts_without_depth(doc, k - 1, depth, more);
        match collected(doc, k - 1, depth) {
            Some(fonts) => {
                lemma_page_pushed_deeper(
                    doc,
                    page_fonts(doc, doc.pages[k - 1]),
                    0,
                    k as usize,
                    fonts,
                    depth,
                    more,
                );
            },
            None => {},
        }
    }
}

/// Whether page numbers stand in strictly ascending order.
pub open spec fn rising(pages: Seq<usize>) -> bool {
    forall|i: int, j: int| 0 <= i < j < pages.len() ==> #[trigger] pages[i] < #[trigger] pages[j]
}

/// Whether fonts stand in the order of their names, each name once, and each with its
/// pages in order, each page once.
pub open spec fn orderly(fonts: Seq<FontView>) -> bool {
    &&& order::ascending(font_names(fonts))
    &&& forall|k: int| 0 <= k < fonts.len() ==> rising((#[trigger] fonts[k]).pages)
}

pub proof fn lemma_page_place(pages: Seq<usize>, p: usize, k: int)
    requires
        0 <= k <= pages.len(),
    ensures
        0 <= page_place(pages, p, k) <= k,
        forall|j: int| page_place(pages, p, k) <= j < k ==> #[trigger] pages[j] > p,
        page_place(pages, p, k) > 0 ==> pages[page_place(pages, p, k) - 1] <= p,
    decreases k,
{
    if k > 0 && pages[k - 1] > p {
        lemma_page_place(pages, p, k - 1);
    }
}

proof fn lemma_with_page(pages: Seq<usize>, p: usize)
    requires
        rising(pages),
    ensures
        rising(with_page(pages, p)),
{
    if !pages.contains(p) {
        let at = page_place(pages, p, pages.len() as int);
        lemma_page_place(pages, p, pages.len() as int);
        let t = with_page(pages, p);
        assert forall|i: int, j: int| 0 <= i < j < t.len() implies #[trigger] t[i]
            < #[trigger] t[j] by {
            if j < at {
                assert(t[i] == pages[i] && t[j] == pages[j]);
            } else if j == at {
                assert(t[i] == pages[i]);
                assert(pages[at - 1] != p);
                assert(i < at - 1 ==> pages[i] < pages[at - 1]);
            } else if i < at {
                assert(t[i] == pages[i] && t[j] == pages[j - 1]);
            } else if i == at {
                assert(t[j] == pages[j - 1]);
            } else {
                assert(t[i] == pages[i - 1] && t[j] == pages[j - 1]);
            }
        }
    }
}

pub proof fn lemma_with_font(fonts: Seq<FontView>, f: FontView, page: Option<usize>)
    requires
        orderly(fonts),
        rising(f.pages),
    ensures
        orderly(with_font(fonts, f, page)),
{
    let names = font_names(fonts);
    let p = order::place(names, f.name, fonts.len() as int);
    order::lemma_ascending_place(names, f.name);
    let t = with_font(fonts, f, page);
    if p > 0 && fonts[p - 1].name == f.name {
        assert(font_names(t) =~= names);
        if let Some(n) = page {
            lemma_with_page(fonts[p - 1].pages, n);
        }
        assert forall|k: int| 0 <= k < t.len() implies rising((#[trigger] t[k]).pages) by {
            if k != p - 1 {
                assert(t[k] == fonts[k]);
            } else {
                assert(rising(fonts[k].pages));
            }
        }
    } else {
        assert(font_names(t) =~= names.insert(p, f.name));
        order::lemma_ascending_insert(names, f.name);
        assert forall|k: int| 0 <= k < t.len() implies rising((#[trigger] t[k]).pages) by {
            if k < p {
                assert(t[k] == fonts[k]);
            } else if k > p {
                assert(t[k] == fonts[k - 1]);
            }
        }
    }
}

pub proof fn lemma_pushed_orderly(
    doc: DocumentView,
    font: Seq<(Seq<u8>, ObjectView)>,
    page: Option<usize>,
    fonts: Seq<FontView>,
    depth: nat,
)
    requires
        orderly(fonts),
    ensures
        pushed(doc, font, page, fonts, depth) matches Some(f) ==> orderly(f),
    decreases depth, 0nat,
{
    match embedded(doc, font, depth) {
        Some(e) => {
            lemma_with_font(fonts, font_entry(font, e, page), page);
            match descendants(doc, font) {
                Some(items) => {
                    if depth > 0 {
                        lemma_all_pushed_orderly(
                            doc,
                            items,
                            0,
                            with_font(fonts, font_entry(font, e, page), page),
                            (depth - 1) as nat,
                        );
                    }
                },
                None => {},
            }
        },
        None => {},
    }
}

pub proof fn lemma_all_pushed_orderly(
    doc: DocumentView,
    items: Seq<ObjectView>,
    k: int,
    fonts: Seq<FontView>,
    depth: nat,
)
    requires
        orderly(fonts),
    ensures
        all_pushed(doc, items, k, fonts, depth) matches Some(f) ==> orderly(f),
    decreases depth, (items.len() - k + 1) as nat,
{
    if 0 <= k < items.len() {
        match dict_of(doc, Some(items[k])) {
            Some(d) => {
                lemma_pushed_orderly(doc, d, None, fonts, depth);
                match pushed(doc, d, None, fonts, depth) {
                    Some(next) => {
                        lemma_all_pushed_orderly(doc, items, k + 1, next, depth);
                    },
                    None => {},
                }
            },
            None => {
                lemma_all_pushed_orderly(doc, items, k + 1, fonts, depth);
            },
        }
    }
}

proof fn lemma_page_pushed_orderly(
    doc: DocumentView,
    named: Seq<(Seq<u8>, ObjectView)>,
    k: int,
    page: usize,
    fonts: Seq<FontView>,
    depth: nat,
)
    requires
        orderly(fonts),
    ensures
        page_pushed(doc, named, k, page, fonts, depth) matches Some(f) ==> orderly(f),
    decreases named.len() - k,
{
    if 0 <= k < named.len() {
        match dict_of(doc, Some(named[k].1)) {
            Some(d) => {
                lemma_pushed_orderly(doc, d, Some(page), fonts, depth);
                match pushed(doc, d, Some(page), fonts, depth) {
                    Some(next) => {
                        lemma_page_pushed_orderly(doc, named, k + 1, page, next, depth);
                    },
                    None => {},
                }
            },
            None => {
                lemma_page_pushed_orderly(doc, named, k + 1, page, fonts, depth);
            },
        }
    }
}

/// The fonts of a report stand in the order of their names, each name once, and the pages
/// of each are sorted and unique.
pub proof fn law_fonts_are_orderly(doc: DocumentView, k: int, depth: nat)
    ensures
        collected(doc, k, depth) matches Some(f) ==> orderly(f),
    decreases k,
{
    if 0 < k <= doc.pages.len() {
        law_fonts_are_orderly(doc, k - 1, depth);
        match collected(doc, k - 1, depth) {
            Some(fonts) => {
                lemma_page_pushed_orderly(
                    doc,
                    page_fonts(doc, doc.pages[k - 1]),
                    0,
                    k as usize,
                    fonts,
                    depth,
                );
            },
            None => {},
        }
    }
}

} // verus!
