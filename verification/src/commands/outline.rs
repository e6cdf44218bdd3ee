//! The `outline` command: the section tree of a document.
//!
//! It is read from the source alone: the document need not compile.

use vstd::prelude::*;

use crate::paths;
use crate::position;
use crate::text::{self, chars_of};
use crate::texparse::{self, SpannedToken, SpannedView, Token, TokenView};
use crate::texutil::{self, Source, SourceFile, SourceView, TraversalView};
use crate::wordcount::{self, SectionTracker};

verus! {

broadcast use text::lemma_texts_push;

/// The deepest level of an outline: from parts down to subsubsections.
pub const MAX_LEVEL: u8 = 4;

/// One entry of an outline.
#[derive(Debug, Clone, PartialEq, Eq)]
pub struct OutlineSection {
    /// The level: zero for a part, up to four for a subsubsection.
    pub level: u8,
    /// The dotted number, such as `1`, `1.1` and `2.1.1`.
    pub number: String,
    /// The title as it reads, without its markup.
    pub title: String,
    /// The file that holds the section, relative to the project root.
    pub file: String,
    /// The line of the section in that file, counted from one.
    pub line: usize,
}

/// What an [`OutlineSection`] says.
#[verifier::ext_equal]
pub struct OutlineView {
    pub level: u8,
    pub number: Seq<char>,
    pub title: Seq<char>,
    pub file: Seq<char>,
    pub line: int,
}

impl View for OutlineSection {
    type V = OutlineView;

    open spec fn view(&self) -> OutlineView {
        OutlineView {
            level: self.level,
            number: self.number@,
            title: self.title@,
            file: self.file@,
            line: self.line as int,
        }
    }
}

/// What entries of an outline say.
pub open spec fn outline_views(v: Seq<OutlineSection>) -> Seq<OutlineView> {
    Seq::new(v.len(), |k: int| v[k]@)
}

/// The section tree of a document.
#[derive(Debug, Clone, PartialEq, Eq)]
pub struct DocumentOutline {
    /// The title of the project.
    pub document: String,
    /// The sections, in the order in which the document is put together.
    pub sections: Vec<OutlineSection>,
}

/// A path relative to the root; the file name alone outside the root.
pub open spec fn file_label(path: Seq<char>, root: Seq<char>) -> Seq<char> {
    match paths::relative(path, root) {
        Some(rel) => rel,
        None => match paths::file_name(path) {
            Some(name) => name,
            None => Seq::empty(),
        },
    }
}

/// Whether a command is one of the escaped characters, which stands for that character.
pub open spec fn is_symbol(name: Seq<char>) -> bool {
    name.len() == 1 && (name[0] == '&' || name[0] == '%' || name[0] == '$' || name[0] == '#'
        || name[0] == '_' || name[0] == '{' || name[0] == '}')
}

/// What a token adds to the title that holds it.
pub open spec fn token_text(t: TokenView) -> Seq<char> {
    match t {
        TokenView::Text(x) => x,
        TokenView::Command { name, args } => if is_symbol(name) {
            name
        } else {
            Seq::empty()
        },
        _ => Seq::empty(),
    }
}

/// What the first `k` tokens add to the title that holds them.
pub open spec fn tokens_text(tokens: Seq<TokenView>, k: int) -> Seq<char>
    decreases k,
{
    if k <= 0 || k > tokens.len() {
        Seq::empty()
    } else {
        tokens_text(tokens, k - 1) + token_text(tokens[k - 1])
    }
}

/// Whether a title has markup: a command, math or a comment.
pub open spec fn has_markup(title: Seq<char>) -> bool {
    exists|k: int| 0 <= k < title.len() && texparse::is_special(#[trigger] title[k])
}

/// A title as it reads. Plain prose is kept as it is; of a title with markup the prose
/// stays, with one space wherever there was any.
pub open spec fn title_text(title: Seq<char>) -> Seq<char> {
    if has_markup(title) {
        let tokens = texparse::tokens_of(title);
        text::join(text::words(tokens_text(tokens, tokens.len() as int)), " "@)
    } else {
        title
    }
}

fn marked_up(title: &[char]) -> (r: bool)
    ensures
        r == has_markup(title@),
{
    let mut k: usize = 0;
    while k < title.len()
        invariant
            k <= title@.len(),
            forall|i: int| 0 <= i < k ==> !texparse::is_special(#[trigger] title@[i]),
        decreases title@.len() - k,
    {
        let c = title[k];
        if c == '%' || c == '\\' || c == '$' {
            assert(texparse::is_special(title@[k as int]));
            return true;
        }
        k = k + 1;
    }
    false
}

fn symbol(name: &str) -> (r: bool)
    ensures
        r == is_symbol(name@),
{
    let c = chars_of(name);
    c.len() == 1 && (c[0] == '&' || c[0] == '%' || c[0] == '$' || c[0] == '#' || c[0] == '_'
        || c[0] == '{' || c[0] == '}')
}

/// A title as it reads, without its markup.
pub fn resolve_title(title: &str) -> (r: String)
    ensures
        r@ == title_text(title@),
{
    let c = chars_of(title);
    if !marked_up(c.as_slice()) {
        return text::lit(title);
    }
    let tokens = texparse::tokenize(title);
    let ghost all = texparse::token_views(tokens@);
    let mut prose = String::new();
    let mut k: usize = 0;
    assert(prose@ =~= tokens_text(all, 0));
    while k < tokens.len()
        invariant
            k <= tokens@.len(),
            all == texparse::token_views(tokens@),
            prose@ == tokens_text(all, k as int),
        decreases tokens@.len() - k,
    {
        assert(all[k as int] == tokens@[k as int]@);
        let ghost before = prose@;
        match &tokens[k] {
            Token::Text(x) => {
                text::push(&mut prose, x.as_str());
            },
            Token::Command { name, args: _ } => {
                if symbol(name.as_str()) {
                    text::push(&mut prose, name.as_str());
                } else {
                    assert(prose@ =~= before + Seq::<char>::empty());
                }
            },
            _ => {
                assert(prose@ =~= before + Seq::<char>::empty());
            },
        }
        k = k + 1;
    }
    let p = chars_of(prose.as_str());
    let words = text::words_of(p.as_slice());
    text::joined_slices(&words, " ")
}

/// The readable ones of the files from the `k`-th on, each with its text.
pub open spec fn readable(
    files: Seq<Seq<char>>,
    tree: Seq<(Seq<char>, Option<Seq<char>>)>,
    k: int,
) -> Seq<(Seq<char>, Option<Seq<char>>)>
    decreases files.len() - k,
{
    if k < 0 || k >= files.len() {
        Seq::empty()
    } else {
        match texutil::source_at(tree, files[k]) {
            SourceView::Text(t) => seq![(files[k], Some(t))] + readable(files, tree, k + 1),
            _ => readable(files, tree, k + 1),
        }
    }
}

/// An outline on its way: the section counters and the entries so far.
#[verifier::ext_equal]
pub struct Walk {
    pub counters: Seq<nat>,
    pub sections: Seq<OutlineView>,
}

/// The outline at the start.
pub open spec fn walk_start() -> Walk {
    Walk { counters: Seq::new(7, |k: int| 0nat), sections: Seq::empty() }
}

/// The outline behind a section.
pub open spec fn with_section(
    w: Walk,
    level: u8,
    title: Seq<char>,
    file: Seq<char>,
    line: int,
) -> Walk {
    if level < 7 {
        let counters = wordcount::entered(w.counters, level as int);
        Walk {
            counters,
            sections: if level <= MAX_LEVEL {
                w.sections.push(
                    OutlineView {
                        level,
                        number: wordcount::dotted(counters, level as int),
                        title: title_text(title),
                        file,
                        line,
                    },
                )
            } else {
                w.sections
            },
        }
    } else {
        w
    }
}

/// The outline behind a file, given the files that are being read already. A file that
/// is being read is not read again.
pub open spec fn walked(
    files: Seq<(Seq<char>, Option<Seq<char>>)>,
    root: Seq<char>,
    file: Seq<char>,
    stack: Seq<Seq<char>>,
    w: Walk,
) -> Walk
    decreases texutil::unvisited(files, stack, 0), 0int,
    via walked_decreases
{
    if paths::lists(stack, file) {
        w
    } else {
        match texutil::file_at(files, file, 0) {
            None => w,
            Some(i) => match files[i].1 {
                None => w,
                Some(source) => walked_tokens(
                    files,
                    root,
                    file,
                    source,
                    texparse::scan_source(source).tokens,
                    0,
                    stack.push(file),
                    w,
                ),
            },
        }
    }
}

/// The outline behind the tokens of a file from the `k`-th on.
pub open spec fn walked_tokens(
    files: Seq<(Seq<char>, Option<Seq<char>>)>,
    root: Seq<char>,
    file: Seq<char>,
    source: Seq<char>,
    tokens: Seq<SpannedView>,
    k: int,
    stack: Seq<Seq<char>>,
    w: Walk,
) -> Walk
    decreases texutil::unvisited(files, stack, 0), 1 + tokens.len() - k,
{
    if k < 0 || k >= tokens.len() {
        w
    } else {
        let next = match tokens[k].token {
            TokenView::Section { level, title } => with_section(
                w,
                level,
                title,
                file_label(file, root),
                position::line_at_byte(source, tokens[k].start),
            ),
            TokenView::Command { name, args } => if name == "input"@ && args.len() > 0 {
                walked(files, root, texutil::tex_path(root, args.last()), stack, w)
            } else {
                w
            },
            _ => w,
        };
        walked_tokens(files, root, file, source, tokens, k + 1, stack, next)
    }
}

#[via_fn]
proof fn walked_decreases(
    files: Seq<(Seq<char>, Option<Seq<char>>)>,
    root: Seq<char>,
    file: Seq<char>,
    stack: Seq<Seq<char>>,
    w: Walk,
) {
    texutil::lemma_unvisited(files, stack, file, 0);
}

/// The outline of a document, given all files.
pub open spec fn outlined(
    root: Seq<char>,
    entry: Seq<char>,
    tree: Seq<(Seq<char>, Option<Seq<char>>)>,
) -> Seq<OutlineView> {
    walked(
        readable(texutil::collected(TraversalView::start(root, entry), tree).files, tree, 0),
        root,
        texutil::tex_path(root, entry),
        Seq::empty(),
        walk_start(),
    ).sections
}

/// A file that was read.
struct ReadFile {
    path: String,
    source: Vec<char>,
    tokens: Vec<SpannedToken>,
}

spec fn read_views(v: Seq<ReadFile>) -> Seq<(Seq<char>, Option<Seq<char>>)> {
    Seq::new(v.len(), |k: int| (v[k].path@, Some(v[k].source@)))
}

spec fn are_read(v: Seq<ReadFile>) -> bool {
    forall|k: int|
        0 <= k < v.len() ==> texparse::spanned_views((#[trigger] v[k]).tokens@)
            == texparse::scan_source(v[k].source@).tokens
}

fn read_files(files: &Vec<String>, tree: &Vec<SourceFile>) -> (r: Vec<ReadFile>)
    ensures
        are_read(r@),
        read_views(r@) == readable(text::texts(files@), texutil::tree_view(tree@), 0),
{
    let ghost names = text::texts(files@);
    let ghost all = texutil::tree_view(tree@);
    let mut out: Vec<ReadFile> = Vec::new();
    let mut k: usize = 0;
    assert(read_views(out@) + readable(names, all, 0) =~= readable(names, all, 0));
    while k < files.len()
        invariant
            k <= files@.len(),
            names == text::texts(files@),
            all == texutil::tree_view(tree@),
            are_read(out@),
            read_views(out@) + readable(names, all, k as int) == readable(names, all, 0),
        decreases files@.len() - k,
    {
        let ghost done = read_views(out@);
        let ghost rest = readable(names, all, k + 1);
        let path = files[k].as_str();
        assert(names[k as int] == path@);
        if let Source::Text(t) = texutil::find_source(tree, path) {
            let file = ReadFile {
                path: text::lit(path),
                source: chars_of(t.as_str()),
                tokens: texparse::tokenize_with_spans(t.as_str()).tokens,
            };
            let ghost view = (file.path@, Some(file.source@));
            assert(done + (seq![view] + rest) =~= done.push(view) + rest);
            out.push(file);
            assert(read_views(out@) =~= done.push(view));
        }
        k = k + 1;
    }
    assert(read_views(out@) + readable(names, all, k as int) =~= read_views(out@));
    out
}

fn find_read(files: &Vec<ReadFile>, path: &str) -> (r: Option<usize>)
    ensures
        match r {
            Some(i) => i < files@.len() && texutil::file_at(read_views(files@), path@, 0) == Some(
                i as int,
            ),
            None => texutil::file_at(read_views(files@), path@, 0) is None,
        },
{
    let ghost all = read_views(files@);
    let mut k: usize = 0;
    while k < files.len()
        invariant
            k <= files@.len(),
            all == read_views(files@),
            texutil::file_at(all, path@, 0) == texutil::file_at(all, path@, k as int),
        decreases files@.len() - k,
    {
        assert(all[k as int].0 == files@[k as int].path@);
        if paths::same_path(files[k].path.as_str(), path) {
            return Some(k);
        }
        k = k + 1;
    }
    None
}

/// A path relative to the root; the file name alone outside the root.
fn relative_file(path: &str, root: &str) -> (r: String)
    ensures
        r@ == file_label(path@, root@),
{
    match paths::relative_to(path, root) {
        Some(rel) => rel,
        None => match paths::file_name_of(path) {
            Some(name) => name,
            None => String::new(),
        },
    }
}

fn walk(
    files: &Vec<ReadFile>,
    root: &str,
    file: &str,
    stack: &mut Vec<String>,
    tracker: &mut SectionTracker,
    sections: &mut Vec<OutlineSection>,
)
    requires
        are_read(files@),
        old(tracker)@.len() == 7,
    ensures
        text::texts(final(stack)@) == text::texts(old(stack)@),
        final(tracker)@.len() == 7,
        (Walk { counters: final(tracker)@, sections: outline_views(final(sections)@) }) == walked(
            read_views(files@),
            root@,
            file@,
            text::texts(old(stack)@),
            Walk { counters: old(tracker)@, sections: outline_views(old(sections)@) },
        ),
    decreases texutil::unvisited(read_views(files@), text::texts(old(stack)@), 0), 0int,
{
    if paths::listed(stack, file) {
        return ;
    }
    let i = match find_read(files, file) {
        None => {
            return ;
        },
        Some(i) => i,
    };
    let ghost before = text::texts(stack@);
    proof {
        texutil::lemma_unvisited(read_views(files@), before, file@, 0);
    }
    stack.push(text::lit(file));
    let one = &files[i];
    assert(read_views(files@)[i as int] == (one.path@, Some(one.source@)));
    walk_tokens(files, root, file, one, stack, tracker, sections);
    let ghost full = text::texts(stack@);
    let ghost held = stack@;
    assert(full == before.push(file@));
    let _ = stack.pop();
    assert forall|k: int| 0 <= k < before.len() implies text::texts(stack@)[k] == before[k] by {
        assert(full[k] == held[k]@);
    }
    assert(text::texts(stack@) =~= before);
}

fn walk_tokens(
    files: &Vec<ReadFile>,
    root: &str,
    file: &str,
    one: &ReadFile,
    stack: &mut Vec<String>,
    tracker: &mut SectionTracker,
    sections: &mut Vec<OutlineSection>,
)
    requires
        are_read(files@),
        old(tracker)@.len() == 7,
        texparse::spanned_views(one.tokens@) == texparse::scan_source(one.source@).tokens,
    ensures
        text::texts(final(stack)@) == text::texts(old(stack)@),
        final(stack)@.len() == old(stack)@.len(),
        final(tracker)@.len() == 7,
        (Walk { counters: final(tracker)@, sections: outline_views(final(sections)@) })
            == walked_tokens(
            read_views(files@),
            root@,
            file@,
            one.source@,
            texparse::spanned_views(one.tokens@),
            0,
            text::texts(old(stack)@),
            Walk { counters: old(tracker)@, sections: outline_views(old(sections)@) },
        ),
    decreases texutil::unvisited(read_views(files@), text::texts(old(stack)@), 0), 1int,
{
    let ghost all = texparse::spanned_views(one.tokens@);
    let ghost fv = read_views(files@);
    let ghost held = text::texts(stack@);
    let ghost whole = walked_tokens(
        fv,
        root@,
        file@,
        one.source@,
        all,
        0,
        held,
        Walk { counters: tracker@, sections: outline_views(sections@) },
    );
    let mut k: usize = 0;
    while k < one.tokens.len()
        invariant
            k <= one.tokens@.len(),
            are_read(files@),
            fv == read_views(files@),
            all == texparse::spanned_views(one.tokens@),
            all == texparse::scan_source(one.source@).tokens,
            tracker@.len() == 7,
            text::texts(stack@) == held,
            stack@.len() == held.len(),
            held == text::texts(old(stack)@),
            texutil::unvisited(fv, held, 0) == texutil::unvisited(
                fv,
                text::texts(old(stack)@),
                0,
            ),
            whole == walked_tokens(
                fv,
                root@,
                file@,
                one.source@,
                all,
                k as int,
                held,
                Walk { counters: tracker@, sections: outline_views(sections@) },
            ),
        decreases one.tokens@.len() - k,
    {
        let t = &one.tokens[k];
        assert(all[k as int] == t@);
        match &t.token {
            Token::Section { level, title } => {
                if *level < 7 {
                    let number = tracker.enter(*level);
                    if *level <= MAX_LEVEL {
                        let ghost done = outline_views(sections@);
                        let entry = OutlineSection {
                            level: *level,
                            number,
                            title: resolve_title(title.as_str()),
                            file: relative_file(file, root),
                            line: position::line_of_byte(one.source.as_slice(), t.start as u128),
                        };
                        let ghost view = entry@;
                        sections.push(entry);
                        assert(outline_views(sections@) =~= done.push(view));
                    }
                }
            },
            Token::Command { name, args } => {
                let n: usize = args.len();
                if text::same_str(name.as_str(), "input") && n > 0 {
                    let child = texutil::resolve_tex_path(root, args[n - 1].as_str());
                    walk(files, root, child.as_str(), stack, tracker, sections);
                }
            },
            _ => {},
        }
        k = k + 1;
    }
}

/// Build the outline of a document, given all files. Sections of files that are put in by
/// `\input` stand where the `\input` stands.
pub fn build_outline(document: &str, root: &str, entry: &str, tree: &Vec<SourceFile>) -> (r:
    DocumentOutline)
    ensures
        r.document@ == document@,
        outline_views(r.sections@) == outlined(root@, entry@, texutil::tree_view(tree@)),
{
    let collection = texutil::collect_tex_files(root, entry, tree);
    let files = read_files(&collection.files, tree);
    let entry_path = texutil::resolve_tex_path(root, entry);
    let mut tracker = SectionTracker::new(6);
    let mut sections: Vec<OutlineSection> = Vec::new();
    let mut stack: Vec<String> = Vec::new();
    assert(text::texts(stack@) =~= Seq::<Seq<char>>::empty());
    assert((Walk { counters: tracker@, sections: outline_views(sections@) }) =~= walk_start());
    walk(&files, root, entry_path.as_str(), &mut stack, &mut tracker, &mut sections);
    DocumentOutline { document: text::lit(document), sections }
}

// ---------------------------------------------------------------------------
// The report
// ---------------------------------------------------------------------------

/// The line on a section, indented by its level.
pub open spec fn section_line(s: OutlineView) -> Seq<char> {
    text::repeat("  "@, s.level as nat) + s.number + "  "@ + s.title + "\n"@
}

/// The lines on the first `k` sections.
pub open spec fn section_lines(s: Seq<OutlineView>, k: int) -> Seq<char>
    decreases k,
{
    if k <= 0 || k > s.len() {
        Seq::empty()
    } else {
        section_lines(s, k - 1) + section_line(s[k - 1])
    }
}

/// An outline for people to read.
pub fn outline_text(outline: &DocumentOutline) -> (r: String)
    ensures
        r@ == outline.document@ + "\n"@ + section_lines(
            outline_views(outline.sections@),
            outline.sections@.len() as int,
        ),
{
    let ghost all = outline_views(outline.sections@);
    let head = text::cat2(outline.document.as_str(), "\n");
    let mut out = text::lit(head.as_str());
    let mut k: usize = 0;
    assert(head@ + section_lines(all, 0) =~= head@);
    while k < outline.sections.len()
        invariant
            k <= outline.sections@.len(),
            all == outline_views(outline.sections@),
            out@ == head@ + section_lines(all, k as int),
        decreases outline.sections@.len() - k,
    {
        let s = &outline.sections[k];
        assert(all[k as int] == s@);
        let line = text::cat5(
            text::repeated("  ", s.level as u128).as_str(),
            s.number.as_str(),
            "  ",
            s.title.as_str(),
            "\n",
        );
        text::push(&mut out, line.as_str());
        assert(out@ =~= head@ + (section_lines(all, k as int) + line@));
        k = k + 1;
    }
    out
}

/// The refusal of a document without its entry.
pub fn missing_entry(root: &str, entry: &str) -> (r: String)
    ensures
        r@ == "Entry point file does not exist: "@ + paths::joined(root@, entry@),
{
    text::cat2("Entry point file does not exist: ", paths::join(root, entry).as_str())
}

// ---------------------------------------------------------------------------
// Laws
// ---------------------------------------------------------------------------

/// Whether all entries are of the levels that an outline shows.
pub open spec fn shown_levels(s: Seq<OutlineView>) -> bool {
    forall|k: int| 0 <= k < s.len() ==> (#[trigger] s[k]).level <= MAX_LEVEL
}

/// Whether an outline goes on from another: what stood there stands there still.
pub open spec fn continues(a: Walk, b: Walk) -> bool {
    &&& a.sections.len() <= b.sections.len()
    &&& forall|k: int|
        0 <= k < a.sections.len() ==> #[trigger] b.sections[k] == a.sections[k]
}

pub proof fn lemma_walked(
    files: Seq<(Seq<char>, Option<Seq<char>>)>,
    root: Seq<char>,
    file: Seq<char>,
    stack: Seq<Seq<char>>,
    w: Walk,
)
    requires
        shown_levels(w.sections),
    ensures
        shown_levels(walked(files, root, file, stack, w).sections),
        continues(w, walked(files, root, file, stack, w)),
    decreases texutil::unvisited(files, stack, 0), 0int,
{
    if !paths::lists(stack, file) {
        if let Some(i) = texutil::file_at(files, file, 0) {
            if let Some(source) = files[i].1 {
                texutil::lemma_unvisited(files, stack, file, 0);
                lemma_walked_tokens(
                    files,
                    root,
                    file,
                    source,
                    texparse::scan_source(source).tokens,
                    0,
                    stack.push(file),
                    w,
                );
            }
        }
    }
}

pub proof fn lemma_walked_tokens(
    files: Seq<(Seq<char>, Option<Seq<char>>)>,
    root: Seq<char>,
    file: Seq<char>,
    source: Seq<char>,
    tokens: Seq<SpannedView>,
    k: int,
    stack: Seq<Seq<char>>,
    w: Walk,
)
    requires
        shown_levels(w.sections),
    ensures
        shown_levels(walked_tokens(files, root, file, source, tokens, k, stack, w).sections),
        continues(w, walked_tokens(files, root, file, source, tokens, k, stack, w)),
    decreases texutil::unvisited(files, stack, 0), 1 + tokens.len() - k,
{
    if 0 <= k < tokens.len() {
        let next = match tokens[k].token {
            TokenView::Section { level, title } => with_section(
                w,
                level,
                title,
                file_label(file, root),
                position::line_at_byte(source, tokens[k].start),
            ),
            TokenView::Command { name, args } => if name == "input"@ && args.len() > 0 {
                walked(files, root, texutil::tex_path(root, args.last()), stack, w)
            } else {
                w
            },
            _ => w,
        };
        if let TokenView::Command { name, args } = tokens[k].token {
            if name == "input"@ && args.len() > 0 {
                lemma_walked(files, root, texutil::tex_path(root, args.last()), stack, w);
            }
        }
        assert(shown_levels(next.sections) && continues(w, next));
        lemma_walked_tokens(files, root, file, source, tokens, k + 1, stack, next);
        let end = walked_tokens(files, root, file, source, tokens, k + 1, stack, next);
        assert forall|j: int| 0 <= j < w.sections.len() implies #[trigger] end.sections[j]
            == w.sections[j] by {
            assert(next.sections[j] == w.sections[j]);
        }
    }
}

/// An outline shows parts down to subsubsections and nothing deeper.
pub proof fn law_outline_levels(
    root: Seq<char>,
    entry: Seq<char>,
    tree: Seq<(Seq<char>, Option<Seq<char>>)>,
)
    ensures
        shown_levels(outlined(root, entry, tree)),
{
    lemma_walked(
        readable(texutil::collected(TraversalView::start(root, entry), tree).files, tree, 0),
        root,
        texutil::tex_path(root, entry),
        Seq::empty(),
        walk_start(),
    );
}

/// A file that takes part in its own inclusion is not read again: a circular `\input`
/// adds no section.
pub proof fn law_circular_input_adds_nothing(
    files: Seq<(Seq<char>, Option<Seq<char>>)>,
    root: Seq<char>,
    file: Seq<char>,
    stack: Seq<Seq<char>>,
    w: Walk,
)
    requires
        paths::lists(stack, file),
    ensures
        walked(files, root, file, stack, w) == w,
{
}

/// What an included file adds comes behind what stands before its `\input`, which stays.
pub proof fn law_input_only_adds(
    files: Seq<(Seq<char>, Option<Seq<char>>)>,
    root: Seq<char>,
    file: Seq<char>,
    stack: Seq<Seq<char>>,
    w: Walk,
)
    requires
        shown_levels(w.sections),
    ensures
        continues(w, walked(files, root, file, stack, w)),
{
    lemma_walked(files, root, file, stack, w);
}

} // verus!
