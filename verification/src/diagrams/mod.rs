//! Embedded diagrams: `\begin{mermaid}`, `\begin{graphviz}` and `\begin{d2}` blocks.
//!
//! Each block is rendered to a file of its own, and a `figure` environment takes its
//! place. This happens on copies of the sources, which are never modified.

pub mod faults;
pub mod figures;
pub mod fonts;
pub mod style;

use std::collections::hash_map::DefaultHasher;
use std::hash::Hasher;

use vstd::prelude::*;
use vstd::std_specs::hash::DefaultHasherAdditionalSpecFns;

use crate::number;
use crate::paths;
use crate::text::{self, chars_of, string_of};
use crate::texutil::{self, Source, SourceFile, SourceView};
use style::DiagramStyle;

verus! {

broadcast use text::lemma_texts_push;

// ---------------------------------------------------------------------------
// Options
// ---------------------------------------------------------------------------

/// The options of a diagram. Of a key that comes twice the last value counts.
#[derive(Debug, Clone)]
pub struct DiagramOptions {
    entries: Vec<(String, String)>,
}

/// What entries say.
pub open spec fn pair_views(v: Seq<(String, String)>) -> Seq<(Seq<char>, Seq<char>)> {
    Seq::new(v.len(), |k: int| (v[k].0@, v[k].1@))
}

impl View for DiagramOptions {
    type V = Seq<(Seq<char>, Seq<char>)>;

    closed spec fn view(&self) -> Seq<(Seq<char>, Seq<char>)> {
        pair_views(self.entries@)
    }
}

/// The value of an option: the last one under its key.
pub open spec fn option_of(opts: Seq<(Seq<char>, Seq<char>)>, key: Seq<char>) -> Option<Seq<char>>
    decreases opts.len(),
{
    if opts.len() == 0 {
        None
    } else if opts.last().0 == key {
        Some(opts.last().1)
    } else {
        option_of(opts.drop_last(), key)
    }
}

impl DiagramOptions {
    /// No options.
    pub fn new() -> (r: DiagramOptions)
        ensures
            r@ == Seq::<(Seq<char>, Seq<char>)>::empty(),
    {
        let r = DiagramOptions { entries: Vec::new() };
        assert(r@ =~= Seq::<(Seq<char>, Seq<char>)>::empty());
        r
    }

    /// Sets an option.
    pub fn insert(&mut self, key: String, value: String)
        ensures
            final(self)@ == old(self)@.push((key@, value@)),
    {
        let ghost before = self@;
        self.entries.push((key, value));
        assert(self@ =~= before.push((key@, value@)));
    }

    /// The value of an option.
    pub fn get(&self, key: &str) -> (r: Option<&String>)
        ensures
            match r {
                Some(v) => option_of(self@, key@) == Some(v@),
                None => option_of(self@, key@) is None,
            },
    {
        let ghost all = self@;
        let mut k: usize = self.entries.len();
        assert(all.take(k as int) =~= all);
        while k > 0
            invariant
                k <= self.entries@.len(),
                all == self@,
                option_of(all, key@) == option_of(all.take(k as int), key@),
            decreases k,
        {
            let ghost t = all.take(k as int);
            assert(t.drop_last() =~= all.take(k - 1));
            assert(t.last() == (self.entries@[k - 1].0@, self.entries@[k - 1].1@));
            if text::same_str(self.entries[k - 1].0.as_str(), key) {
                return Some(&self.entries[k - 1].1);
            }
            k = k - 1;
        }
        None
    }

    /// Whether an option is set.
    pub fn contains_key(&self, key: &str) -> (r: bool)
        ensures
            r == option_of(self@, key@) is Some,
    {
        self.get(key).is_some()
    }

    /// Whether no option is set.
    pub fn is_empty(&self) -> (r: bool)
        ensures
            r == (self@.len() == 0),
    {
        self.entries.len() == 0
    }
}

/// The option in one part of a list: what stands before the first `=` and what stands
/// behind it, without white space around either.
pub open spec fn option_in(part: Seq<char>) -> Option<(Seq<char>, Seq<char>)> {
    let t = text::trim(part);
    match text::find_char(t, '=') {
        Some(k) => Some((text::trim(t.take(k)), text::trim(t.skip(k + 1)))),
        None => None,
    }
}

/// The options in the parts from the `k`-th on. A part without `=` is none.
pub open spec fn options_in(parts: Seq<Seq<char>>, k: int) -> Seq<(Seq<char>, Seq<char>)>
    decreases parts.len() - k,
{
    if k < 0 || k >= parts.len() {
        Seq::empty()
    } else {
        match option_in(parts[k]) {
            Some(o) => seq![o] + options_in(parts, k + 1),
            None => options_in(parts, k + 1),
        }
    }
}

/// A text without the line feeds, and then the carriage returns, at its start.
pub open spec fn behind_breaks(s: Seq<char>) -> Seq<char> {
    text::trim_start_char(text::trim_start_char(s, '\n'), '\r')
}

/// The options in brackets at the start of a text, and the text behind them. A text that
/// does not begin with brackets has none.
pub open spec fn options_at(s: Seq<char>) -> (Seq<(Seq<char>, Seq<char>)>, Seq<char>) {
    let t = behind_breaks(s);
    match text::find_char(t, ']') {
        Some(k) => if t[0] == '[' {
            (options_in(text::split(t.subrange(1, k), ','), 0), t.skip(k + 1))
        } else {
            (Seq::empty(), t)
        },
        None => (Seq::empty(), t),
    }
}

fn options_from(inner: &[char]) -> (r: DiagramOptions)
    ensures
        r@ == options_in(text::split(inner@, ','), 0),
{
    let parts = text::split_on(inner, ',');
    let ghost all = text::slices(parts@);
    let mut out = DiagramOptions::new();
    let mut k: usize = 0;
    assert(out@ + options_in(all, 0) =~= options_in(all, 0));
    while k < parts.len()
        invariant
            k <= parts@.len(),
            all == text::slices(parts@),
            out@ + options_in(all, k as int) == options_in(all, 0),
        decreases parts@.len() - k,
    {
        assert(all[k as int] == parts@[k as int]@);
        let part = text::trimmed(parts[k]);
        let n: usize = part.len();
        proof {
            text::lemma_find_char_bounds(part@, '=', 0);
        }
        if let Some(i) = text::find_ch(part, '=') {
            let ghost done = out@;
            let key = string_of(text::trimmed(text::upto(part, i)));
            let value = string_of(text::trimmed(text::from(part, i + 1)));
            let ghost o = (key@, value@);
            out.insert(key, value);
            assert(done + (seq![o] + options_in(all, k + 1)) =~= out@ + options_in(all, k + 1));
        }
        k = k + 1;
    }
    assert(out@ + options_in(all, k as int) =~= out@);
    out
}

fn split_options(s: &[char]) -> (r: (DiagramOptions, &[char]))
    ensures
        (r.0@, r.1@) == options_at(s@),
{
    let t = text::trimmed_start_char(text::trimmed_start_char(s, '\n'), '\r');
    let n: usize = t.len();
    if n == 0 || t[0] != '[' {
        proof {
            text::lemma_find_char_bounds(t@, ']', 0);
        }
        return (DiagramOptions::new(), t);
    }
    proof {
        text::lemma_find_char_bounds(t@, ']', 0);
    }
    match text::find_ch(t, ']') {
        Some(k) => {
            assert(k > 0);
            (options_from(text::part(t, 1, k)), text::from(t, k + 1))
        },
        None => (DiagramOptions::new(), t),
    }
}

/// Parse `[key=val, key2=val2]`: the options, and the text behind them.
pub fn parse_opts(s: &str) -> (r: (DiagramOptions, String))
    ensures
        (r.0@, r.1@) == options_at(s@),
{
    let c = chars_of(s);
    let (opts, rest) = split_options(c.as_slice());
    (opts, string_of(rest))
}

// ---------------------------------------------------------------------------
// Cache names
// ---------------------------------------------------------------------------

/// What `std::hash::Hash::hash` writes of a text into a hasher.
pub uninterp spec fn hash_writes(src: Seq<char>) -> Seq<Seq<u8>>;

/// `std::hash::Hash::hash` feeds a text to a hasher. What it writes depends on the text
/// alone.
#[verifier::external_body]
fn hash_text(src: &str, hasher: &mut DefaultHasher)
    ensures
        final(hasher)@ == old(hasher)@ + hash_writes(src@),
{
    std::hash::Hash::hash(src, hasher)
}

/// The number that `DefaultHasher` makes of a text and then a byte.
pub open spec fn hash_of(src: Seq<char>, byte: u8) -> u64 {
    DefaultHasher::spec_finish(hash_writes(src).push(seq![byte]))
}

/// The number that names a diagram of a style.
pub fn content_hash(src: &str, style: DiagramStyle) -> (r: u64)
    ensures
        r == hash_of(src@, style.rank()),
{
    let mut hasher = DefaultHasher::new();
    hash_text(src, &mut hasher);
    let byte: [u8; 1] = [style.number()];
    hasher.write(byte.as_slice());
    assert(byte@ =~= seq![style.rank()]);
    assert(hasher@ =~= hash_writes(src@).push(seq![style.rank()]));
    hasher.finish()
}

/// The name, without its ending, of the file that a diagram is rendered to. It depends
/// on the source and on the style, so that an unchanged diagram is not rendered again.
pub open spec fn artefact_base(env: Seq<char>, hash: u64) -> Seq<char> {
    env + "-"@ + number::hex(hash as nat, 16)
}

fn base_name(env: &str, src: &str, style: DiagramStyle) -> (r: String)
    ensures
        r@ == artefact_base(env@, hash_of(src@, style.rank())),
{
    text::cat3(env, "-", number::show_hex(content_hash(src, style)).as_str())
}

/// The rendered file that is taken again, given the names of the files that are there: the
/// vector form comes first.
pub open spec fn cached(files: Seq<Seq<char>>, base: Seq<char>) -> Option<Seq<char>> {
    if files.contains(base + ".pdf"@) {
        Some(base + ".pdf"@)
    } else if files.contains(base + ".png"@) {
        Some(base + ".png"@)
    } else {
        None
    }
}

/// The rendered file that is taken again, given the names of the files that are there.
pub fn cached_filename(files: &Vec<String>, base: &str) -> (r: Option<String>)
    ensures
        text::opt_text(r) == cached(text::texts(files@), base@),
{
    let vector = text::cat2(base, ".pdf");
    if text::listed(files, vector.as_str()) {
        return Some(vector);
    }
    let raster = text::cat2(base, ".png");
    if text::listed(files, raster.as_str()) {
        return Some(raster);
    }
    None
}

// ---------------------------------------------------------------------------
// Figures
// ---------------------------------------------------------------------------

/// An option of `\includegraphics`, where it is set.
pub open spec fn sizing(opts: Seq<(Seq<char>, Seq<char>)>, key: Seq<char>) -> Seq<Seq<char>> {
    match option_of(opts, key) {
        Some(v) => seq![key + "="@ + v],
        None => Seq::empty(),
    }
}

/// The options of `\includegraphics`: the scale, else the width and the height; and
/// whether the aspect ratio is kept.
pub open spec fn include_options(opts: Seq<(Seq<char>, Seq<char>)>) -> Seq<Seq<char>> {
    (if option_of(opts, "scale"@) is Some {
        sizing(opts, "scale"@)
    } else {
        sizing(opts, "width"@) + sizing(opts, "height"@)
    }) + if option_of(opts, "keepaspectratio"@) is Some {
        seq!["keepaspectratio"@]
    } else {
        Seq::empty()
    }
}

/// A value between two texts, where there is one.
pub open spec fn framed(
    before: Seq<char>,
    value: Option<Seq<char>>,
    after: Seq<char>,
) -> Seq<char> {
    match value {
        Some(v) => before + v + after,
        None => Seq::empty(),
    }
}

/// The figure that takes the place of a diagram. Without any size it is as wide as a line.
pub open spec fn figure(opts: Seq<(Seq<char>, Seq<char>)>, filename: Seq<char>) -> Seq<char> {
    let parts = include_options(opts);
    let size = if parts.len() == 0 {
        "width=\\linewidth"@
    } else {
        text::join(parts, ","@)
    };
    "\\begin{figure}"@ + framed("["@, option_of(opts, "pos"@), "]"@)
        + "\n  \\centering\n  \\includegraphics["@ + size + "]{diagrams/"@ + filename + "}\n"@ + framed(
        "  \\caption{"@,
        option_of(opts, "caption"@),
        "}\n"@,
    ) + framed("  \\label{"@, option_of(opts, "label"@), "}\n"@) + "\\end{figure}"@
}

fn push_sizing(parts: &mut Vec<String>, opts: &DiagramOptions, key: &str)
    ensures
        text::texts(final(parts)@) == text::texts(old(parts)@) + sizing(opts@, key@),
{
    let ghost before = text::texts(parts@);
    if let Some(v) = opts.get(key) {
        parts.push(text::cat3(key, "=", v.as_str()));
        assert(text::texts(parts@) =~= before + sizing(opts@, key@));
    } else {
        assert(before + sizing(opts@, key@) =~= before);
    }
}

fn push_framed(out: &mut String, before: &str, value: Option<&String>, after: &str)
    ensures
        final(out)@ == old(out)@ + framed(
            before@,
            match value {
                Some(v) => Some(v@),
                None => None,
            },
            after@,
        ),
{
    let ghost start = out@;
    if let Some(v) = value {
        text::push(out, before);
        text::push(out, v.as_str());
        text::push(out, after);
        assert(out@ =~= start + (before@ + v@ + after@));
    } else {
        assert(start + Seq::<char>::empty() =~= start);
    }
}

/// Build the figure environment for a rendered diagram.
pub fn build_figure_environment(opts: &DiagramOptions, filename: &str) -> (r: String)
    ensures
        r@ == figure(opts@, filename@),
{
    let mut parts: Vec<String> = Vec::new();
    assert(text::texts(parts@) =~= Seq::<Seq<char>>::empty());
    if opts.contains_key("scale") {
        push_sizing(&mut parts, opts, "scale");
        assert(text::texts(parts@) =~= sizing(opts@, "scale"@));
    } else {
        push_sizing(&mut parts, opts, "width");
        push_sizing(&mut parts, opts, "height");
        assert(text::texts(parts@) =~= sizing(opts@, "width"@) + sizing(opts@, "height"@));
    }
    let ghost sized = text::texts(parts@);
    if opts.contains_key("keepaspectratio") {
        parts.push(text::lit("keepaspectratio"));
        assert(text::texts(parts@) =~= sized + seq!["keepaspectratio"@]);
    } else {
        assert(sized + Seq::<Seq<char>>::empty() =~= sized);
    }
    assert(text::texts(parts@) == include_options(opts@));
    let size = if parts.len() == 0 {
        text::lit("width=\\linewidth")
    } else {
        text::joined(&parts, ",")
    };
    let mut fig = text::lit("\\begin{figure}");
    push_framed(&mut fig, "[", opts.get("pos"), "]");
    text::push(&mut fig, "\n  \\centering\n  \\includegraphics[");
    text::push(&mut fig, size.as_str());
    text::push(&mut fig, "]{diagrams/");
    text::push(&mut fig, filename);
    text::push(&mut fig, "}\n");
    push_framed(&mut fig, "  \\caption{", opts.get("caption"), "}\n");
    push_framed(&mut fig, "  \\label{", opts.get("label"), "}\n");
    text::push(&mut fig, "\\end{figure}");
    fig
}

// ---------------------------------------------------------------------------
// Blocks
// ---------------------------------------------------------------------------

/// What begins a block.
pub open spec fn begin_tag(env: Seq<char>) -> Seq<char> {
    "\\begin{"@ + env + "}"@
}

/// What ends a block.
pub open spec fn end_tag(env: Seq<char>) -> Seq<char> {
    "\\end{"@ + env + "}"@
}

/// Whether a text is a position of a figure.
pub open spec fn is_position(pos: Seq<char>) -> bool {
    pos == "H"@ || pos == "t"@ || pos == "b"@ || pos == "h"@ || pos == "p"@
}

/// What is wrong with the position of a diagram.
pub open spec fn position_fault(
    opts: Seq<(Seq<char>, Seq<char>)>,
    env: Seq<char>,
) -> Option<Seq<char>> {
    match option_of(opts, "pos"@) {
        Some(pos) => if is_position(pos) {
            None
        } else {
            Some(
                "Invalid "@ + env + " option pos='"@ + pos
                    + "' — valid values are: H, t, b, h, p"@,
            )
        },
        None => None,
    }
}

/// The style of a diagram: its own, else the default; or what is wrong with its own.
pub open spec fn style_of(
    opts: Seq<(Seq<char>, Seq<char>)>,
    env: Seq<char>,
    default_style: DiagramStyle,
) -> Result<DiagramStyle, Seq<char>> {
    match option_of(opts, "style"@) {
        None => Ok(default_style),
        Some(name) => match style::style_named(name) {
            Some(s) => Ok(s),
            None => Err(
                "Invalid "@ + env + " option style='"@ + name + "' — valid values are: "@
                    + style::VALID_STYLE_NAMES@,
            ),
        },
    }
}

/// The first block of a text.
#[verifier::ext_equal]
pub struct BlockView {
    /// What stands before the block.
    pub before: Seq<char>,
    pub opts: Seq<(Seq<char>, Seq<char>)>,
    /// The source of the diagram.
    pub source: Seq<char>,
    pub style: DiagramStyle,
    /// What stands behind the block.
    pub rest: Seq<char>,
}

/// The first block of a text, where there is one, or what is wrong with it.
pub open spec fn first_block(s: Seq<char>, env: Seq<char>, default_style: DiagramStyle) -> Result<
    Option<BlockView>,
    Seq<char>,
> {
    match text::find(s, begin_tag(env)) {
        None => Ok(None),
        Some(k) => {
            let (opts, body) = options_at(s.skip(k + begin_tag(env).len()));
            match text::find(body, end_tag(env)) {
                None => Err("\\begin{"@ + env + "} without matching \\end{"@ + env + "}"@),
                Some(e) => match position_fault(opts, env) {
                    Some(m) => Err(m),
                    None => match style_of(opts, env, default_style) {
                        Err(m) => Err(m),
                        Ok(style) => Ok(
                            Some(
                                BlockView {
                                    before: s.take(k),
                                    opts,
                                    source: text::trim(body.take(e)),
                                    style,
                                    rest: body.skip(e + end_tag(env).len()),
                                },
                            ),
                        ),
                    },
                },
            }
        },
    }
}

/// The first block of a text.
pub struct DiagramBlock {
    pub before: String,
    pub opts: DiagramOptions,
    pub source: String,
    pub style: DiagramStyle,
    pub rest: String,
}

impl View for DiagramBlock {
    type V = BlockView;

    open spec fn view(&self) -> BlockView {
        BlockView {
            before: self.before@,
            opts: self.opts@,
            source: self.source@,
            style: self.style,
            rest: self.rest@,
        }
    }
}

fn validate_pos_option(opts: &DiagramOptions, env: &str) -> (r: Result<(), String>)
    ensures
        match r {
            Ok(_) => position_fault(opts@, env@) is None,
            Err(m) => position_fault(opts@, env@) == Some(m@),
        },
{
    match opts.get("pos") {
        Some(p) => {
            let pos = p.as_str();
            if text::same_str(pos, "H") || text::same_str(pos, "t") || text::same_str(pos, "b")
                || text::same_str(pos, "h") || text::same_str(pos, "p") {
                Ok(())
            } else {
                Err(
                    text::cat5(
                        "Invalid ",
                        env,
                        " option pos='",
                        pos,
                        "' — valid values are: H, t, b, h, p",
                    ),
                )
            }
        },
        None => Ok(()),
    }
}

fn resolve_style(opts: &DiagramOptions, env: &str, default_style: DiagramStyle) -> (r: Result<
    DiagramStyle,
    String,
>)
    ensures
        match r {
            Ok(s) => style_of(opts@, env@, default_style) == Ok::<DiagramStyle, Seq<char>>(s),
            Err(m) => style_of(opts@, env@, default_style) == Err::<DiagramStyle, Seq<char>>(m@),
        },
{
    match opts.get("style") {
        None => Ok(default_style),
        Some(name) => match DiagramStyle::named(name.as_str()) {
            Some(s) => Ok(s),
            None => {
                let mut m = text::cat5(
                    "Invalid ",
                    env,
                    " option style='",
                    name.as_str(),
                    "' — valid values are: ",
                );
                text::push(&mut m, style::VALID_STYLE_NAMES);
                Err(m)
            },
        },
    }
}

proof fn lemma_options_at(s: Seq<char>)
    ensures
        options_at(s).1.len() <= s.len(),
{
    lemma_trim_start_char_len(s, '\n');
    lemma_trim_start_char_len(text::trim_start_char(s, '\n'), '\r');
    text::lemma_find_char_bounds(behind_breaks(s), ']', 0);
}

proof fn lemma_trim_start_char_len(s: Seq<char>, c: char)
    ensures
        text::trim_start_char(s, c).len() <= s.len(),
    decreases s.len(),
{
    if s.len() > 0 && s[0] == c {
        lemma_trim_start_char_len(s.skip(1), c);
    }
}

proof fn lemma_first_block(s: Seq<char>, env: Seq<char>, default_style: DiagramStyle)
    ensures
        first_block(s, env, default_style) matches Ok(Some(b)) ==> b.rest.len() < s.len(),
{
    reveal_strlit("\\begin{");
    text::lemma_find_bounds(s, begin_tag(env), 0);
    match text::find(s, begin_tag(env)) {
        Some(k) => {
            let after = s.skip(k + begin_tag(env).len());
            lemma_options_at(after);
            text::lemma_find_bounds(options_at(after).1, end_tag(env), 0);
        },
        None => {},
    }
}

/// Find the first block of a text, check its options and cut it out.
pub fn next_block(s: &str, env: &str, default_style: DiagramStyle) -> (r: Result<
    Option<DiagramBlock>,
    String,
>)
    ensures
        match r {
            Ok(Some(b)) => first_block(s@, env@, default_style) == Ok::<
                Option<BlockView>,
                Seq<char>,
            >(Some(b@)),
            Ok(None) => first_block(s@, env@, default_style) == Ok::<
                Option<BlockView>,
                Seq<char>,
            >(None),
            Err(m) => first_block(s@, env@, default_style) == Err::<Option<BlockView>, Seq<char>>(
                m@,
            ),
        },
{
    let c = chars_of(s);
    let all = c.as_slice();
    let begin = chars_of(text::cat3("\\begin{", env, "}").as_str());
    let end = chars_of(text::cat3("\\end{", env, "}").as_str());
    proof {
        reveal_strlit("\\begin{");
        reveal_strlit("\\end{");
        text::lemma_find_bounds(s@, begin_tag(env@), 0);
    }
    let k = match text::find_text(all, begin.as_slice()) {
        Some(k) => k,
        None => {
            return Ok(None);
        },
    };
    let total: usize = all.len();
    let after = text::from(all, k + begin.len());
    let (opts, body) = split_options(after);
    proof {
        text::lemma_find_bounds(body@, end_tag(env@), 0);
    }
    let e = match text::find_text(body, end.as_slice()) {
        Some(e) => e,
        None => {
            return Err(text::cat5("\\begin{", env, "} without matching \\end{", env, "}"));
        },
    };
    let length: usize = body.len();
    if let Err(m) = validate_pos_option(&opts, env) {
        return Err(m);
    }
    let style = match resolve_style(&opts, env, default_style) {
        Ok(s) => s,
        Err(m) => {
            return Err(m);
        },
    };
    let b = DiagramBlock {
        before: string_of(text::upto(all, k)),
        opts,
        source: string_of(text::trimmed(text::upto(body, e))),
        style,
        rest: string_of(text::from(body, e + end.len())),
    };
    Ok(Some(b))
}

// ---------------------------------------------------------------------------
// Rendering
// ---------------------------------------------------------------------------

/// A diagram to render: the environment it comes from, its source, its style, and the
/// name, without its ending, of the file it is rendered to.
#[derive(Debug)]
pub struct DiagramJob {
    pub env: String,
    pub source: String,
    pub style: DiagramStyle,
    pub base: String,
}

/// What a [`DiagramJob`] says.
pub struct JobView {
    pub env: Seq<char>,
    pub source: Seq<char>,
    pub style: DiagramStyle,
    pub base: Seq<char>,
}

impl View for DiagramJob {
    type V = JobView;

    open spec fn view(&self) -> JobView {
        JobView {
            env: self.env@,
            source: self.source@,
            style: self.style,
            base: self.base@,
        }
    }
}

/// How far the diagrams of a text are rendered.
#[derive(Debug)]
pub enum Rendering {
    /// The text with its figures.
    Done(String),
    /// The next diagram of which there is no file yet.
    Need(DiagramJob),
    /// A block that is not in order.
    Failed(String),
}

/// What a [`Rendering`] says.
pub enum RenderingView {
    Done(Seq<char>),
    Need(JobView),
    Failed(Seq<char>),
}

impl View for Rendering {
    type V = RenderingView;

    open spec fn view(&self) -> RenderingView {
        match self {
            Rendering::Done(t) => RenderingView::Done(t@),
            Rendering::Need(j) => RenderingView::Need(j@),
            Rendering::Failed(m) => RenderingView::Failed(m@),
        }
    }
}

/// A rendering with a text put before it.
pub open spec fn behind(before: Seq<char>, r: RenderingView) -> RenderingView {
    match r {
        RenderingView::Done(t) => RenderingView::Done(before + t),
        _ => r,
    }
}

/// The file that a block is rendered to, without its ending.
pub open spec fn block_base(b: BlockView, env: Seq<char>) -> Seq<char> {
    artefact_base(env, hash_of(b.source, b.style.rank()))
}

/// The rendering of the blocks of a text, given the names of the files that diagrams were
/// rendered to.
pub open spec fn rendered(
    s: Seq<char>,
    env: Seq<char>,
    default_style: DiagramStyle,
    files: Seq<Seq<char>>,
) -> RenderingView
    decreases s.len(),
    via rendered_decreases
{
    match first_block(s, env, default_style) {
        Err(m) => RenderingView::Failed(m),
        Ok(None) => RenderingView::Done(s),
        Ok(Some(b)) => match cached(files, block_base(b, env)) {
            Some(file) => behind(
                b.before + figure(b.opts, file),
                rendered(b.rest, env, default_style, files),
            ),
            None => RenderingView::Need(
                JobView { env, source: b.source, style: b.style, base: block_base(b, env) },
            ),
        },
    }
}

#[via_fn]
proof fn rendered_decreases(
    s: Seq<char>,
    env: Seq<char>,
    default_style: DiagramStyle,
    files: Seq<Seq<char>>,
) {
    lemma_first_block(s, env, default_style);
}

/// Replace the blocks of one environment with figures, given the names of the files that
/// diagrams were rendered to (`.pdf`, or `.png` where the vector form failed). The first
/// diagram that has no file is asked for.
pub fn render_env(
    content: &str,
    env: &str,
    default_style: DiagramStyle,
    files: &Vec<String>,
) -> (r: Rendering)
    ensures
        r@ == rendered(content@, env@, default_style, text::texts(files@)),
{
    let ghost all = text::texts(files@);
    let ghost whole = rendered(content@, env@, default_style, all);
    let mut result = String::new();
    let mut remaining = text::lit(content);
    assert(behind(Seq::empty(), whole) == whole) by {
        if let RenderingView::Done(t) = whole {
            assert(Seq::<char>::empty() + t =~= t);
        }
    }
    loop
        invariant
            all == text::texts(files@),
            whole == rendered(content@, env@, default_style, all),
            whole == behind(result@, rendered(remaining@, env@, default_style, all)),
        decreases remaining@.len(),
    {
        proof {
            lemma_first_block(remaining@, env@, default_style);
        }
        match next_block(remaining.as_str(), env, default_style) {
            Err(m) => {
                return Rendering::Failed(m);
            },
            Ok(None) => {
                text::push(&mut result, remaining.as_str());
                return Rendering::Done(result);
            },
            Ok(Some(b)) => {
                let base = base_name(env, b.source.as_str(), b.style);
                let filename = match cached_filename(files, base.as_str()) {
                    Some(f) => f,
                    None => {
                        return Rendering::Need(
                            DiagramJob {
                                env: text::lit(env),
                                source: b.source,
                                style: b.style,
                                base,
                            },
                        );
                    },
                };
                let fig = build_figure_environment(&b.opts, filename.as_str());
                let ghost done = result@;
                text::push(&mut result, b.before.as_str());
                text::push(&mut result, fig.as_str());
                proof {
                    let added = b@.before + fig@;
                    assert(result@ =~= done + added);
                    if let RenderingView::Done(t) = rendered(b.rest@, env@, default_style, all) {
                        assert(done + (added + t) =~= (done + added) + t);
                    }
                }
                remaining = b.rest;
            },
        }
    }
}

/// The rendering of all diagrams of a text: the Mermaid ones, then the Graphviz ones, then
/// the D2 ones.
pub open spec fn diagrams_rendered(
    s: Seq<char>,
    default_style: DiagramStyle,
    files: Seq<Seq<char>>,
) -> RenderingView {
    match rendered(s, "mermaid"@, default_style, files) {
        RenderingView::Done(t) => match rendered(t, "graphviz"@, default_style, files) {
            RenderingView::Done(u) => rendered(u, "d2"@, default_style, files),
            other => other,
        },
        other => other,
    }
}

/// Replace all diagrams of a text with figures, given the names of the files that diagrams
/// were rendered to.
pub fn render_diagrams(content: &str, default_style: DiagramStyle, files: &Vec<String>) -> (r:
    Rendering)
    ensures
        r@ == diagrams_rendered(content@, default_style, text::texts(files@)),
{
    match render_env(content, "mermaid", default_style, files) {
        Rendering::Done(t) => match render_env(t.as_str(), "graphviz", default_style, files) {
            Rendering::Done(u) => render_env(u.as_str(), "d2", default_style, files),
            other => other,
        },
        other => other,
    }
}

/// A text without blocks of an environment stays as it is, and asks for nothing.
pub proof fn law_no_blocks_unchanged(
    s: Seq<char>,
    env: Seq<char>,
    default_style: DiagramStyle,
    files: Seq<Seq<char>>,
)
    requires
        !text::contains(s, begin_tag(env)),
    ensures
        rendered(s, env, default_style, files) == RenderingView::Done(s),
{
    text::lemma_contains_find(s, begin_tag(env));
}

/// A rendering that is done stays done as long as its files are there, whatever files come
/// to them: a second rendering asks for no diagram. While the files are the same ones, in
/// whatever order they are listed, it gives the same text.
pub proof fn law_second_rendering_draws_nothing(
    s: Seq<char>,
    env: Seq<char>,
    default_style: DiagramStyle,
    files: Seq<Seq<char>>,
    later: Seq<Seq<char>>,
)
    requires
        rendered(s, env, default_style, files) is Done,
        forall|f: Seq<char>| #[trigger] files.contains(f) ==> later.contains(f),
    ensures
        rendered(s, env, default_style, later) is Done,
        (forall|f: Seq<char>| #[trigger] later.contains(f) ==> files.contains(f)) ==> rendered(
            s,
            env,
            default_style,
            later,
        ) == rendered(s, env, default_style, files),
    decreases s.len(),
{
    lemma_first_block(s, env, default_style);
    if let Ok(Some(b)) = first_block(s, env, default_style) {
        let base = block_base(b, env);
        assert(files.contains(base + ".pdf"@) ==> later.contains(base + ".pdf"@));
        assert(files.contains(base + ".png"@) ==> later.contains(base + ".png"@));
        law_second_rendering_draws_nothing(b.rest, env, default_style, files, later);
    }
}

/// A diagram that has a file, be it the raster form of an earlier fallback, is not asked
/// for again.
pub proof fn law_drawn_once(
    s: Seq<char>,
    env: Seq<char>,
    default_style: DiagramStyle,
    files: Seq<Seq<char>>,
)
    ensures
        rendered(s, env, default_style, files) matches RenderingView::Need(job)
            ==> !files.contains(job.base + ".pdf"@) && !files.contains(job.base + ".png"@),
    decreases s.len(),
{
    lemma_first_block(s, env, default_style);
    if let Ok(Some(b)) = first_block(s, env, default_style) {
        law_drawn_once(b.rest, env, default_style, files);
    }
}

// ---------------------------------------------------------------------------
// Files to copy
// ---------------------------------------------------------------------------

/// The `\input{}` targets of a line, in a comment or not.
pub open spec fn inputs_in_line(line: Seq<char>) -> Seq<Seq<char>>
    decreases line.len(),
    via inputs_in_line_decreases
{
    match text::find(line, "\\input{"@) {
        Some(k) => {
            let after = line.skip(k + "\\input{"@.len());
            match text::find_char(after, '}') {
                Some(e) => seq![text::trim(after.take(e))] + inputs_in_line(after.skip(e + 1)),
                None => Seq::empty(),
            }
        },
        None => Seq::empty(),
    }
}

#[via_fn]
proof fn inputs_in_line_decreases(line: Seq<char>) {
    reveal_strlit("\\input{");
    text::lemma_find_bounds(line, "\\input{"@, 0);
    match text::find(line, "\\input{"@) {
        Some(k) => {
            text::lemma_find_char_bounds(line.skip(k + "\\input{"@.len()), '}', 0);
        },
        None => {},
    }
}

/// The `\input{}` targets of the lines from the `k`-th on.
pub open spec fn inputs_in_lines(ls: Seq<Seq<char>>, k: int) -> Seq<Seq<char>>
    decreases ls.len() - k,
{
    if k < 0 || k >= ls.len() {
        Seq::empty()
    } else {
        inputs_in_line(ls[k]) + inputs_in_lines(ls, k + 1)
    }
}

/// A walk over the files of a document on its way: the targets still to visit, the next
/// one first, and the files found.
#[verifier::ext_equal]
pub struct WalkView {
    pub root: Seq<char>,
    pub pending: Seq<Seq<char>>,
    pub files: Seq<Seq<char>>,
}

impl WalkView {
    /// The walk that starts at `entry`.
    pub open spec fn start(root: Seq<char>, entry: Seq<char>) -> WalkView {
        WalkView { root, pending: seq![entry], files: Seq::empty() }
    }

    /// The path of the next target.
    pub open spec fn next(self) -> Seq<char> {
        texutil::tex_path(self.root, self.pending[0])
    }

    /// The walk after the next target, given what there is at its path: nothing and a file
    /// found before are skipped, and the targets inside a new file come before those that
    /// were pending.
    pub open spec fn step(self, source: SourceView) -> WalkView {
        let rest = self.pending.skip(1);
        if source is Missing || paths::lists(self.files, self.next()) {
            WalkView { pending: rest, ..self }
        } else {
            WalkView {
                pending: match source {
                    SourceView::Text(t) => inputs_in_lines(text::lines(t), 0) + rest,
                    _ => rest,
                },
                files: self.files.push(self.next()),
                ..self
            }
        }
    }
}

/// The files that a walk finds, given all files.
pub open spec fn walked(w: WalkView, tree: Seq<(Seq<char>, Option<Seq<char>>)>) -> Seq<Seq<char>>
    decreases texutil::unvisited(tree, w.files, 0), w.pending.len(),
    via walked_decreases
{
    if w.pending.len() == 0 {
        w.files
    } else {
        walked(w.step(texutil::source_at(tree, w.next())), tree)
    }
}

#[via_fn]
proof fn walked_decreases(w: WalkView, tree: Seq<(Seq<char>, Option<Seq<char>>)>) {
    if w.pending.len() > 0 {
        lemma_step_decreases(w, tree);
    }
}

proof fn lemma_step_decreases(w: WalkView, tree: Seq<(Seq<char>, Option<Seq<char>>)>)
    requires
        w.pending.len() > 0,
    ensures
        ({
            let u = w.step(texutil::source_at(tree, w.next()));
            let a = texutil::unvisited(tree, w.files, 0);
            let b = texutil::unvisited(tree, u.files, 0);
            b < a || (b == a && u.pending.len() < w.pending.len())
        }),
{
    texutil::lemma_file_at(tree, w.next(), 0);
    texutil::lemma_unvisited(tree, w.files, w.next(), 0);
}

/// A walk over the files of a document that asks for the sources one by one.
pub struct FileWalk {
    root: String,
    pending: Vec<String>,
    files: Vec<String>,
}

impl View for FileWalk {
    type V = WalkView;

    closed spec fn view(&self) -> WalkView {
        WalkView {
            root: self.root@,
            pending: text::texts(self.pending@).reverse(),
            files: text::texts(self.files@),
        }
    }
}

fn inputs_of_line(line: &[char], out: &mut Vec<String>)
    ensures
        text::texts(final(out)@) == text::texts(old(out)@) + inputs_in_line(line@),
{
    let pattern = chars_of("\\input{");
    let width: usize = pattern.len();
    let ghost start = text::texts(out@);
    let mut search = line;
    loop
        invariant
            pattern@ == "\\input{"@,
            width == pattern@.len(),
            start == text::texts(old(out)@),
            start + inputs_in_line(line@) == text::texts(out@) + inputs_in_line(search@),
        decreases search@.len(),
    {
        proof {
            reveal_strlit("\\input{");
            text::lemma_find_bounds(search@, "\\input{"@, 0);
        }
        let total: usize = search.len();
        match text::find_text(search, pattern.as_slice()) {
            Some(k) => {
                let after = text::from(search, k + width);
                proof {
                    text::lemma_find_char_bounds(after@, '}', 0);
                }
                let length: usize = after.len();
                match text::find_ch(after, '}') {
                    Some(e) => {
                        let ghost done = text::texts(out@);
                        let target = string_of(text::trimmed(text::upto(after, e)));
                        out.push(target);
                        let rest = text::from(after, e + 1);
                        assert(done + (seq![target@] + inputs_in_line(rest@)) =~= text::texts(out@)
                            + inputs_in_line(rest@));
                        search = rest;
                    },
                    None => {
                        assert(text::texts(out@) + Seq::<Seq<char>>::empty() =~= text::texts(out@));
                        return;
                    },
                }
            },
            None => {
                assert(text::texts(out@) + Seq::<Seq<char>>::empty() =~= text::texts(out@));
                return;
            },
        }
    }
}

fn inputs_of_text(content: &str) -> (r: Vec<String>)
    ensures
        text::texts(r@) == inputs_in_lines(text::lines(content@), 0),
{
    let c = chars_of(content);
    let ls = text::lines_of(c.as_slice());
    let ghost all = text::slices(ls@);
    let mut out: Vec<String> = Vec::new();
    let mut k: usize = 0;
    assert(text::texts(out@) + inputs_in_lines(all, 0) =~= inputs_in_lines(all, 0));
    while k < ls.len()
        invariant
            k <= ls@.len(),
            all == text::slices(ls@),
            text::texts(out@) + inputs_in_lines(all, k as int) == inputs_in_lines(all, 0),
        decreases ls@.len() - k,
    {
        let ghost done = text::texts(out@);
        assert(all[k as int] == ls@[k as int]@);
        inputs_of_line(ls[k], &mut out);
        assert(done + (inputs_in_line(all[k as int]) + inputs_in_lines(all, k + 1)) =~= text::texts(
            out@,
        ) + inputs_in_lines(all, k + 1));
        k = k + 1;
    }
    assert(text::texts(out@) + inputs_in_lines(all, k as int) =~= text::texts(out@));
    out
}

/// Puts what was found on the stack, so that it is taken first and in its order.
fn put_first(pending: &mut Vec<String>, found: Vec<String>)
    ensures
        text::texts(final(pending)@).reverse() == text::texts(found@) + text::texts(
            old(pending)@,
        ).reverse(),
{
    let ghost inner = text::texts(found@);
    let ghost rest = text::texts(pending@).reverse();
    let mut left = found;
    assert(inner.take(left@.len() as int) =~= inner);
    assert(inner.skip(left@.len() as int) + rest =~= rest);
    while left.len() > 0
        invariant
            left@.len() <= inner.len(),
            text::texts(left@) == inner.take(left@.len() as int),
            text::texts(pending@).reverse() == inner.skip(left@.len() as int) + rest,
        decreases left@.len(),
    {
        let ghost k = left@.len() - 1;
        let ghost prior = text::texts(pending@);
        assert(text::texts(left@)[k] == left@[k]@);
        if let Some(e) = left.pop() {
            pending.push(e);
            assert(text::texts(pending@).reverse() =~= seq![e@] + prior.reverse());
            assert(inner.skip(k) =~= seq![e@] + inner.skip(k + 1));
            assert(seq![e@] + (inner.skip(k + 1) + rest) =~= inner.skip(k) + rest);
        }
        assert(text::texts(left@) =~= inner.take(k));
    }
    assert(inner.skip(0) =~= inner);
}

impl FileWalk {
    /// The walk that starts at `entry`.
    pub fn new(root: &str, entry: &str) -> (r: FileWalk)
        ensures
            r@ == WalkView::start(root@, entry@),
    {
        let mut pending: Vec<String> = Vec::new();
        pending.push(text::lit(entry));
        let r = FileWalk { root: text::lit(root), pending, files: Vec::new() };
        assert(r@ =~= WalkView::start(root@, entry@));
        r
    }

    /// The path whose source is asked for next, or nothing at the end.
    pub fn next_path(&self) -> (r: Option<String>)
        ensures
            match r {
                Some(p) => self@.pending.len() > 0 && p@ == self@.next(),
                None => self@.pending.len() == 0,
            },
    {
        let n: usize = self.pending.len();
        if n == 0 {
            return None;
        }
        assert(self@.pending[0] == self.pending@[n - 1]@);
        Some(texutil::resolve_tex_path(self.root.as_str(), self.pending[n - 1].as_str()))
    }

    /// Goes on with what there is at the path that was asked for.
    pub fn supply(&mut self, source: Source)
        requires
            old(self)@.pending.len() > 0,
        ensures
            final(self)@ == old(self)@.step(source@),
    {
        let ghost before = self@;
        let ghost stack = text::texts(self.pending@);
        let entry = match self.pending.pop() {
            Some(e) => e,
            None => String::new(),
        };
        assert(entry@ == before.pending[0]);
        let ghost rest = text::texts(self.pending@);
        assert(rest =~= stack.drop_last());
        assert(rest.reverse() =~= before.pending.skip(1));
        let path = texutil::resolve_tex_path(self.root.as_str(), entry.as_str());
        if paths::listed(&self.files, path.as_str()) {
            assert(self@ =~= before.step(source@));
            return;
        }
        match source {
            Source::Missing => {},
            Source::Unreadable => {
                self.files.push(path);
            },
            Source::Text(t) => {
                self.files.push(path);
                let found = inputs_of_text(t.as_str());
                put_first(&mut self.pending, found);
            },
        }
        assert(self@ =~= before.step(source@));
    }

    /// The files found.
    pub fn finish(self) -> (r: Vec<String>)
        ensures
            text::texts(r@) == self@.files,
    {
        self.files
    }
}

/// Collect the `.tex` files that `\input{}` reaches from `entry`, given all files. A file
/// that only a comment refers to is collected too.
pub fn collect_tex_files(root: &str, entry: &str, tree: &Vec<SourceFile>) -> (r: Vec<String>)
    ensures
        text::texts(r@) == walked(WalkView::start(root@, entry@), texutil::tree_view(tree@)),
{
    let ghost all = texutil::tree_view(tree@);
    let ghost result = walked(WalkView::start(root@, entry@), all);
    let mut w = FileWalk::new(root, entry);
    loop
        invariant
            all == texutil::tree_view(tree@),
            walked(w@, all) == result,
            result == walked(WalkView::start(root@, entry@), all),
        decreases texutil::unvisited(all, w@.files, 0), w@.pending.len(),
    {
        match w.next_path() {
            None => {
                return w.finish();
            },
            Some(p) => {
                proof {
                    lemma_step_decreases(w@, all);
                }
                let source = texutil::find_source(tree, p.as_str());
                w.supply(source);
            },
        }
    }
}

/// Where the copy of a file goes, given the build directory.
pub fn copy_path(root: &str, file: &str, build_dir: &str) -> (r: String)
    ensures
        r@ == paths::joined(build_dir@, paths::relative_or_self(file@, root@)),
{
    paths::join(build_dir, paths::relative_or_path(file, root).as_str())
}

/// The copy of a source lies under the build directory as the source lies under the root,
/// so that the source itself is left alone. A source outside the root has no such copy.
pub proof fn law_copies_lie_in_the_build_directory(
    root: Seq<char>,
    file: Seq<char>,
    build_dir: Seq<char>,
)
    requires
        paths::is_under(file, root),
        paths::components(root).len() > 0,
    ensures
        paths::is_under(
            paths::joined(build_dir, paths::relative_or_self(file, root)),
            build_dir,
        ),
{
    paths::law_relative_is_relative(file, root);
    paths::law_join_stays_under(build_dir, paths::relative_or_self(file, root));
}

} // verus!
