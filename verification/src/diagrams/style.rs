//! Named diagram style presets: `default`, `editorial`, `monochrome`, `technical`.
//!
//! A preset is one [`Palette`], mapped onto the theming vocabulary of each renderer.
//! `default` has none: renderers keep their own look, so leaving out `style=` never
//! changes how a document looks.
//!
//! Renderers differ in what they can express. Mermaid has a rich theme and D2 a named
//! palette. Graphviz has attributes of nodes and edges only, so that a background of the
//! whole document and monospaced labels cannot be expressed there.

use vstd::prelude::*;

use crate::text::{self, chars_of};

verus! {

broadcast use text::lemma_texts_push;

/// The four supported style presets.
#[derive(Debug, Clone, Copy, PartialEq, Eq, Structural)]
pub enum DiagramStyle {
    /// Each renderer's own untouched default.
    Default,
    /// Restrained palette, one accent colour, no shadows, thin strokes, generous
    /// whitespace.
    Editorial,
    /// Greyscale only, for black-and-white printing.
    Monochrome,
    /// Drafting register: uniform stroke weight, no fills, monospaced labels where the
    /// renderer allows it.
    Technical,
}

/// The valid style names in the order in which errors list them.
pub const VALID_STYLE_NAMES: &'static str = "default, editorial, monochrome, technical";

/// The palette that a preset expresses.
#[derive(Debug, Clone, Copy)]
pub struct Palette {
    pub background: &'static str,
    pub foreground: &'static str,
    pub neutral: &'static str,
    pub neutral_light: &'static str,
    /// The one accent colour of a preset; the greyscale presets have none.
    pub accent: Option<&'static str>,
    /// Whether labels are set in a monospaced face.
    pub monospace: bool,
}

/// What a [`Palette`] says.
pub struct PaletteView {
    pub background: Seq<char>,
    pub foreground: Seq<char>,
    pub neutral: Seq<char>,
    pub neutral_light: Seq<char>,
    pub accent: Option<Seq<char>>,
    pub monospace: bool,
}

impl View for Palette {
    type V = PaletteView;

    open spec fn view(&self) -> PaletteView {
        PaletteView {
            background: self.background@,
            foreground: self.foreground@,
            neutral: self.neutral@,
            neutral_light: self.neutral_light@,
            accent: match self.accent {
                Some(a) => Some(a@),
                None => None,
            },
            monospace: self.monospace,
        }
    }
}

impl PaletteView {
    /// The accent colour, or the neutral one where there is none.
    pub open spec fn accent_or_neutral(self) -> Seq<char> {
        match self.accent {
            Some(a) => a,
            None => self.neutral,
        }
    }
}

/// The style with a name.
pub open spec fn style_named(name: Seq<char>) -> Option<DiagramStyle> {
    if name == "default"@ {
        Some(DiagramStyle::Default)
    } else if name == "editorial"@ {
        Some(DiagramStyle::Editorial)
    } else if name == "monochrome"@ {
        Some(DiagramStyle::Monochrome)
    } else if name == "technical"@ {
        Some(DiagramStyle::Technical)
    } else {
        None
    }
}

/// The palette of a style. The tint of the editorial one fills the nodes and not the
/// background, because a diagram sits on the printed page.
pub open spec fn palette_of(style: DiagramStyle) -> Option<PaletteView> {
    match style {
        DiagramStyle::Default => None,
        DiagramStyle::Editorial => Some(
            PaletteView {
                background: "#FFFFFF"@,
                foreground: "#1B1B1A"@,
                neutral: "#54514C"@,
                neutral_light: "#F5F5F3"@,
                accent: Some("#B2362C"@),
                monospace: false,
            },
        ),
        DiagramStyle::Monochrome => Some(
            PaletteView {
                background: "#FFFFFF"@,
                foreground: "#1A1A1A"@,
                neutral: "#808080"@,
                neutral_light: "#E8E8E8"@,
                accent: None,
                monospace: false,
            },
        ),
        DiagramStyle::Technical => Some(
            PaletteView {
                background: "#FFFFFF"@,
                foreground: "#1A1A1A"@,
                neutral: "#555555"@,
                neutral_light: "#FFFFFF"@,
                accent: None,
                monospace: true,
            },
        ),
    }
}

impl DiagramStyle {
    /// The style with a name, where there is one.
    pub fn named(name: &str) -> (r: Option<DiagramStyle>)
        ensures
            r == style_named(name@),
    {
        if text::same_str(name, "default") {
            Some(DiagramStyle::Default)
        } else if text::same_str(name, "editorial") {
            Some(DiagramStyle::Editorial)
        } else if text::same_str(name, "monochrome") {
            Some(DiagramStyle::Monochrome)
        } else if text::same_str(name, "technical") {
            Some(DiagramStyle::Technical)
        } else {
            None
        }
    }

    /// Parse a style name. An unknown name is an error that names it and the valid ones:
    /// falling back to `default` would hide a typo until the document is printed.
    pub fn parse(name: &str) -> (r: Result<DiagramStyle, String>)
        ensures
            match r {
                Ok(s) => style_named(name@) == Some(s),
                Err(m) => style_named(name@) is None && m@ == "Unknown diagram style '"@ + name@
                    + "' — valid styles are: "@ + VALID_STYLE_NAMES@,
            },
    {
        match DiagramStyle::named(name) {
            Some(s) => Ok(s),
            None => Err(
                text::cat4(
                    "Unknown diagram style '",
                    name,
                    "' — valid styles are: ",
                    VALID_STYLE_NAMES,
                ),
            ),
        }
    }

    /// The number of the style, from 0 on.
    pub open spec fn rank(self) -> u8 {
        match self {
            DiagramStyle::Default => 0,
            DiagramStyle::Editorial => 1,
            DiagramStyle::Monochrome => 2,
            DiagramStyle::Technical => 3,
        }
    }

    /// The number of the style, from 0 on.
    pub fn number(self) -> (r: u8)
        ensures
            r == self.rank(),
    {
        match self {
            DiagramStyle::Default => 0,
            DiagramStyle::Editorial => 1,
            DiagramStyle::Monochrome => 2,
            DiagramStyle::Technical => 3,
        }
    }

    /// The palette that this preset expresses, or nothing for `Default`.
    pub fn palette(self) -> (r: Option<Palette>)
        ensures
            match r {
                Some(p) => palette_of(self) == Some(p@),
                None => palette_of(self) is None,
            },
    {
        match self {
            DiagramStyle::Default => None,
            DiagramStyle::Editorial => Some(
                Palette {
                    background: "#FFFFFF",
                    foreground: "#1B1B1A",
                    neutral: "#54514C",
                    neutral_light: "#F5F5F3",
                    accent: Some("#B2362C"),
                    monospace: false,
                },
            ),
            DiagramStyle::Monochrome => Some(
                Palette {
                    background: "#FFFFFF",
                    foreground: "#1A1A1A",
                    neutral: "#808080",
                    neutral_light: "#E8E8E8",
                    accent: None,
                    monospace: false,
                },
            ),
            DiagramStyle::Technical => Some(
                Palette {
                    background: "#FFFFFF",
                    foreground: "#1A1A1A",
                    neutral: "#555555",
                    neutral_light: "#FFFFFF",
                    accent: None,
                    monospace: true,
                },
            ),
        }
    }
}

impl Palette {
    fn accent_or_neutral(&self) -> (r: &'static str)
        ensures
            r@ == self@.accent_or_neutral(),
    {
        match self.accent {
            Some(a) => a,
            None => self.neutral,
        }
    }
}

// ---------------------------------------------------------------------------
// Mermaid
// ---------------------------------------------------------------------------

/// The theme of a Mermaid diagram. Sizes and widths are in whole units.
#[derive(Debug, Clone)]
pub struct MermaidTheme {
    pub font_family: &'static str,
    pub font_size: u8,
    pub primary_color: &'static str,
    pub primary_text_color: &'static str,
    pub primary_border_color: &'static str,
    pub line_color: &'static str,
    pub secondary_color: &'static str,
    pub tertiary_color: &'static str,
    pub edge_label_background: &'static str,
    pub cluster_background: &'static str,
    pub cluster_border: &'static str,
    pub background: &'static str,
    pub sequence_actor_fill: &'static str,
    pub sequence_actor_border: &'static str,
    pub sequence_actor_line: &'static str,
    pub sequence_note_fill: &'static str,
    pub sequence_note_border: &'static str,
    pub sequence_activation_fill: &'static str,
    pub sequence_activation_border: &'static str,
    pub text_color: &'static str,
    pub git_colors: Vec<String>,
    pub git_inv_colors: Vec<String>,
    pub git_branch_label_colors: Vec<String>,
    pub git_commit_label_color: &'static str,
    pub git_commit_label_background: &'static str,
    pub git_tag_label_color: &'static str,
    pub git_tag_label_background: &'static str,
    pub git_tag_label_border: &'static str,
    pub pie_colors: Vec<String>,
    pub pie_title_text_size: u8,
    pub pie_title_text_color: &'static str,
    pub pie_section_text_size: u8,
    pub pie_section_text_color: &'static str,
    pub pie_legend_text_size: u8,
    pub pie_legend_text_color: &'static str,
    pub pie_stroke_color: &'static str,
    pub pie_stroke_width: u8,
    pub pie_outer_stroke_width: u8,
    pub pie_outer_stroke_color: &'static str,
    pub pie_opacity: u8,
}

/// How a styled Mermaid diagram is rendered: its theme, and by how many tenths the
/// spacing of nodes and of ranks is scaled.
#[derive(Debug, Clone)]
pub struct MermaidOptions {
    pub theme: MermaidTheme,
    pub spacing_tenths: u8,
}

/// The face of labels.
pub open spec fn label_face(monospace: bool) -> Seq<char> {
    if monospace {
        "'Courier New', 'DejaVu Sans Mono', ui-monospace, monospace"@
    } else {
        "'Helvetica Neue', Helvetica, Arial, sans-serif"@
    }
}

/// The colours of a palette, in the order in which pie sections take them.
pub open spec fn pie_cycle(p: PaletteView) -> Seq<Seq<char>> {
    seq![p.background, p.accent_or_neutral(), p.neutral, p.neutral_light, p.foreground]
}

/// The colours of twelve pie sections.
pub open spec fn pie_colors(p: PaletteView) -> Seq<Seq<char>> {
    Seq::new(12, |k: int| pie_cycle(p)[k % 5])
}

/// The colours of eight branches.
pub open spec fn branch_colors(p: PaletteView) -> Seq<Seq<char>> {
    seq![
        p.foreground,
        p.accent_or_neutral(),
        p.neutral,
        p.neutral_light,
        p.background,
        p.foreground,
        p.accent_or_neutral(),
        p.neutral,
    ]
}

/// One colour for eight branches.
pub open spec fn eight(c: Seq<char>) -> Seq<Seq<char>> {
    Seq::new(8, |k: int| c)
}

impl MermaidTheme {
    /// Whether the face and the sizes of text and strokes are those for a palette.
    pub open spec fn measures(self, p: PaletteView) -> bool {
        &&& self.font_family@ == label_face(p.monospace)
        &&& self.font_size == 14
        &&& self.pie_title_text_size == 20
        &&& self.pie_section_text_size == 14
        &&& self.pie_legend_text_size == 14
        &&& self.pie_stroke_width == 1
        &&& self.pie_outer_stroke_width == 1
        &&& self.pie_opacity == 1
    }

    /// Whether text is in the foreground colour.
    pub open spec fn inks(self, p: PaletteView) -> bool {
        &&& self.primary_text_color@ == p.foreground
        &&& self.text_color@ == p.foreground
        &&& self.git_commit_label_color@ == p.foreground
        &&& self.git_tag_label_color@ == p.foreground
        &&& self.pie_title_text_color@ == p.foreground
        &&& self.pie_section_text_color@ == p.foreground
        &&& self.pie_legend_text_color@ == p.foreground
        &&& self.pie_stroke_color@ == p.foreground
    }

    /// Whether shapes are filled with the light neutral colour, and what lies behind them
    /// has the background colour.
    pub open spec fn fills(self, p: PaletteView) -> bool {
        &&& self.primary_color@ == p.neutral_light
        &&& self.secondary_color@ == p.neutral_light
        &&& self.cluster_background@ == p.neutral_light
        &&& self.sequence_actor_fill@ == p.neutral_light
        &&& self.sequence_note_fill@ == p.neutral_light
        &&& self.sequence_activation_fill@ == p.neutral_light
        &&& self.git_tag_label_background@ == p.neutral_light
        &&& self.tertiary_color@ == p.background
        &&& self.edge_label_background@ == p.background
        &&& self.background@ == p.background
        &&& self.git_commit_label_background@ == p.background
    }

    /// Whether outlines are drawn in the neutral colour, and the accent is kept for the
    /// lines that connect shapes.
    pub open spec fn strokes(self, p: PaletteView) -> bool {
        &&& self.primary_border_color@ == p.neutral
        &&& self.cluster_border@ == p.neutral
        &&& self.sequence_actor_border@ == p.neutral
        &&& self.sequence_actor_line@ == p.neutral
        &&& self.sequence_note_border@ == p.neutral
        &&& self.sequence_activation_border@ == p.neutral
        &&& self.git_tag_label_border@ == p.neutral
        &&& self.pie_outer_stroke_color@ == p.neutral
        &&& self.line_color@ == p.accent_or_neutral()
    }

    /// Whether branches and pie sections have their colours.
    pub open spec fn series(self, p: PaletteView) -> bool {
        &&& text::texts(self.git_colors@) == branch_colors(p)
        &&& text::texts(self.git_inv_colors@) == eight(p.background)
        &&& text::texts(self.git_branch_label_colors@) == eight(p.foreground)
        &&& text::texts(self.pie_colors@) == pie_colors(p)
    }
}

fn repeat_color(c: &str, n: usize) -> (r: Vec<String>)
    ensures
        text::texts(r@) == Seq::new(n as nat, |k: int| c@),
{
    let mut out: Vec<String> = Vec::new();
    let mut k: usize = 0;
    assert(text::texts(out@) =~= Seq::new(0, |k: int| c@));
    while k < n
        invariant
            k <= n,
            text::texts(out@) == Seq::new(k as nat, |k: int| c@),
        decreases n - k,
    {
        out.push(text::lit(c));
        assert(Seq::new((k + 1) as nat, |k: int| c@) =~= Seq::new(k as nat, |k: int| c@).push(c@));
        k = k + 1;
    }
    out
}

fn branch_list(p: &Palette) -> (r: Vec<String>)
    ensures
        text::texts(r@) == branch_colors(p@),
{
    let accent = p.accent_or_neutral();
    let mut out: Vec<String> = Vec::new();
    out.push(text::lit(p.foreground));
    out.push(text::lit(accent));
    out.push(text::lit(p.neutral));
    out.push(text::lit(p.neutral_light));
    out.push(text::lit(p.background));
    out.push(text::lit(p.foreground));
    out.push(text::lit(accent));
    out.push(text::lit(p.neutral));
    assert(text::texts(out@) =~= branch_colors(p@));
    out
}

fn pie_list(p: &Palette) -> (r: Vec<String>)
    ensures
        text::texts(r@) == pie_colors(p@),
{
    let accent = p.accent_or_neutral();
    let ghost all = pie_colors(p@);
    let mut out: Vec<String> = Vec::new();
    let mut k: usize = 0;
    assert(text::texts(out@) =~= all.take(0));
    while k < 12
        invariant
            k <= 12,
            all == pie_colors(p@),
            accent@ == p@.accent_or_neutral(),
            text::texts(out@) == all.take(k as int),
        decreases 12 - k,
    {
        let m = k % 5;
        let c = if m == 0 {
            p.background
        } else if m == 1 {
            accent
        } else if m == 2 {
            p.neutral
        } else if m == 3 {
            p.neutral_light
        } else {
            p.foreground
        };
        assert(c@ == all[k as int]);
        out.push(text::lit(c));
        assert(all.take(k + 1) =~= all.take(k as int).push(all[k as int]));
        k = k + 1;
    }
    assert(all.take(12) =~= all);
    out
}

/// How a Mermaid diagram of a style is rendered; nothing for `Default`, which leaves the
/// renderer as it is. The editorial style has more whitespace.
pub fn mermaid_options(style: DiagramStyle) -> (r: Option<MermaidOptions>)
    ensures
        r is Some == palette_of(style) is Some,
        r matches Some(o) ==> {
            let p = palette_of(style)->0;
            &&& o.theme.measures(p)
            &&& o.theme.inks(p)
            &&& o.theme.fills(p)
            &&& o.theme.strokes(p)
            &&& o.theme.series(p)
            &&& o.spacing_tenths == if style is Editorial {
                14
            } else {
                10int
            }
        },
{
    let p = match style.palette() {
        Some(p) => p,
        None => {
            return None;
        },
    };
    let accent = p.accent_or_neutral();
    let font_family = if p.monospace {
        "'Courier New', 'DejaVu Sans Mono', ui-monospace, monospace"
    } else {
        "'Helvetica Neue', Helvetica, Arial, sans-serif"
    };
    let theme = MermaidTheme {
        font_family,
        font_size: 14,
        primary_color: p.neutral_light,
        primary_text_color: p.foreground,
        primary_border_color: p.neutral,
        line_color: accent,
        secondary_color: p.neutral_light,
        tertiary_color: p.background,
        edge_label_background: p.background,
        cluster_background: p.neutral_light,
        cluster_border: p.neutral,
        background: p.background,
        sequence_actor_fill: p.neutral_light,
        sequence_actor_border: p.neutral,
        sequence_actor_line: p.neutral,
        sequence_note_fill: p.neutral_light,
        sequence_note_border: p.neutral,
        sequence_activation_fill: p.neutral_light,
        sequence_activation_border: p.neutral,
        text_color: p.foreground,
        git_colors: branch_list(&p),
        git_inv_colors: repeat_color(p.background, 8),
        git_branch_label_colors: repeat_color(p.foreground, 8),
        git_commit_label_color: p.foreground,
        git_commit_label_background: p.background,
        git_tag_label_color: p.foreground,
        git_tag_label_background: p.neutral_light,
        git_tag_label_border: p.neutral,
        pie_colors: pie_list(&p),
        pie_title_text_size: 20,
        pie_title_text_color: p.foreground,
        pie_section_text_size: 14,
        pie_section_text_color: p.foreground,
        pie_legend_text_size: 14,
        pie_legend_text_color: p.foreground,
        pie_stroke_color: p.foreground,
        pie_stroke_width: 1,
        pie_outer_stroke_width: 1,
        pie_outer_stroke_color: p.neutral,
        pie_opacity: 1,
    };
    let spacing_tenths: u8 = match style {
        DiagramStyle::Editorial => 14,
        _ => 10,
    };
    Some(MermaidOptions { theme, spacing_tenths })
}

// ---------------------------------------------------------------------------
// D2
// ---------------------------------------------------------------------------

/// A line of the overrides of a D2 theme.
pub open spec fn d2_line(key: Seq<char>, color: Seq<char>) -> Seq<char> {
    "      "@ + key + ": \""@ + color + "\"\n"@
}

/// The overrides of a D2 theme: the neutral, base and accent colours.
pub open spec fn d2_lines(p: PaletteView) -> Seq<(Seq<char>, Seq<char>)> {
    seq![
        ("N1"@, p.foreground),
        ("N2"@, p.neutral),
        ("N3"@, p.neutral),
        ("N4"@, p.neutral_light),
        ("N5"@, p.neutral_light),
        ("N6"@, p.neutral_light),
        ("N7"@, p.background),
        ("B1"@, p.foreground),
        ("B2"@, p.accent_or_neutral()),
        ("B3"@, p.neutral),
        ("B4"@, p.neutral_light),
        ("B5"@, p.neutral_light),
        ("B6"@, p.background),
        ("AA2"@, p.accent_or_neutral()),
        ("AA4"@, p.neutral_light),
        ("AA5"@, p.background),
        ("AB4"@, p.neutral_light),
        ("AB5"@, p.background),
    ]
}

/// The first `k` of the overrides.
pub open spec fn d2_overrides(lines: Seq<(Seq<char>, Seq<char>)>, k: int) -> Seq<char>
    decreases k,
{
    if k <= 0 || k > lines.len() {
        Seq::empty()
    } else {
        d2_overrides(lines, k - 1) + d2_line(lines[k - 1].0, lines[k - 1].1)
    }
}

/// The configuration that stands before the source of a D2 diagram. A monospaced style
/// builds on theme 301, whose labels are monospaced, and any other on theme 0.
pub open spec fn d2_config(p: PaletteView) -> Seq<char> {
    "vars: {\n  d2-config: {\n    theme-id: "@ + (if p.monospace {
        "301"@
    } else {
        "0"@
    }) + "\n    theme-overrides: {\n"@ + d2_overrides(d2_lines(p), 18) + "    }\n  }\n}\n"@
}

fn d2_push(out: &mut String, key: &str, color: &str)
    ensures
        final(out)@ == old(out)@ + d2_line(key@, color@),
{
    let ghost before = out@;
    text::push(out, "      ");
    text::push(out, key);
    text::push(out, ": \"");
    text::push(out, color);
    text::push(out, "\"\n");
    assert(out@ =~= before + d2_line(key@, color@));
}

/// The overrides of a palette.
fn d2_palette(p: &Palette) -> (r: String)
    ensures
        r@ == d2_overrides(d2_lines(p@), 18),
{
    let accent = p.accent_or_neutral();
    let ghost lines = d2_lines(p@);
    let mut out = String::new();
    assert(out@ == d2_overrides(lines, 0));
    d2_push(&mut out, "N1", p.foreground);
    assert(out@ == d2_overrides(lines, 1));
    d2_push(&mut out, "N2", p.neutral);
    assert(out@ == d2_overrides(lines, 2));
    d2_push(&mut out, "N3", p.neutral);
    assert(out@ == d2_overrides(lines, 3));
    d2_push(&mut out, "N4", p.neutral_light);
    assert(out@ == d2_overrides(lines, 4));
    d2_push(&mut out, "N5", p.neutral_light);
    assert(out@ == d2_overrides(lines, 5));
    d2_push(&mut out, "N6", p.neutral_light);
    assert(out@ == d2_overrides(lines, 6));
    d2_push(&mut out, "N7", p.background);
    assert(out@ == d2_overrides(lines, 7));
    d2_push(&mut out, "B1", p.foreground);
    assert(out@ == d2_overrides(lines, 8));
    d2_push(&mut out, "B2", accent);
    assert(out@ == d2_overrides(lines, 9));
    d2_push(&mut out, "B3", p.neutral);
    assert(out@ == d2_overrides(lines, 10));
    d2_push(&mut out, "B4", p.neutral_light);
    assert(out@ == d2_overrides(lines, 11));
    d2_push(&mut out, "B5", p.neutral_light);
    assert(out@ == d2_overrides(lines, 12));
    d2_push(&mut out, "B6", p.background);
    assert(out@ == d2_overrides(lines, 13));
    d2_push(&mut out, "AA2", accent);
    assert(out@ == d2_overrides(lines, 14));
    d2_push(&mut out, "AA4", p.neutral_light);
    assert(out@ == d2_overrides(lines, 15));
    d2_push(&mut out, "AA5", p.background);
    assert(out@ == d2_overrides(lines, 16));
    d2_push(&mut out, "AB4", p.neutral_light);
    assert(out@ == d2_overrides(lines, 17));
    d2_push(&mut out, "AB5", p.background);
    assert(out@ == d2_overrides(lines, 18));
    out
}

/// What stands before the source of a D2 diagram of a style; nothing for `Default`.
pub open spec fn d2_head(style: DiagramStyle) -> Seq<char> {
    match palette_of(style) {
        Some(p) => d2_config(p),
        None => Seq::empty(),
    }
}

/// What is put before the source of a D2 diagram of a style; nothing for `Default`.
pub fn d2_prefix(style: DiagramStyle) -> (r: String)
    ensures
        r@ == d2_head(style),
{
    let p = match style.palette() {
        Some(p) => p,
        None => {
            return String::new();
        },
    };
    let mut out = text::lit("vars: {\n  d2-config: {\n    theme-id: ");
    if p.monospace {
        text::push(&mut out, "301");
    } else {
        text::push(&mut out, "0");
    }
    text::push(&mut out, "\n    theme-overrides: {\n");
    text::push(&mut out, d2_palette(&p).as_str());
    text::push(&mut out, "    }\n  }\n}\n");
    out
}

/// The source of a D2 diagram of a style, as the renderer gets it.
pub fn d2_source(src: &str, style: DiagramStyle) -> (r: String)
    ensures
        r@ == d2_head(style) + src@,
{
    text::cat2(d2_prefix(style).as_str(), src)
}

// ---------------------------------------------------------------------------
// Graphviz
// ---------------------------------------------------------------------------

/// The statements that set the attributes of nodes and edges.
pub open spec fn dot_statements(p: PaletteView) -> Seq<char> {
    "node [style=filled, fillcolor=\""@ + p.neutral_light + "\", color=\""@ + p.accent_or_neutral()
        + "\", fontsize=12];\nedge [color=\""@ + p.accent_or_neutral() + "\"];\n"@
}

/// The source of a Graphviz diagram of a style: the statements stand right behind the
/// first `{`. A source without one, and one of the default style, stays as it is.
pub open spec fn dot_styled(src: Seq<char>, style: DiagramStyle) -> Seq<char> {
    match (palette_of(style), text::find_char(src, '{')) {
        (Some(p), Some(k)) => src.take(k + 1) + "\n"@ + dot_statements(p) + src.skip(k + 1),
        _ => src,
    }
}

/// Inject the default attributes of a style into DOT source.
pub fn graphviz_inject(src: &str, style: DiagramStyle) -> (r: String)
    ensures
        r@ == dot_styled(src@, style),
{
    let p = match style.palette() {
        Some(p) => p,
        None => {
            return text::lit(src);
        },
    };
    let accent = p.accent_or_neutral();
    let c = chars_of(src);
    let n: usize = c.len();
    proof {
        text::lemma_find_char_bounds(src@, '{', 0);
    }
    match text::find_ch(c.as_slice(), '{') {
        Some(k) => {
            let mut stmt = text::cat5(
                "node [style=filled, fillcolor=\"",
                p.neutral_light,
                "\", color=\"",
                accent,
                "\", fontsize=12];\nedge [color=\"",
            );
            text::push(&mut stmt, accent);
            text::push(&mut stmt, "\"];\n");
            let mut out = crate::text::string_of(text::upto(c.as_slice(), k + 1));
            text::push(&mut out, "\n");
            text::push(&mut out, stmt.as_str());
            text::append_chars(&mut out, text::from(c.as_slice(), k + 1));
            out
        },
        None => text::lit(src),
    }
}

/// The greyscale presets have no accent: connecting lines and outlines have one colour.
pub proof fn law_greyscale_has_no_accent(style: DiagramStyle, t: MermaidTheme)
    requires
        style is Monochrome || style is Technical,
        t.strokes(palette_of(style)->0),
    ensures
        t.line_color@ == t.primary_border_color@,
{
}

/// A style leaves the source of a diagram whole: what it adds to a D2 source stands
/// before it, and what it adds to a Graphviz source stands in one place.
pub proof fn law_style_keeps_source(src: Seq<char>, style: DiagramStyle)
    ensures
        (d2_head(style) + src).skip(d2_head(style).len() as int) == src,
        ({
            let styled = dot_styled(src, style);
            exists|k: int, added: Seq<char>|
                0 <= k <= src.len() && #[trigger] (src.take(k) + added + src.skip(k)) == styled
        }),
{
    assert((d2_head(style) + src).skip(d2_head(style).len() as int) =~= src);
    text::lemma_find_char_bounds(src, '{', 0);
    match (palette_of(style), text::find_char(src, '{')) {
        (Some(p), Some(k)) => {
            let added = "\n"@ + dot_statements(p);
            assert(src.take(k + 1) + added + src.skip(k + 1) =~= dot_styled(src, style));
        },
        _ => {
            let added = Seq::<char>::empty();
            assert(src.take(0) + added + src.skip(0) =~= src);
        },
    }
}

} // verus!
