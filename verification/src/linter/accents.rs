//! The text that a reader sees: prose with its accent commands composed.

use vstd::prelude::*;

use crate::chars;
use crate::position;
use crate::text::{self, chars_of};
use crate::texparse::{self, SpannedToken, SpannedView, Token, TokenView};

verus! {

/// The letters that an accent composes with, and what comes out of each.
pub open spec fn accent_row(accent: char) -> (Seq<char>, Seq<char>) {
    if accent == '\'' {
        ("aeiouyAEIOUY"@, "áéíóúýÁÉÍÓÚÝ"@)
    } else if accent == '`' {
        ("aeiouAEIOU"@, "àèìòùÀÈÌÒÙ"@)
    } else if accent == '^' {
        ("aeiouAEIOU"@, "âêîôûÂÊÎÔÛ"@)
    } else if accent == '"' {
        ("aeiouAEIOU"@, "äëïöüÄËÏÖÜ"@)
    } else if accent == '~' {
        ("anoANO"@, "ãñõÃÑÕ"@)
    } else if accent == '=' {
        ("aeiouAEIOU"@, "āēīōūĀĒĪŌŪ"@)
    } else if accent == '.' {
        ("aeoAEO"@, "ȧėȯȦĖȮ"@)
    } else if accent == 'c' {
        ("cCsStT"@, "çÇşŞţŢ"@)
    } else if accent == 'v' {
        ("cCsSzZeErRnN"@, "čČšŠžŽěĚřŘňŇ"@)
    } else if accent == 'u' {
        ("aAeEiIoOuU"@, "ăĂĕĔĭĬŏŎŭŬ"@)
    } else if accent == 'H' {
        ("oOuU"@, "őŐűŰ"@)
    } else if accent == 'r' {
        ("aAuU"@, "åÅůŮ"@)
    } else if accent == 'k' {
        ("aAeE"@, "ąĄęĘ"@)
    } else {
        (Seq::empty(), Seq::empty())
    }
}

/// The letter that an accent makes of a base letter.
pub open spec fn composed(accent: char, base: char) -> Option<char> {
    match text::find_char(accent_row(accent).0, base) {
        Some(k) => Some(accent_row(accent).1[k]),
        None => None,
    }
}

/// The accent that a command sets.
pub open spec fn accent_of(name: Seq<char>) -> Option<char> {
    if name.len() == 1 && "'`^\"~=.cvuHrk"@.contains(name[0]) {
        Some(name[0])
    } else {
        None
    }
}

/// Whether an accent is named by a letter, so that its base may be an argument.
pub open spec fn is_letter_form(accent: char) -> bool {
    "cvuHrk"@.contains(accent)
}

/// A command that prints nothing and does not break a word: `\-` and `\/`.
pub open spec fn is_transparent(name: Seq<char>) -> bool {
    name == "-"@ || name == "/"@
}

/// `\i` or `\j`, the letters without a dot.
pub open spec fn is_dotless(name: Seq<char>) -> bool {
    name == "i"@ || name == "j"@
}

/// The base letter at the start of a text, in braces or not, and the number of bytes up
/// to the end of it.
pub open spec fn base_at_start(t: Seq<char>) -> Option<(char, int)> {
    let r = text::trim_start(t);
    let w = t.len() - r.len();
    if r.len() >= 3 && r[0] == '{' && chars::is_ascii_letter(r[1]) && r[2] == '}' {
        Some((r[1], position::byte_at(t, w + 3)))
    } else if r.len() > 0 && chars::is_ascii_letter(r[0]) {
        Some((r[0], position::byte_at(t, w + 1)))
    } else {
        None
    }
}

/// Where the base letter of an accent was found.
pub enum Base {
    /// In the argument of the command.
    Argument,
    /// At the start of the next text, of which so many bytes are used up.
    NextText(int),
    /// `{\i}` or `{\j}` in the next three tokens; so many bytes of the last one are
    /// used up.
    Dotless(int),
}

/// The letter that an accent command with a braced letter as argument makes.
pub open spec fn from_argument(accent: char, args: Seq<Seq<char>>) -> Option<char> {
    if is_letter_form(accent) && args.len() > 0 && text::trim(args[0]).len() == 1
        && chars::is_ascii_letter(text::trim(args[0])[0]) {
        composed(accent, text::trim(args[0])[0])
    } else {
        None
    }
}

/// The letter that an accent command makes of `{\i}` or `{\j}` behind position `k`, and
/// how many bytes of the closing text are used up.
pub open spec fn from_dotless(accent: char, tokens: Seq<SpannedView>, k: int) -> Option<
    (char, int),
> {
    if k + 3 >= tokens.len() || tokens[k + 1].token != TokenView::Text("{"@) {
        None
    } else {
        match (tokens[k + 2].token, tokens[k + 3].token) {
            (TokenView::Command { name, args }, TokenView::Text(closing)) => if is_dotless(name)
                && args.len() == 0 && closing.len() > 0 && closing[0] == '}' {
                match composed(accent, name[0]) {
                    Some(c) => Some(
                        (
                            c,
                            if closing.len() > 1 {
                                1
                            } else {
                                0
                            },
                        ),
                    ),
                    None => None,
                }
            } else {
                None
            },
            _ => None,
        }
    }
}

/// The letter that the accent command at `k` makes, and where its base was found.
pub open spec fn resolved(
    name: Seq<char>,
    args: Seq<Seq<char>>,
    tokens: Seq<SpannedView>,
    k: int,
) -> Option<(char, Base)> {
    match accent_of(name) {
        None => None,
        Some(accent) => match from_argument(accent, args) {
            Some(c) => Some((c, Base::Argument)),
            None => match from_dotless(accent, tokens, k) {
                Some((c, skip)) => Some((c, Base::Dotless(skip))),
                None => if k + 1 < tokens.len() {
                    match tokens[k + 1].token {
                        TokenView::Text(t) => match base_at_start(t) {
                            Some((base, skip)) => match composed(accent, base) {
                                Some(c) => Some((c, Base::NextText(skip))),
                                None => None,
                            },
                            None => None,
                        },
                        _ => None,
                    }
                } else {
                    None
                },
            },
        },
    }
}

/// A text for the spell checker, and the line of each piece that was put in: the byte at
/// which the piece begins, with its line.
#[verifier::ext_equal]
pub struct SpellText {
    pub text: Seq<char>,
    pub chunks: Seq<(int, int)>,
}

/// A piece of text at byte `at` from the given line, followed by more.
pub open spec fn chunk(at: int, line: int, piece: Seq<char>, rest: SpellText) -> SpellText {
    SpellText { text: piece + rest.text, chunks: seq![(at, line)] + rest.chunks }
}

/// A space, followed by more.
pub open spec fn space(rest: SpellText) -> SpellText {
    SpellText { text: seq![' '] + rest.text, chunks: rest.chunks }
}

/// `t` without its first `skip` bytes and without empty groups.
pub open spec fn visible(t: Seq<char>, skip: int) -> Seq<char> {
    text::replace(t.skip(position::chars_before(t, skip)), "{}"@, Seq::empty())
}

/// The text for the spell checker from the `k`-th token on, put at byte `at`, when
/// `skip` bytes of the next text are used up. Accents are composed with their base
/// letters, `\-` and `\/` print nothing, and everything else that is no prose is a space.
pub open spec fn spell_text(
    source: Seq<char>,
    tokens: Seq<SpannedView>,
    k: int,
    skip: int,
    at: int,
) -> SpellText
    decreases tokens.len() - k,
{
    if k < 0 || k >= tokens.len() {
        SpellText { text: Seq::empty(), chunks: Seq::empty() }
    } else {
        let line = position::line_at_byte(source, tokens[k].start);
        match tokens[k].token {
            TokenView::Text(t) => {
                let piece = visible(t, skip);
                if piece.len() > 0 {
                    chunk(
                        at,
                        line,
                        piece,
                        spell_text(source, tokens, k + 1, 0, at + text::byte_len(piece)),
                    )
                } else {
                    spell_text(source, tokens, k + 1, 0, at)
                }
            },
            TokenView::Command { name, args } => if accent_of(name) is Some {
                match resolved(name, args, tokens, k) {
                    Some((c, base)) => {
                        let next = at + chars::utf8_width(c);
                        chunk(
                            at,
                            line,
                            seq![c],
                            match base {
                                Base::Argument => spell_text(source, tokens, k + 1, 0, next),
                                Base::NextText(s) => spell_text(source, tokens, k + 1, s, next),
                                Base::Dotless(s) => spell_text(source, tokens, k + 3, s, next),
                            },
                        )
                    },
                    None => space(spell_text(source, tokens, k + 1, 0, at + 1)),
                }
            } else if is_transparent(name) {
                spell_text(source, tokens, k + 1, 0, at)
            } else if is_dotless(name) {
                chunk(at, line, name, spell_text(source, tokens, k + 1, 0, at + 1))
            } else {
                space(spell_text(source, tokens, k + 1, 0, at + 1))
            },
            _ => space(spell_text(source, tokens, k + 1, 0, at + 1)),
        }
    }
}

/// The line of the last of the first `k` pieces that begins at or before `offset`.
pub open spec fn last_line(chunks: Seq<(int, int)>, offset: int, k: int) -> Option<int>
    decreases k,
{
    if k <= 0 || k > chunks.len() {
        None
    } else if chunks[k - 1].0 <= offset {
        Some(chunks[k - 1].1)
    } else {
        last_line(chunks, offset, k - 1)
    }
}

/// The line of the piece in which a byte of the text lies.
pub open spec fn line_for(chunks: Seq<(int, int)>, offset: int) -> int {
    match last_line(chunks, offset, chunks.len() as int) {
        Some(line) => line,
        None => if chunks.len() > 0 {
            chunks[0].1
        } else {
            1
        },
    }
}

fn has_char(s: &str, c: char) -> (r: bool)
    ensures
        r == s@.contains(c),
{
    let v = chars_of(s);
    text::has_ch(v.as_slice(), c)
}

fn row_of(accent: char) -> (r: (&'static str, &'static str))
    ensures
        (r.0@, r.1@) == accent_row(accent),
        r.0@.len() == r.1@.len(),
{
    proof {
        reveal_strlit("");
        assert(""@ =~= Seq::<char>::empty());
        reveal_strlit("aeiouyAEIOUY");
        reveal_strlit("áéíóúýÁÉÍÓÚÝ");
        reveal_strlit("aeiouAEIOU");
        reveal_strlit("àèìòùÀÈÌÒÙ");
        reveal_strlit("âêîôûÂÊÎÔÛ");
        reveal_strlit("äëïöüÄËÏÖÜ");
        reveal_strlit("anoANO");
        reveal_strlit("ãñõÃÑÕ");
        reveal_strlit("āēīōūĀĒĪŌŪ");
        reveal_strlit("aeoAEO");
        reveal_strlit("ȧėȯȦĖȮ");
        reveal_strlit("cCsStT");
        reveal_strlit("çÇşŞţŢ");
        reveal_strlit("cCsSzZeErRnN");
        reveal_strlit("čČšŠžŽěĚřŘňŇ");
        reveal_strlit("aAeEiIoOuU");
        reveal_strlit("ăĂĕĔĭĬŏŎŭŬ");
        reveal_strlit("oOuU");
        reveal_strlit("őŐűŰ");
        reveal_strlit("aAuU");
        reveal_strlit("åÅůŮ");
        reveal_strlit("aAeE");
        reveal_strlit("ąĄęĘ");
    }
    if accent == '\'' {
        ("aeiouyAEIOUY", "áéíóúýÁÉÍÓÚÝ")
    } else if accent == '`' {
        ("aeiouAEIOU", "àèìòùÀÈÌÒÙ")
    } else if accent == '^' {
        ("aeiouAEIOU", "âêîôûÂÊÎÔÛ")
    } else if accent == '"' {
        ("aeiouAEIOU", "äëïöüÄËÏÖÜ")
    } else if accent == '~' {
        ("anoANO", "ãñõÃÑÕ")
    } else if accent == '=' {
        ("aeiouAEIOU", "āēīōūĀĒĪŌŪ")
    } else if accent == '.' {
        ("aeoAEO", "ȧėȯȦĖȮ")
    } else if accent == 'c' {
        ("cCsStT", "çÇşŞţŢ")
    } else if accent == 'v' {
        ("cCsSzZeErRnN", "čČšŠžŽěĚřŘňŇ")
    } else if accent == 'u' {
        ("aAeEiIoOuU", "ăĂĕĔĭĬŏŎŭŬ")
    } else if accent == 'H' {
        ("oOuU", "őŐűŰ")
    } else if accent == 'r' {
        ("aAuU", "åÅůŮ")
    } else if accent == 'k' {
        ("aAeE", "ąĄęĘ")
    } else {
        ("", "")
    }
}

/// The letter that an accent makes of a base letter.
pub fn compose_accent(accent: char, base: char) -> (r: Option<char>)
    ensures
        r == composed(accent, base),
{
    let (bases, results) = row_of(accent);
    let b = chars_of(bases);
    let c = chars_of(results);
    match text::find_ch(b.as_slice(), base) {
        Some(k) => Some(c[k]),
        None => None,
    }
}

/// The accent that a command sets.
pub fn accent_to_char(name: &str) -> (r: Option<char>)
    ensures
        r == accent_of(name@),
{
    let n = chars_of(name);
    if n.len() == 1 && has_char("'`^\"~=.cvuHrk", n[0]) {
        Some(n[0])
    } else {
        None
    }
}

/// Whether a command sets an accent.
pub fn is_accent_command(name: &str) -> (r: bool)
    ensures
        r == (accent_of(name@) is Some),
{
    accent_to_char(name).is_some()
}

/// Whether a command prints nothing and does not break a word.
pub fn is_transparent_command(name: &str) -> (r: bool)
    ensures
        r == is_transparent(name@),
{
    text::same_str(name, "-") || text::same_str(name, "/")
}

fn dotless(name: &str) -> (r: bool)
    ensures
        r == is_dotless(name@),
        r ==> name@.len() == 1,
{
    proof {
        reveal_strlit("i");
        reveal_strlit("j");
    }
    text::same_str(name, "i") || text::same_str(name, "j")
}

/// The base letter at the start of a text, in braces or not, and the number of bytes up
/// to the end of it.
pub fn extract_base_from_text_start(t: &str) -> (r: Option<(char, usize)>)
    ensures
        match r {
            Some((c, n)) => base_at_start(t@) == Some((c, n as int)),
            None => base_at_start(t@) is None,
        },
{
    let v = chars_of(t);
    let n: usize = v.len();
    proof {
        text::lemma_trim_start_len(t@);
    }
    let r = text::trimmed_start(v.as_slice());
    let w = n - r.len();
    if r.len() >= 3 && r[0] == '{' && chars::ascii_letter(r[1]) && r[2] == '}' {
        Some((r[1], position::byte_offsets(t)[w + 3]))
    } else if r.len() > 0 && chars::ascii_letter(r[0]) {
        Some((r[0], position::byte_offsets(t)[w + 1]))
    } else {
        None
    }
}

/// Where the base letter of an accent was found.
pub enum AccentBase {
    Argument,
    NextText(usize),
    Dotless(usize),
}

impl View for AccentBase {
    type V = Base;

    open spec fn view(&self) -> Base {
        match self {
            AccentBase::Argument => Base::Argument,
            AccentBase::NextText(n) => Base::NextText(*n as int),
            AccentBase::Dotless(n) => Base::Dotless(*n as int),
        }
    }
}

fn compose_argument(accent: char, args: &Vec<String>) -> (r: Option<char>)
    ensures
        r == from_argument(accent, text::texts(args@)),
{
    if !has_char("cvuHrk", accent) || args.len() == 0 {
        return None;
    }
    assert(text::texts(args@)[0] == args@[0]@);
    let a = chars_of(args[0].as_str());
    let t = text::trimmed(a.as_slice());
    if t.len() == 1 && chars::ascii_letter(t[0]) {
        compose_accent(accent, t[0])
    } else {
        None
    }
}

fn compose_dotless(accent: char, tokens: &Vec<SpannedToken>, k: usize) -> (r: Option<(char, usize)>)
    ensures
        match r {
            Some((c, n)) => from_dotless(accent, texparse::spanned_views(tokens@), k as int)
                == Some((c, n as int)) && k + 3 < tokens@.len(),
            None => from_dotless(accent, texparse::spanned_views(tokens@), k as int) is None,
        },
{
    let ghost views = texparse::spanned_views(tokens@);
    let n: usize = tokens.len();
    if k >= n || n - k <= 3 {
        return None;
    }
    assert(views[k + 1] == tokens@[k + 1]@);
    assert(views[k + 2] == tokens@[k + 2]@);
    assert(views[k + 3] == tokens@[k + 3]@);
    match &tokens[k + 1].token {
        Token::Text(t) => {
            if !text::same_str(t.as_str(), "{") {
                return None;
            }
        },
        _ => {
            return None;
        },
    }
    match (&tokens[k + 2].token, &tokens[k + 3].token) {
        (Token::Command { name, args }, Token::Text(closing)) => {
            let c = chars_of(closing.as_str());
            assert(text::texts(args@).len() == args@.len());
            if dotless(name.as_str()) && args.len() == 0 && c.len() > 0 && c[0] == '}' {
                let base = chars_of(name.as_str());
                match compose_accent(accent, base[0]) {
                    Some(x) => {
                        let skip: usize = if c.len() > 1 {
                            1
                        } else {
                            0
                        };
                        Some((x, skip))
                    },
                    None => None,
                }
            } else {
                None
            }
        },
        _ => None,
    }
}

/// The letter that the accent command at `k` makes, and where its base was found. Behind
/// the last token there is no base but that of the argument.
pub fn try_resolve_accent(
    name: &str,
    args: &Vec<String>,
    tokens: &Vec<SpannedToken>,
    k: usize,
) -> (r: Option<(char, AccentBase)>)
    ensures
        match r {
            Some((c, b)) => resolved(
                name@,
                text::texts(args@),
                texparse::spanned_views(tokens@),
                k as int,
            ) == Some((c, b@)) && (b is Dotless ==> k + 3 < tokens@.len()),
            None => resolved(
                name@,
                text::texts(args@),
                texparse::spanned_views(tokens@),
                k as int,
            ) is None,
        },
{
    let accent = match accent_to_char(name) {
        Some(a) => a,
        None => {
            return None;
        },
    };
    if let Some(c) = compose_argument(accent, args) {
        return Some((c, AccentBase::Argument));
    }
    if let Some((c, skip)) = compose_dotless(accent, tokens, k) {
        return Some((c, AccentBase::Dotless(skip)));
    }
    if k >= tokens.len() || tokens.len() - k <= 1 {
        return None;
    }
    assert(texparse::spanned_views(tokens@)[k + 1] == tokens@[k + 1]@);
    match &tokens[k + 1].token {
        Token::Text(t) => match extract_base_from_text_start(t.as_str()) {
            Some((base, skip)) => match compose_accent(accent, base) {
                Some(c) => Some((c, AccentBase::NextText(skip))),
                None => None,
            },
            None => None,
        },
        _ => None,
    }
}

/// Pieces as integers.
pub open spec fn chunk_views(v: Seq<(usize, usize)>) -> Seq<(int, int)> {
    Seq::new(v.len(), |k: int| (v[k].0 as int, v[k].1 as int))
}

/// What is there so far, followed by more.
spec fn followed(out: Seq<char>, chunks: Seq<(usize, usize)>, rest: SpellText) -> SpellText {
    SpellText { text: out + rest.text, chunks: chunk_views(chunks) + rest.chunks }
}

proof fn lemma_chunk(
    out: Seq<char>,
    chunks: Seq<(usize, usize)>,
    line: usize,
    piece: Seq<char>,
    rest: SpellText,
)
    requires
        text::byte_len(out) <= usize::MAX,
    ensures
        followed(
            out,
            chunks,
            chunk(text::byte_len(out) as int, line as int, piece, rest),
        ) == followed(out + piece, chunks.push((text::byte_len(out) as usize, line)), rest),
        text::byte_len(out + piece) == text::byte_len(out) + text::byte_len(piece),
        forall|c: char|
            #![trigger seq![c]]
            piece == seq![c] ==> text::byte_len(piece) == chars::utf8_width(c),
{
    let at = text::byte_len(out);
    let a = followed(out, chunks, chunk(at as int, line as int, piece, rest));
    let b = followed(out + piece, chunks.push((at as usize, line)), rest);
    position::lemma_byte_len_join(out, piece);
    if piece.len() == 1 {
        position::lemma_byte_len_first(piece);
        assert(piece.skip(1) =~= Seq::<char>::empty());
    }
    assert(a.text =~= b.text);
    assert(a.chunks =~= b.chunks);
}

proof fn lemma_space(out: Seq<char>, chunks: Seq<(usize, usize)>, rest: SpellText)
    ensures
        followed(out, chunks, space(rest)) == followed(out.push(' '), chunks, rest),
        text::byte_len(out.push(' ')) == text::byte_len(out) + 1,
{
    assert(out.push(' ').drop_last() =~= out);
    assert(followed(out, chunks, space(rest)).text =~= followed(
        out.push(' '),
        chunks,
        rest,
    ).text);
}

/// The text for the spell checker, and the byte and the line of each piece in it.
pub fn build_spell_text(tokens: &Vec<SpannedToken>, source: &str) -> (r: (
    String,
    Vec<(usize, usize)>,
))
    ensures
        (SpellText { text: r.0@, chunks: chunk_views(r.1@) }) == spell_text(
            source@,
            texparse::spanned_views(tokens@),
            0,
            0,
            0,
        ),
{
    let src = chars_of(source);
    let ghost views = texparse::spanned_views(tokens@);
    let ghost whole = spell_text(source@, views, 0, 0, 0);
    let mut out = String::new();
    let mut chunks: Vec<(usize, usize)> = Vec::new();
    let mut k: usize = 0;
    let mut skip: usize = 0;
    assert(followed(out@, chunks@, whole) =~= whole);
    while k < tokens.len()
        invariant
            k <= tokens@.len(),
            src@ == source@,
            views == texparse::spanned_views(tokens@),
            followed(
                out@,
                chunks@,
                spell_text(
                    source@,
                    views,
                    k as int,
                    skip as int,
                    text::byte_len(out@) as int,
                ),
            ) == whole,
        decreases tokens@.len() - k,
    {
        assert(views[k as int] == tokens@[k as int]@);
        let n = position::string_length(out.as_str());
        let line = position::line_of_byte(src.as_slice(), tokens[k].start as u128);
        match &tokens[k].token {
            Token::Text(t) => {
                let tc = chars_of(t.as_str());
                let from = position::count_before(tc.as_slice(), skip as u128);
                proof {
                    reveal_strlit("");
                    assert(""@ =~= Seq::<char>::empty());
                }
                let shown = text::replaced(text::from(tc.as_slice(), from), "{}", "");
                let piece = shown.as_str();
                if chars_of(piece).len() > 0 {
                    proof {
                        lemma_chunk(
                            out@,
                            chunks@,
                            line,
                            piece@,
                            spell_text(source@, views, k + 1, 0, n + text::byte_len(piece@)),
                        );
                    }
                    chunks.push((n, line));
                    text::push(&mut out, piece);
                }
                k = k + 1;
                skip = 0;
            },
            Token::Command { name, args } => {
                if is_accent_command(name.as_str()) {
                    match try_resolve_accent(name.as_str(), args, tokens, k) {
                        Some((c, base)) => {
                            let ghost before = out@;
                            let ghost prior = chunks@;
                            chunks.push((n, line));
                            out.push(c);
                            assert(out@ =~= before + seq![c]);
                            match base {
                                AccentBase::Argument => {
                                    k = k + 1;
                                    skip = 0;
                                },
                                AccentBase::NextText(s) => {
                                    k = k + 1;
                                    skip = s;
                                },
                                AccentBase::Dotless(s) => {
                                    k = k + 3;
                                    skip = s;
                                },
                            }
                            proof {
                                lemma_chunk(
                                    before,
                                    prior,
                                    line,
                                    seq![c],
                                    spell_text(
                                        source@,
                                        views,
                                        k as int,
                                        skip as int,
                                        n + chars::utf8_width(c),
                                    ),
                                );
                            }
                        },
                        None => {
                            proof {
                                lemma_space(
                                    out@,
                                    chunks@,
                                    spell_text(source@, views, k + 1, 0, n + 1),
                                );
                            }
                            out.push(' ');
                            k = k + 1;
                            skip = 0;
                        },
                    }
                } else if is_transparent_command(name.as_str()) {
                    k = k + 1;
                    skip = 0;
                } else if dotless(name.as_str()) {
                    proof {
                        reveal_strlit("i");
                        reveal_strlit("j");
                        assert(name@ =~= seq![name@[0]]);
                        lemma_chunk(
                            out@,
                            chunks@,
                            line,
                            name@,
                            spell_text(source@, views, k + 1, 0, n + 1),
                        );
                    }
                    chunks.push((n, line));
                    text::push(&mut out, name.as_str());
                    k = k + 1;
                    skip = 0;
                } else {
                    proof {
                        lemma_space(
                            out@,
                            chunks@,
                            spell_text(source@, views, k + 1, 0, n + 1),
                        );
                    }
                    out.push(' ');
                    k = k + 1;
                    skip = 0;
                }
            },
            _ => {
                proof {
                    lemma_space(out@, chunks@, spell_text(source@, views, k + 1, 0, n + 1));
                }
                out.push(' ');
                k = k + 1;
                skip = 0;
            },
        }
    }
    proof {
        let r = SpellText { text: out@, chunks: chunk_views(chunks@) };
        assert(r =~= whole);
    }
    (out, chunks)
}

/// The line of the piece in which a byte of the text lies.
pub fn line_for_offset(chunks: &Vec<(usize, usize)>, offset: usize) -> (r: usize)
    ensures
        r == line_for(chunk_views(chunks@), offset as int),
{
    let ghost views = chunk_views(chunks@);
    let mut k: usize = chunks.len();
    while k > 0
        invariant
            k <= chunks@.len(),
            views == chunk_views(chunks@),
            last_line(views, offset as int, views.len() as int) == last_line(
                views,
                offset as int,
                k as int,
            ),
        decreases k,
    {
        let (start, line) = chunks[k - 1];
        assert(views[k - 1] == (start as int, line as int));
        if start <= offset {
            return line;
        }
        k = k - 1;
    }
    if chunks.len() > 0 {
        assert(views[0].1 == chunks@[0].1);
        chunks[0].1
    } else {
        1
    }
}

// ---------------------------------------------------------------------------
// Capitals
// ---------------------------------------------------------------------------

/// The capital of a small letter that is ASCII or that an accent makes: it stands 32
/// places before it among the letters up to U+00FE, and right before it beyond them.
pub open spec fn capital(c: char) -> char {
    if c <= '\u{fe}' {
        ((c as u32) - 32) as char
    } else {
        ((c as u32) - 1) as char
    }
}

/// Whether a character is a letter and not ASCII.
pub open spec fn is_letter_beyond_ascii(c: char) -> bool {
    c > '\u{7f}' && chars::alphabetic(c)
}

/// Whether what an accent makes of a small letter and of its capital belongs together.
spec fn is_capital_pair(small: Option<char>, big: Option<char>) -> bool {
    match small {
        Some(c) => big == Some(capital(c)) && is_letter_beyond_ascii(c) && is_letter_beyond_ascii(
            capital(c),
        ),
        None => big is None,
    }
}

proof fn lemma_acute(b: char)
    requires
        'a' <= b <= 'z',
    ensures
        is_capital_pair(composed('\'', b), composed('\'', capital(b))),
{
    reveal_strlit("aeiouyAEIOUY");
    reveal_strlit("áéíóúýÁÉÍÓÚÝ");
    reveal_with_fuel(text::find_char_from, 13);
}

proof fn lemma_grave(b: char)
    requires
        'a' <= b <= 'z',
    ensures
        is_capital_pair(composed('`', b), composed('`', capital(b))),
{
    reveal_strlit("aeiouAEIOU");
    reveal_strlit("àèìòùÀÈÌÒÙ");
    reveal_with_fuel(text::find_char_from, 11);
}

proof fn lemma_circumflex(b: char)
    requires
        'a' <= b <= 'z',
    ensures
        is_capital_pair(composed('^', b), composed('^', capital(b))),
{
    reveal_strlit("aeiouAEIOU");
    reveal_strlit("âêîôûÂÊÎÔÛ");
    reveal_with_fuel(text::find_char_from, 11);
}

proof fn lemma_diaeresis(b: char)
    requires
        'a' <= b <= 'z',
    ensures
        is_capital_pair(composed('"', b), composed('"', capital(b))),
{
    reveal_strlit("aeiouAEIOU");
    reveal_strlit("äëïöüÄËÏÖÜ");
    reveal_with_fuel(text::find_char_from, 11);
}

proof fn lemma_tilde(b: char)
    requires
        'a' <= b <= 'z',
    ensures
        is_capital_pair(composed('~', b), composed('~', capital(b))),
{
    reveal_strlit("anoANO");
    reveal_strlit("ãñõÃÑÕ");
    reveal_with_fuel(text::find_char_from, 7);
}

proof fn lemma_macron(b: char)
    requires
        'a' <= b <= 'z',
    ensures
        is_capital_pair(composed('=', b), composed('=', capital(b))),
{
    reveal_strlit("aeiouAEIOU");
    reveal_strlit("āēīōūĀĒĪŌŪ");
    reveal_with_fuel(text::find_char_from, 11);
}

proof fn lemma_dot(b: char)
    requires
        'a' <= b <= 'z',
    ensures
        is_capital_pair(composed('.', b), composed('.', capital(b))),
{
    reveal_strlit("aeoAEO");
    reveal_strlit("ȧėȯȦĖȮ");
    reveal_with_fuel(text::find_char_from, 7);
}

proof fn lemma_cedilla(b: char)
    requires
        'a' <= b <= 'z',
    ensures
        is_capital_pair(composed('c', b), composed('c', capital(b))),
{
    reveal_strlit("cCsStT");
    reveal_strlit("çÇşŞţŢ");
    reveal_with_fuel(text::find_char_from, 7);
}

proof fn lemma_caron(b: char)
    requires
        'a' <= b <= 'z',
    ensures
        is_capital_pair(composed('v', b), composed('v', capital(b))),
{
    reveal_strlit("cCsSzZeErRnN");
    reveal_strlit("čČšŠžŽěĚřŘňŇ");
    reveal_with_fuel(text::find_char_from, 13);
}

proof fn lemma_breve(b: char)
    requires
        'a' <= b <= 'z',
    ensures
        is_capital_pair(composed('u', b), composed('u', capital(b))),
{
    reveal_strlit("aAeEiIoOuU");
    reveal_strlit("ăĂĕĔĭĬŏŎŭŬ");
    reveal_with_fuel(text::find_char_from, 11);
}

proof fn lemma_double_acute(b: char)
    requires
        'a' <= b <= 'z',
    ensures
        is_capital_pair(composed('H', b), composed('H', capital(b))),
{
    reveal_strlit("oOuU");
    reveal_strlit("őŐűŰ");
    reveal_with_fuel(text::find_char_from, 5);
}

proof fn lemma_ring(b: char)
    requires
        'a' <= b <= 'z',
    ensures
        is_capital_pair(composed('r', b), composed('r', capital(b))),
{
    reveal_strlit("aAuU");
    reveal_strlit("åÅůŮ");
    reveal_with_fuel(text::find_char_from, 5);
}

proof fn lemma_ogonek(b: char)
    requires
        'a' <= b <= 'z',
    ensures
        is_capital_pair(composed('k', b), composed('k', capital(b))),
{
    reveal_strlit("aAeE");
    reveal_strlit("ąĄęĘ");
    reveal_with_fuel(text::find_char_from, 5);
}

/// What an accent makes of a capital is the capital of what it makes of the small letter,
/// and both of them are letters beyond ASCII.
pub proof fn law_capitals_compose_alike(accent: char, b: char)
    requires
        'a' <= b <= 'z',
    ensures
        composed(accent, capital(b)) == match composed(accent, b) {
            Some(c) => Some(capital(c)),
            None => None,
        },
        composed(accent, b) matches Some(c) ==> is_letter_beyond_ascii(c)
            && is_letter_beyond_ascii(capital(c)),
{
    if accent == '\'' {
        lemma_acute(b);
    } else if accent == '`' {
        lemma_grave(b);
    } else if accent == '^' {
        lemma_circumflex(b);
    } else if accent == '"' {
        lemma_diaeresis(b);
    } else if accent == '~' {
        lemma_tilde(b);
    } else if accent == '=' {
        lemma_macron(b);
    } else if accent == '.' {
        lemma_dot(b);
    } else if accent == 'c' {
        lemma_cedilla(b);
    } else if accent == 'v' {
        lemma_caron(b);
    } else if accent == 'u' {
        lemma_breve(b);
    } else if accent == 'H' {
        lemma_double_acute(b);
    } else if accent == 'r' {
        lemma_ring(b);
    } else if accent == 'k' {
        lemma_ogonek(b);
    } else {
        assert(text::find_char(accent_row(accent).0, b) is None);
        assert(text::find_char(accent_row(accent).0, capital(b)) is None);
    }
}

proof fn lemma_row_letters(accent: char)
    ensures
        forall|k: int|
            0 <= k < accent_row(accent).0.len() ==> chars::is_ascii_letter(
                #[trigger] accent_row(accent).0[k],
            ),
{
    reveal_strlit("aeiouyAEIOUY");
    reveal_strlit("aeiouAEIOU");
    reveal_strlit("anoANO");
    reveal_strlit("aeoAEO");
    reveal_strlit("cCsStT");
    reveal_strlit("cCsSzZeErRnN");
    reveal_strlit("aAeEiIoOuU");
    reveal_strlit("oOuU");
    reveal_strlit("aAuU");
    reveal_strlit("aAeE");
}

/// An accent is set on ASCII letters alone, and makes of each a letter beyond ASCII.
pub proof fn law_accents_make_letters(accent: char, base: char)
    ensures
        composed(accent, base) matches Some(c) ==> chars::is_ascii_letter(base)
            && is_letter_beyond_ascii(c),
{
    if composed(accent, base) is Some {
        text::lemma_find_char_bounds(accent_row(accent).0, base, 0);
        lemma_row_letters(accent);
        if 'a' <= base <= 'z' {
            law_capitals_compose_alike(accent, base);
        } else {
            let b = ((base as u32) + 32) as char;
            assert(capital(b) == base);
            law_capitals_compose_alike(accent, b);
        }
    }
}

} // verus!
