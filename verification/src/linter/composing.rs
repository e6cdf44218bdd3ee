//! What the text for the spell checker holds: words as a reader sees them, accents
//! composed, and the line of each piece.

use vstd::prelude::*;

use super::accents::{self, SpellText};
use crate::chars;
use crate::formatter::roundtrip;
use crate::position;
use crate::text;
use crate::texparse::{SpannedView, TokenView};

verus! {

/// The text of tokens from the `k`-th on.
pub open spec fn read(source: Seq<char>, tokens: Seq<SpannedView>, k: int) -> Seq<char> {
    accents::spell_text(source, tokens, k, 0, 0).text
}

/// Where the text is put changes nothing of it.
proof fn lemma_anywhere(
    source: Seq<char>,
    tokens: Seq<SpannedView>,
    k: int,
    skip: int,
    a: int,
    b: int,
)
    ensures
        accents::spell_text(source, tokens, k, skip, a).text == accents::spell_text(
            source,
            tokens,
            k,
            skip,
            b,
        ).text,
    decreases tokens.len() - k,
{
    if 0 <= k < tokens.len() {
        match tokens[k].token {
            TokenView::Text(t) => {
                let n = text::byte_len(accents::visible(t, skip));
                lemma_anywhere(source, tokens, k + 1, 0, a + n, b + n);
                lemma_anywhere(source, tokens, k + 1, 0, a, b);
            },
            TokenView::Command { name, args } => {
                lemma_anywhere(source, tokens, k + 1, 0, a + 1, b + 1);
                lemma_anywhere(source, tokens, k + 1, 0, a, b);
                if let Some((c, base)) = accents::resolved(name, args, tokens, k) {
                    let w = chars::utf8_width(c);
                    match base {
                        accents::Base::Argument => {
                            lemma_anywhere(source, tokens, k + 1, 0, a + w, b + w);
                        },
                        accents::Base::NextText(s) => {
                            lemma_anywhere(source, tokens, k + 1, s, a + w, b + w);
                        },
                        accents::Base::Dotless(s) => {
                            lemma_anywhere(source, tokens, k + 3, s, a + w, b + w);
                        },
                    }
                }
            },
            _ => {
                lemma_anywhere(source, tokens, k + 1, 0, a + 1, b + 1);
            },
        }
    }
}

proof fn lemma_no_groups(t: Seq<char>)
    requires
        !t.contains('{'),
    ensures
        text::replace(t, "{}"@, Seq::empty()) == t,
{
    reveal_strlit("{}");
    text::lemma_find_bounds(t, "{}"@, 0);
    if let Some(k) = text::find(t, "{}"@) {
        assert(t[k] == '{') by {
            assert(t.subrange(k, k + 2)[0] == "{}"@[0]);
        }
    }
}

/// Prose is in the text as it is, without empty groups.
pub proof fn law_prose_is_read(
    source: Seq<char>,
    tokens: Seq<SpannedView>,
    k: int,
    t: Seq<char>,
)
    requires
        0 <= k < tokens.len(),
        tokens[k].token == TokenView::Text(t),
        !t.contains('{'),
    ensures
        read(source, tokens, k) == t + read(source, tokens, k + 1),
{
    assert(position::chars_before(t, 0) == 0);
    assert(t.skip(0) =~= t);
    lemma_no_groups(t);
    lemma_anywhere(source, tokens, k + 1, 0, text::byte_len(t) as int, 0);
    assert(t.len() == 0 ==> t + read(source, tokens, k + 1) =~= read(source, tokens, k + 1));
}

proof fn lemma_is_accent(accent: char, base: char)
    requires
        accents::composed(accent, base) is Some,
    ensures
        accents::accent_of(seq![accent]) == Some(accent),
{
    let all = "'`^\"~=.cvuHrk"@;
    reveal_strlit("'`^\"~=.cvuHrk");
    assert(all[0] == '\'' && all[1] == '`' && all[2] == '^' && all[3] == '"' && all[4] == '~'
        && all[5] == '=' && all[6] == '.' && all[7] == 'c' && all[8] == 'v' && all[9] == 'u'
        && all[10] == 'H' && all[11] == 'r' && all[12] == 'k');
    if !all.contains(accent) {
        assert(accents::accent_row(accent).0 =~= Seq::<char>::empty());
        text::lemma_find_char_bounds(accents::accent_row(accent).0, base, 0);
    }
}

/// An accent and the letter behind it, with white space between them or not, and the letter
/// in braces or not, are one letter of the text: the word goes on.
pub proof fn law_accent_joins_its_word(
    source: Seq<char>,
    tokens: Seq<SpannedView>,
    k: int,
    accent: char,
    w: Seq<char>,
    base: char,
    braced: bool,
    rest: Seq<char>,
)
    requires
        0 <= k,
        k + 1 < tokens.len(),
        tokens[k].token == (TokenView::Command { name: seq![accent], args: Seq::empty() }),
        tokens[k + 1].token == TokenView::Text(
            if braced {
                w + seq!['{', base, '}'] + rest
            } else {
                w + seq![base] + rest
            },
        ),
        forall|i: int| 0 <= i < w.len() ==> chars::is_space(#[trigger] w[i]),
        chars::is_ascii_letter(base),
        accents::composed(accent, base) is Some,
        !rest.contains('{'),
    ensures
        read(source, tokens, k) == seq![accents::composed(accent, base)->Some_0] + rest + read(
            source,
            tokens,
            k + 2,
        ),
{
    let c = accents::composed(accent, base)->Some_0;
    let name = seq![accent];
    let own = if braced {
        seq!['{', base, '}']
    } else {
        seq![base]
    };
    let t = w + own + rest;
    lemma_is_accent(accent, base);
    assert(!chars::is_space(base) && !chars::is_space('{'));
    roundtrip::lemma_trim_start_is(w, own + rest);
    assert(w + (own + rest) =~= t);
    let n = w.len() + own.len();
    let skip = position::byte_at(t, n as int);
    assert(accents::base_at_start(t) == Some((base, skip)));
    assert(t != "{"@) by {
        reveal_strlit("{");
        if w.len() == 0 {
            assert(t[0] == own[0]);
            if braced {
                assert(t.len() >= 3);
            }
        } else {
            assert(t.len() >= 2);
        }
    }
    assert(accents::from_dotless(accent, tokens, k) is None);
    assert(accents::resolved(name, Seq::empty(), tokens, k) == Some(
        (c, accents::Base::NextText(skip)),
    ));
    position::law_byte_of_char(t, n as int);
    assert(t.skip(n as int) =~= rest);
    lemma_no_groups(rest);
    assert(accents::visible(t, skip) == rest);
    let at = chars::utf8_width(c) as int;
    lemma_anywhere(source, tokens, k + 2, 0, at + text::byte_len(rest), 0);
    lemma_anywhere(source, tokens, k + 2, 0, at, 0);
    assert(read(source, tokens, k) == seq![c] + accents::spell_text(
        source,
        tokens,
        k + 1,
        skip,
        at,
    ).text);
    assert(read(source, tokens, k) =~= seq![c] + rest + read(source, tokens, k + 2));
}

/// An accent named by a letter makes a letter of its argument, and what follows goes on
/// behind it.
pub proof fn law_argument_of_an_accent(
    source: Seq<char>,
    tokens: Seq<SpannedView>,
    k: int,
    accent: char,
    base: char,
)
    requires
        0 <= k < tokens.len(),
        tokens[k].token == (TokenView::Command { name: seq![accent], args: seq![seq![base]] }),
        chars::is_ascii_letter(accent),
        chars::is_ascii_letter(base),
        accents::composed(accent, base) is Some,
    ensures
        read(source, tokens, k) == seq![accents::composed(accent, base)->Some_0] + read(
            source,
            tokens,
            k + 1,
        ),
{
    let c = accents::composed(accent, base)->Some_0;
    let args = seq![seq![base]];
    lemma_is_accent(accent, base);
    let all = "'`^\"~=.cvuHrk"@;
    reveal_strlit("'`^\"~=.cvuHrk");
    reveal_strlit("cvuHrk");
    let six = "cvuHrk"@;
    assert(six[0] == 'c' && six[1] == 'v' && six[2] == 'u' && six[3] == 'H' && six[4] == 'r'
        && six[5] == 'k');
    let i = choose|i: int| 0 <= i < all.len() && all[i] == accent;
    assert(accents::is_letter_form(accent));
    assert(!chars::is_space(base));
    assert(text::trim_start(seq![base]) == seq![base]);
    assert(text::trim(seq![base]) == seq![base]);
    assert(accents::resolved(seq![accent], args, tokens, k) == Some((c, accents::Base::Argument)));
    lemma_anywhere(source, tokens, k + 1, 0, chars::utf8_width(c) as int, 0);
}

/// `{\i}` behind an accent is the letter with the accent, and the word goes on.
pub proof fn law_dotless_letter_takes_the_accent(
    source: Seq<char>,
    tokens: Seq<SpannedView>,
    k: int,
    accent: char,
    base: char,
    rest: Seq<char>,
)
    requires
        0 <= k,
        k + 3 < tokens.len(),
        tokens[k].token == (TokenView::Command { name: seq![accent], args: Seq::empty() }),
        tokens[k + 1].token == TokenView::Text(seq!['{']),
        tokens[k + 2].token == (TokenView::Command { name: seq![base], args: Seq::empty() }),
        tokens[k + 3].token == TokenView::Text(seq!['}'] + rest),
        rest.len() > 0,
        !rest.contains('{'),
        base == 'i' || base == 'j',
        accents::composed(accent, base) is Some,
    ensures
        read(source, tokens, k) == seq![accents::composed(accent, base)->Some_0] + rest + read(
            source,
            tokens,
            k + 4,
        ),
{
    let c = accents::composed(accent, base)->Some_0;
    lemma_is_accent(accent, base);
    reveal_strlit("{");
    reveal_strlit("i");
    reveal_strlit("j");
    assert("{"@ =~= seq!['{']);
    assert("i"@ =~= seq!['i']);
    assert("j"@ =~= seq!['j']);
    let t = seq!['}'] + rest;
    assert(accents::from_dotless(accent, tokens, k) == Some((c, 1int)));
    assert(accents::resolved(seq![accent], Seq::empty(), tokens, k) == Some(
        (c, accents::Base::Dotless(1)),
    ));
    assert(t.take(1) =~= seq!['}']);
    assert(seq!['}'].drop_last() =~= Seq::<char>::empty());
    assert(position::byte_at(t, 1) == 1) by {
        position::lemma_byte_len_first(t.take(1));
        assert(t.take(1).skip(1) =~= Seq::<char>::empty());
        assert(text::byte_len(Seq::<char>::empty()) == 0);
        assert(t.take(1)[0] == '}');
    }
    position::law_byte_of_char(t, 1);
    assert(t.skip(1) =~= rest);
    lemma_no_groups(rest);
    let at = chars::utf8_width(c) as int;
    lemma_anywhere(source, tokens, k + 4, 0, at + text::byte_len(rest), 0);
    assert(accents::visible(t, 1) == rest);
    assert(read(source, tokens, k) == seq![c] + accents::spell_text(
        source,
        tokens,
        k + 3,
        1,
        at,
    ).text);
    assert(read(source, tokens, k) =~= seq![c] + rest + read(source, tokens, k + 4));
}

/// A hyphenation point and an italic correction do not end a word.
pub proof fn law_hyphenation_points_are_no_gaps(
    source: Seq<char>,
    tokens: Seq<SpannedView>,
    k: int,
    args: Seq<Seq<char>>,
    c: char,
)
    requires
        0 <= k < tokens.len(),
        c == '-' || c == '/',
        tokens[k].token == (TokenView::Command { name: seq![c], args }),
    ensures
        read(source, tokens, k) == read(source, tokens, k + 1),
{
    reveal_strlit("-");
    reveal_strlit("/");
    assert("-"@ =~= seq!['-']);
    assert("/"@ =~= seq!['/']);
    reveal_strlit("'`^\"~=.cvuHrk");
    if accents::accent_of(seq![c]) is Some {
        let i = choose|i: int|
            0 <= i < "'`^\"~=.cvuHrk"@.len() && #[trigger] "'`^\"~=.cvuHrk"@[i] == c;
        assert(false);
    }
}

/// What is no prose and no part of a word ends the word: math, headings, environments and
/// every command with a name of two characters or more are a space.
pub proof fn law_markup_is_a_gap(source: Seq<char>, tokens: Seq<SpannedView>, k: int)
    requires
        0 <= k < tokens.len(),
        !(tokens[k].token is Text),
        tokens[k].token matches TokenView::Command { name, .. } ==> name.len() >= 2,
    ensures
        read(source, tokens, k) == seq![' '] + read(source, tokens, k + 1),
{
    reveal_strlit("-");
    reveal_strlit("/");
    reveal_strlit("i");
    reveal_strlit("j");
    lemma_anywhere(source, tokens, k + 1, 0, 1, 0);
}

// ---------------------------------------------------------------------------
// Lines
// ---------------------------------------------------------------------------

/// Whether no piece begins before byte `at`.
spec fn begin_from(chunks: Seq<(int, int)>, at: int) -> bool {
    forall|j: int| 0 <= j < chunks.len() ==> at <= (#[trigger] chunks[j]).0
}

proof fn lemma_chunk(at: int, line: int, piece: Seq<char>, rest: SpellText)
    requires
        begin_from(rest.chunks, at),
    ensures
        begin_from(accents::chunk(at, line, piece, rest).chunks, at),
{
    let all = accents::chunk(at, line, piece, rest).chunks;
    assert forall|j: int| 0 <= j < all.len() implies at <= (#[trigger] all[j]).0 by {
        if j > 0 {
            assert(all[j] == rest.chunks[j - 1]);
        }
    }
}

proof fn lemma_later(
    source: Seq<char>,
    tokens: Seq<SpannedView>,
    k: int,
    skip: int,
    at: int,
)
    ensures
        begin_from(accents::spell_text(source, tokens, k, skip, at).chunks, at),
    decreases tokens.len() - k,
{
    if 0 <= k < tokens.len() {
        let line = position::line_at_byte(source, tokens[k].start);
        match tokens[k].token {
            TokenView::Text(t) => {
                let piece = accents::visible(t, skip);
                let n = text::byte_len(piece);
                lemma_later(source, tokens, k + 1, 0, at + n);
                lemma_later(source, tokens, k + 1, 0, at);
                lemma_chunk(
                    at,
                    line,
                    piece,
                    accents::spell_text(source, tokens, k + 1, 0, at + n),
                );
            },
            TokenView::Command { name, args } => {
                let one = accents::spell_text(source, tokens, k + 1, 0, at + 1);
                lemma_later(source, tokens, k + 1, 0, at + 1);
                lemma_later(source, tokens, k + 1, 0, at);
                lemma_chunk(at, line, name, one);
                if let Some((c, base)) = accents::resolved(name, args, tokens, k) {
                    let w = chars::utf8_width(c);
                    let rest = match base {
                        accents::Base::Argument => {
                            lemma_later(source, tokens, k + 1, 0, at + w);
                            accents::spell_text(source, tokens, k + 1, 0, at + w)
                        },
                        accents::Base::NextText(s) => {
                            lemma_later(source, tokens, k + 1, s, at + w);
                            accents::spell_text(source, tokens, k + 1, s, at + w)
                        },
                        accents::Base::Dotless(s) => {
                            lemma_later(source, tokens, k + 3, s, at + w);
                            accents::spell_text(source, tokens, k + 3, s, at + w)
                        },
                    };
                    lemma_chunk(at, line, seq![c], rest);
                }
            },
            _ => {
                lemma_later(source, tokens, k + 1, 0, at + 1);
            },
        }
    }
}

proof fn lemma_last_line(chunks: Seq<(int, int)>, offset: int, p: int, k: int)
    requires
        0 <= p < k <= chunks.len(),
        chunks[p].0 <= offset,
        forall|j: int| p < j < k ==> offset < (#[trigger] chunks[j]).0,
    ensures
        accents::last_line(chunks, offset, k) == Some(chunks[p].1),
    decreases k,
{
    if p < k - 1 {
        lemma_last_line(chunks, offset, p, k - 1);
    }
}

/// Every byte of a piece of prose is on the line on which the piece begins, whatever stands
/// before it.
pub proof fn law_prose_has_its_line(
    source: Seq<char>,
    tokens: Seq<SpannedView>,
    k: int,
    at: int,
    before: Seq<(int, int)>,
    offset: int,
    t: Seq<char>,
)
    requires
        0 <= k < tokens.len(),
        tokens[k].token == TokenView::Text(t),
        !t.contains('{'),
        at <= offset < at + text::byte_len(t),
    ensures
        accents::line_for(
            before + accents::spell_text(source, tokens, k, 0, at).chunks,
            offset,
        ) == position::line_at_byte(source, tokens[k].start),
{
    assert(position::chars_before(t, 0) == 0);
    assert(t.skip(0) =~= t);
    lemma_no_groups(t);
    assert(t.len() > 0);
    let rest = accents::spell_text(source, tokens, k + 1, 0, at + text::byte_len(t));
    lemma_later(source, tokens, k + 1, 0, at + text::byte_len(t));
    let own = accents::spell_text(source, tokens, k, 0, at).chunks;
    let all = before + own;
    let p = before.len() as int;
    assert(all[p] == own[0]);
    assert forall|j: int| p < j < all.len() implies offset < (#[trigger] all[j]).0 by {
        assert(all[j] == rest.chunks[j - p - 1]);
    }
    lemma_last_line(all, offset, p, all.len() as int);
}

} // verus!
