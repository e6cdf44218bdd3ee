//! What the tokenizer makes of the pieces of a source, wherever they stand in it.

use vstd::prelude::*;

use crate::chars;
use crate::text;
use crate::texparse::{self, SpannedView, TokenView};

verus! {

/// Whether a text stands at a position of a source.
pub open spec fn stands(s: Seq<char>, i: int, p: Seq<char>) -> bool {
    0 <= i && i + p.len() <= s.len() && forall|k: int|
        0 <= k < p.len() ==> s[i + k] == #[trigger] p[k]
}

/// Whether a text holds neither braces nor backslashes.
pub open spec fn is_flat(t: Seq<char>) -> bool {
    forall|k: int| 0 <= k < t.len() ==> #[trigger] t[k] != '{' && t[k] != '}' && t[k] != '\\'
}

/// Whether a text is a row of ASCII letters.
pub open spec fn is_word(t: Seq<char>) -> bool {
    t.len() > 0 && forall|k: int| 0 <= k < t.len() ==> chars::is_ascii_letter(#[trigger] t[k])
}

/// Whether the scan from `i` on is some tokens that begin at `i`, and the scan from `j` on.
pub open spec fn reads(s: Seq<char>, i: int, base: int, tokens: Seq<TokenView>, j: int) -> bool {
    let first = Seq::new(tokens.len(), |k: int| SpannedView { token: tokens[k], start: base + i });
    texparse::scan(s, i, base).tokens == first + texparse::scan(s, j, base).tokens
}

/// Whether no character of a text is one of two.
pub open spec fn has_neither(t: Seq<char>, a: char, b: char) -> bool {
    forall|k: int| 0 <= k < t.len() ==> #[trigger] t[k] != a && t[k] != b
}

// ---------------------------------------------------------------------------
// Prose, comments and math
// ---------------------------------------------------------------------------

proof fn lemma_plain_stop(s: Seq<char>, i: int, e: int)
    requires
        0 <= i <= e <= s.len(),
        forall|k: int| i <= k < e ==> #[trigger] s[k] != '%' && s[k] != '\\' && s[k] != '$',
        e == s.len() || s[e] == '%' || s[e] == '\\' || s[e] == '$',
    ensures
        texparse::plain_end(s, i) == e,
    decreases e - i,
{
    if i < e {
        assert(s[i] != '%');
        lemma_plain_stop(s, i + 1, e);
    }
}

/// What stands between comments, math and commands is prose.
pub proof fn law_prose_is_text(s: Seq<char>, i: int, e: int, base: int)
    requires
        0 <= i < e <= s.len(),
        forall|k: int| i <= k < e ==> #[trigger] s[k] != '%' && s[k] != '\\' && s[k] != '$',
        e == s.len() || s[e] == '%' || s[e] == '\\' || s[e] == '$',
    ensures
        reads(s, i, base, seq![TokenView::Text(s.subrange(i, e))], e),
{
    assert(s[i] != '%');
    lemma_plain_stop(s, i, e);
    let ts = seq![TokenView::Text(s.subrange(i, e))];
    assert(texparse::scan(s, i, base).tokens =~= Seq::new(
        ts.len(),
        |k: int| SpannedView { token: ts[k], start: base + i },
    ) + texparse::scan(s, e, base).tokens);
}

/// A construct that is nothing but its tokens.
proof fn lemma_simple(s: Seq<char>, i: int, base: int)
    requires
        0 <= i < s.len(),
        s[i] == '%' || s[i] == '\\' || s[i] == '$',
        texparse::construct(s, i).prose is None,
    ensures
        reads(s, i, base, texparse::construct(s, i).tokens, texparse::construct(s, i).end),
{
    let c = texparse::construct(s, i);
    assert(texparse::is_special(s[i]));
    assert(texparse::scan(s, i, base).tokens =~= texparse::at(c.tokens, base + i)
        + texparse::scan(s, c.end, base).tokens);
    assert(texparse::at(c.tokens, base + i) =~= Seq::new(
        c.tokens.len(),
        |k: int| SpannedView { token: c.tokens[k], start: base + i },
    ));
}

/// A comment goes on to the end of its line, and is no prose.
pub proof fn law_comment_is_no_prose(s: Seq<char>, i: int, e: int, base: int)
    requires
        0 <= i < e <= s.len(),
        s[i] == '%',
        forall|k: int| i <= k < e ==> #[trigger] s[k] != '\n',
        e == s.len() || s[e] == '\n',
    ensures
        reads(s, i, base, seq![TokenView::Comment(s.subrange(i, e))], e),
{
    text::lemma_find_char_bounds(s, '\n', i);
    match text::find_char_from(s, '\n', i) {
        Some(k) => {
            if k < e {
                assert(s[k] != '\n');
            }
        },
        None => {},
    }
    lemma_simple(s, i, base);
}

proof fn lemma_dollar_found(s: Seq<char>, j: int, e: int)
    requires
        0 <= j <= e < s.len(),
        s[e] == '$',
        forall|k: int| j <= k < e ==> #[trigger] s[k] != '$' && s[k] != '\\',
    ensures
        texparse::inline_close(s, j, false) == Some(e),
    decreases e - j,
{
    if j < e {
        assert(s[j] != '$');
        lemma_dollar_found(s, j + 1, e);
    }
}

/// `$..$` is math: nothing between the signs is prose.
pub proof fn law_inline_math_is_no_prose(s: Seq<char>, i: int, x: Seq<char>, base: int)
    requires
        x.len() > 0,
        has_neither(x, '$', '\\'),
        stands(s, i, seq!['$'] + x + seq!['$']),
    ensures
        reads(
            s,
            i,
            base,
            seq![TokenView::BeginMath, TokenView::EndMath],
            i + x.len() + 2,
        ),
{
    let p = seq!['$'] + x + seq!['$'];
    let e = i + x.len() + 1;
    assert(s[i] == '$') by {
        assert(s[i + 0] == p[0]);
    }
    assert(s[e] == '$') by {
        assert(s[i + (x.len() + 1)] == p[x.len() + 1int]);
    }
    assert forall|k: int| i + 1 <= k < e implies #[trigger] s[k] != '$' && s[k] != '\\' by {
        assert(s[i + (k - i)] == p[k - i]);
        assert(p[k - i] == x[k - i - 1]);
    }
    assert(s[i + 1] != '$');
    lemma_dollar_found(s, i + 1, e);
    lemma_simple(s, i, base);
}

proof fn lemma_past(s: Seq<char>, p: Seq<char>, j: int, n: int)
    requires
        0 <= j <= n,
        stands(s, n, p),
        forall|k: int| j <= k < n ==> !#[trigger] stands(s, k, p),
    ensures
        texparse::past(s, p, j) == n + p.len(),
        text::find_from(s, p, j) == Some(n),
{
    text::lemma_find_bounds(s, p, j);
    assert(text::matches_at(s, n, p)) by {
        assert(s.subrange(n, n + p.len()) =~= p);
    }
    match text::find_from(s, p, j) {
        Some(k) => {
            if k < n {
                assert(stands(s, k, p)) by {
                    assert forall|m: int| 0 <= m < p.len() implies s[k + m] == #[trigger] p[m] by {
                        assert(s.subrange(k, k + p.len())[m] == s[k + m]);
                    }
                }
            }
        },
        None => {},
    }
}

/// `$$..$$` is math.
pub proof fn law_display_math_is_no_prose(s: Seq<char>, i: int, x: Seq<char>, base: int)
    requires
        has_neither(x, '$', '$'),
        stands(s, i, seq!['$', '$'] + x + seq!['$', '$']),
    ensures
        reads(
            s,
            i,
            base,
            seq![TokenView::BeginMath, TokenView::EndMath],
            i + x.len() + 4,
        ),
{
    reveal_strlit("$$");
    let p = seq!['$', '$'] + x + seq!['$', '$'];
    let n = i + 2 + x.len();
    assert(s[i + 0] == p[0]);
    assert(s[i + 1] == p[1]);
    assert(stands(s, n, "$$"@)) by {
        assert(s[i + (2 + x.len())] == p[2int + x.len()]);
        assert(s[i + (3 + x.len())] == p[3int + x.len()]);
    }
    assert forall|k: int| i + 2 <= k < n implies !#[trigger] stands(s, k, "$$"@) by {
        assert(s[i + (k - i)] == p[k - i]);
        assert(p[k - i] == x[k - i - 2]);
        if stands(s, k, "$$"@) {
            assert(s[k + 0] == "$$"@[0]);
        }
    }
    lemma_past(s, "$$"@, i + 2, n);
    lemma_simple(s, i, base);
}

/// `\[..\]` and `\(..\)` are math.
pub proof fn law_bracketed_math_is_no_prose(
    s: Seq<char>,
    i: int,
    x: Seq<char>,
    square: bool,
    base: int,
)
    requires
        has_neither(x, '\\', '\\'),
        stands(
            s,
            i,
            if square {
                seq!['\\', '['] + x + seq!['\\', ']']
            } else {
                seq!['\\', '('] + x + seq!['\\', ')']
            },
        ),
    ensures
        reads(
            s,
            i,
            base,
            seq![TokenView::BeginMath, TokenView::EndMath],
            i + x.len() + 4,
        ),
{
    reveal_strlit("\\]");
    reveal_strlit("\\)");
    let p = if square {
        seq!['\\', '['] + x + seq!['\\', ']']
    } else {
        seq!['\\', '('] + x + seq!['\\', ')']
    };
    let close = if square {
        "\\]"@
    } else {
        "\\)"@
    };
    let n = i + 2 + x.len();
    assert(s[i + 0] == p[0]);
    assert(s[i + 1] == p[1]);
    assert(stands(s, n, close)) by {
        assert(s[i + (2 + x.len())] == p[2int + x.len()]);
        assert(s[i + (3 + x.len())] == p[3int + x.len()]);
    }
    assert forall|k: int| i + 2 <= k < n implies !#[trigger] stands(s, k, close) by {
        assert(s[i + (k - i)] == p[k - i]);
        assert(p[k - i] == x[k - i - 2]);
        if stands(s, k, close) {
            assert(s[k + 0] == close[0]);
        }
    }
    lemma_past(s, close, i + 2, n);
    lemma_simple(s, i, base);
}

// ---------------------------------------------------------------------------
// Commands
// ---------------------------------------------------------------------------

proof fn lemma_name_stop(s: Seq<char>, i: int, e: int)
    requires
        0 <= i <= e <= s.len(),
        forall|k: int| i <= k < e ==> chars::is_ascii_letter(#[trigger] s[k]),
        e < s.len() ==> !chars::is_ascii_letter(s[e]) && s[e] != '@',
    ensures
        texparse::name_end(s, i) == e,
    decreases e - i,
{
    if i < e {
        assert(chars::is_ascii_letter(s[i]));
        lemma_name_stop(s, i + 1, e);
    }
}

proof fn lemma_group_found(s: Seq<char>, j: int, e: int)
    requires
        0 <= j <= e < s.len(),
        s[e] == '}',
        forall|k: int| j <= k < e ==> #[trigger] s[k] != '{' && s[k] != '}' && s[k] != '\\',
    ensures
        texparse::group_stop(s, j, 1, '{', '}') == e,
    decreases e - j,
{
    if j < e {
        assert(s[j] != '{');
        lemma_group_found(s, j + 1, e);
    }
}

/// The construct of a command is that of its name.
proof fn lemma_named(s: Seq<char>, i: int, name: Seq<char>)
    requires
        is_word(name),
        stands(s, i, seq!['\\'] + name),
        i + 1 + name.len() < s.len() ==> !chars::is_ascii_letter(s[i + 1 + name.len()]) && s[i + 1
            + name.len()] != '@',
    ensures
        s[i] == '\\',
        texparse::construct(s, i) == texparse::command(s, name, i + 1 + name.len()),
{
    let p = seq!['\\'] + name;
    let e = i + 1 + name.len();
    assert(s[i + 0] == p[0]);
    assert forall|k: int| i + 1 <= k < e implies chars::is_ascii_letter(#[trigger] s[k]) by {
        assert(s[i + (k - i)] == p[k - i]);
        assert(p[k - i] == name[k - i - 1]);
    }
    assert(chars::is_ascii_letter(s[i + 1]));
    lemma_name_stop(s, i + 1, e);
    assert(s.subrange(i + 1, e) =~= name) by {
        assert forall|k: int| 0 <= k < name.len() implies s[i + 1 + k] == name[k] by {
            assert(s[i + (1 + k)] == p[1 + k]);
        }
    }
}

/// The braced group at a position.
proof fn lemma_braced(s: Seq<char>, e: int, t: Seq<char>)
    requires
        is_flat(t),
        stands(s, e, seq!['{'] + t + seq!['}']),
    ensures
        s[e] == '{',
        texparse::braced(s, e) == Some(
            texparse::Group { from: e + 1, stop: e + 1 + t.len(), end: e + 2 + t.len() },
        ),
        s.subrange(e + 1, e + 1 + t.len()) == t,
        texparse::bracketed(s, e) is None,
{
    let p = seq!['{'] + t + seq!['}'];
    let stop = e + 1 + t.len();
    assert(s[e + 0] == p[0]);
    assert(s[e + (1 + t.len())] == p[1int + t.len()]);
    assert forall|k: int| e + 1 <= k < stop implies #[trigger] s[k] != '{' && s[k] != '}' && s[k]
        != '\\' by {
        assert(s[e + (k - e)] == p[k - e]);
        assert(p[k - e] == t[k - e - 1]);
    }
    lemma_group_found(s, e + 1, stop);
    assert(s.subrange(e + 1, stop) =~= t) by {
        assert forall|k: int| 0 <= k < t.len() implies s[e + 1 + k] == t[k] by {
            assert(s[e + (1 + k)] == p[1 + k]);
        }
    }
}

/// A command with one braced argument, in its parts.
proof fn lemma_with_argument(s: Seq<char>, i: int, name: Seq<char>, t: Seq<char>)
    requires
        is_word(name),
        is_flat(t),
        stands(s, i, seq!['\\'] + name + seq!['{'] + t + seq!['}']),
    ensures
        stands(s, i, seq!['\\'] + name),
        stands(s, i + 1 + name.len(), seq!['{'] + t + seq!['}']),
        s[i] == '\\',
        texparse::construct(s, i) == texparse::command(s, name, i + 1 + name.len()),
        s[i + 1 + name.len()] == '{',
        texparse::braced(s, i + 1 + name.len()) == Some(
            texparse::Group {
                from: i + 2 + name.len(),
                stop: i + 2 + name.len() + t.len(),
                end: i + 3 + name.len() + t.len(),
            },
        ),
        s.subrange(i + 2 + name.len(), i + 2 + name.len() + t.len()) == t,
        texparse::bracketed(s, i + 1 + name.len()) is None,
{
    let p = seq!['\\'] + name + seq!['{'] + t + seq!['}'];
    let e = i + 1 + name.len();
    let q = seq!['{'] + t + seq!['}'];
    assert forall|k: int| 0 <= k < (seq!['\\'] + name).len() implies s[i + k] == #[trigger] (seq![
        '\\',
    ] + name)[k] by {
        assert(s[i + k] == p[k]);
    }
    assert forall|k: int| 0 <= k < q.len() implies s[e + k] == #[trigger] q[k] by {
        assert(s[i + (1 + name.len() + k)] == p[1 + name.len() + k]);
    }
    lemma_braced(s, e, t);
    lemma_named(s, i, name);
}

/// The name of a sectioning command of a level.
pub open spec fn heading_name(level: u8) -> Seq<char> {
    if level == 0 {
        "part"@
    } else if level == 1 {
        "chapter"@
    } else if level == 2 {
        "section"@
    } else if level == 3 {
        "subsection"@
    } else if level == 4 {
        "subsubsection"@
    } else if level == 5 {
        "paragraph"@
    } else {
        "subparagraph"@
    }
}

proof fn lemma_heading_names(level: u8)
    requires
        level < 7,
    ensures
        is_word(heading_name(level)),
        heading_name(level) != "begin"@,
        heading_name(level) != "end"@,
        texparse::level_of(heading_name(level)) == Some(level),
{
    reveal_strlit("begin");
    reveal_strlit("end");
    reveal_strlit("part");
    reveal_strlit("chapter");
    reveal_strlit("section");
    reveal_strlit("subsection");
    reveal_strlit("subsubsection");
    reveal_strlit("paragraph");
    reveal_strlit("subparagraph");
    let n = heading_name(level);
    assert(is_word(n));
    assert(n.last() != '*');
    assert(text::trim_end_char(n, '*') == n);
    assert("begin"@[0] == 'b');
    assert("end"@[0] == 'e');
    assert(n[0] != 'b' && n[0] != 'e');
    assert("part"@.len() == 4);
    assert("chapter"@.len() == 7 && "chapter"@[0] == 'c');
    assert("section"@.len() == 7 && "section"@[0] == 's');
    assert("subsection"@.len() == 10);
    assert("subsubsection"@.len() == 13);
    assert("paragraph"@.len() == 9);
    assert("subparagraph"@.len() == 12);
}

/// A sectioning command with a title is a heading of its level.
pub proof fn law_heading_is_a_section(
    s: Seq<char>,
    i: int,
    level: u8,
    title: Seq<char>,
    base: int,
)
    requires
        level < 7,
        is_flat(title),
        stands(s, i, seq!['\\'] + heading_name(level) + seq!['{'] + title + seq!['}']),
    ensures
        reads(
            s,
            i,
            base,
            seq![TokenView::Section { level, title }],
            i + heading_name(level).len() + title.len() + 3,
        ),
{
    let name = heading_name(level);
    lemma_heading_names(level);
    lemma_with_argument(s, i, name, title);
    lemma_simple(s, i, base);
}

proof fn lemma_document()
    ensures
        is_word("begin"@),
        is_word("end"@),
        is_flat("document"@),
        "begin"@ != "end"@,
        "begin"@.len() == 5,
        "end"@.len() == 3,
        "document"@.len() == 8,
{
    reveal_strlit("begin");
    reveal_strlit("end");
    reveal_strlit("document");
    assert("begin"@.len() == 5);
    assert("end"@.len() == 3);
}

/// `\begin{document}` begins the document, and `\end{document}` ends it.
pub proof fn law_document_begins_and_ends(s: Seq<char>, i: int, base: int)
    ensures
        stands(s, i, seq!['\\'] + "begin"@ + seq!['{'] + "document"@ + seq!['}']) && !stands(
            s,
            i + 16,
            seq!['['],
        ) ==> reads(s, i, base, seq![TokenView::BeginDocument], i + 16),
        stands(s, i, seq!['\\'] + "end"@ + seq!['{'] + "document"@ + seq!['}']) ==> reads(
            s,
            i,
            base,
            seq![TokenView::EndDocument],
            i + 14,
        ),
{
    lemma_document();
    if stands(s, i, seq!['\\'] + "begin"@ + seq!['{'] + "document"@ + seq!['}']) && !stands(
        s,
        i + 16,
        seq!['['],
    ) {
        lemma_with_argument(s, i, "begin"@, "document"@);
        assert(texparse::bracketed(s, i + 16) is None) by {
            if i + 16 < s.len() && s[i + 16] == '[' {
                assert(stands(s, i + 16, seq!['[']));
            }
        }
        lemma_simple(s, i, base);
    }
    if stands(s, i, seq!['\\'] + "end"@ + seq!['{'] + "document"@ + seq!['}']) {
        lemma_with_argument(s, i, "end"@, "document"@);
        lemma_simple(s, i, base);
    }
}

/// An environment whose content is math.
pub open spec fn is_math(env: Seq<char>) -> bool {
    ||| env == "equation"@ || env == "equation*"@
    ||| env == "align"@ || env == "align*"@
    ||| env == "gather"@ || env == "gather*"@
    ||| env == "multline"@ || env == "multline*"@
    ||| env == "flalign"@ || env == "flalign*"@
    ||| env == "eqnarray"@ || env == "eqnarray*"@
    ||| env == "displaymath"@ || env == "displaymath*"@
}

/// An environment whose content is a listing.
pub open spec fn is_listing(env: Seq<char>) -> bool {
    env == "verbatim"@ || env == "Verbatim"@ || env == "lstlisting"@ || env == "minted"@
}

proof fn lemma_starred(env: Seq<char>, star: Seq<char>)
    requires
        env.len() > 0,
        star == env + seq!['*'],
        texparse::is_math_environment(env),
        env.last() != '*',
    ensures
        texparse::is_math_environment(star),
{
    assert(star.last() == '*');
    assert(star.drop_last() =~= env);
}

proof fn lemma_math_names(env: Seq<char>)
    requires
        is_math(env),
    ensures
        texparse::is_math_environment(env),
        is_flat(env),
        env != "document"@,
{
    reveal_strlit("document");
    reveal_strlit("equation");
    reveal_strlit("equation*");
    reveal_strlit("align");
    reveal_strlit("align*");
    reveal_strlit("gather");
    reveal_strlit("gather*");
    reveal_strlit("multline");
    reveal_strlit("multline*");
    reveal_strlit("flalign");
    reveal_strlit("flalign*");
    reveal_strlit("eqnarray");
    reveal_strlit("eqnarray*");
    reveal_strlit("displaymath");
    reveal_strlit("displaymath*");
    assert("document"@.len() == 8 && "document"@[1] == 'o');
    assert("equation*"@ =~= "equation"@ + seq!['*']);
    assert("align*"@ =~= "align"@ + seq!['*']);
    assert("gather*"@ =~= "gather"@ + seq!['*']);
    assert("multline*"@ =~= "multline"@ + seq!['*']);
    assert("flalign*"@ =~= "flalign"@ + seq!['*']);
    assert("eqnarray*"@ =~= "eqnarray"@ + seq!['*']);
    assert("displaymath*"@ =~= "displaymath"@ + seq!['*']);
    assert(is_flat(env));
    if env.last() == '*' {
        assert(("equation"@ + seq!['*']).drop_last() =~= "equation"@);
        assert(("align"@ + seq!['*']).drop_last() =~= "align"@);
        assert(("gather"@ + seq!['*']).drop_last() =~= "gather"@);
        assert(("multline"@ + seq!['*']).drop_last() =~= "multline"@);
        assert(("flalign"@ + seq!['*']).drop_last() =~= "flalign"@);
        assert(("eqnarray"@ + seq!['*']).drop_last() =~= "eqnarray"@);
        assert(("displaymath"@ + seq!['*']).drop_last() =~= "displaymath"@);
        assert(env =~= env.drop_last() + seq!['*']);
        lemma_starred(env.drop_last(), env);
    }
    assert(env[1] != 'o');
}

proof fn lemma_listing_names(env: Seq<char>)
    requires
        is_listing(env),
    ensures
        texparse::is_verbatim_environment(env),
        !texparse::is_math_environment(env),
        is_flat(env),
        env != "document"@,
{
    reveal_strlit("document");
    reveal_strlit("verbatim");
    reveal_strlit("Verbatim");
    reveal_strlit("lstlisting");
    reveal_strlit("minted");
    reveal_strlit("equation");
    reveal_strlit("align");
    reveal_strlit("gather");
    reveal_strlit("multline");
    reveal_strlit("flalign");
    reveal_strlit("eqnarray");
    reveal_strlit("displaymath");
    assert(env.last() != '*');
    assert("document"@[0] == 'd');
    assert("equation"@[0] == 'e');
    assert("align"@[0] == 'a');
    assert("gather"@[0] == 'g');
    assert("multline"@[1] == 'u');
    assert("flalign"@[0] == 'f');
    assert("eqnarray"@[0] == 'e');
    assert("displaymath"@[0] == 'd');
    assert(is_flat(env));
}

/// The content of a math environment and of a listing is no prose, up to the first `\end`
/// of it.
pub proof fn law_environment_content_is_no_prose(
    s: Seq<char>,
    i: int,
    env: Seq<char>,
    n: int,
    base: int,
)
    requires
        is_math(env) || is_listing(env),
        stands(s, i, seq!['\\'] + "begin"@ + seq!['{'] + env + seq!['}']),
        !stands(s, i + 8 + env.len(), seq!['[']),
        i + 8 + env.len() <= n,
        stands(s, n, "\\end{"@ + env + "}"@),
        forall|k: int| i + 8 + env.len() <= k < n ==> !#[trigger] stands(s, k, "\\end{"@ + env + "}"@),
    ensures
        reads(
            s,
            i,
            base,
            if is_math(env) {
                seq![TokenView::BeginMath, TokenView::EndMath]
            } else {
                seq![TokenView::BeginVerbatim { env }, TokenView::EndVerbatim { env }]
            },
            n + 6 + env.len(),
        ),
{
    reveal_strlit("\\end{");
    reveal_strlit("}");
    lemma_document();
    if is_math(env) {
        lemma_math_names(env);
    } else {
        lemma_listing_names(env);
    }
    lemma_with_argument(s, i, "begin"@, env);
    let body = i + 8 + env.len();
    assert(texparse::bracketed(s, body) is None) by {
        if body < s.len() && s[body] == '[' {
            assert(stands(s, body, seq!['[']));
        }
    }
    lemma_past(s, "\\end{"@ + env + "}"@, body, n);
    lemma_simple(s, i, base);
}

/// A command whose argument is prose.
pub open spec fn is_prose_command(name: Seq<char>) -> bool {
    name == "emph"@ || name == "textit"@ || name == "textbf"@ || name == "footnote"@ || name
        == "caption"@
}

proof fn lemma_prose_names(name: Seq<char>)
    requires
        is_prose_command(name),
    ensures
        is_word(name),
        texparse::is_prose_command(name),
        name != "begin"@,
        name != "end"@,
        name != "verb"@,
        name != "lstinline"@,
        name != "href"@,
        texparse::level_of(name) is None,
{
    reveal_strlit("begin");
    reveal_strlit("end");
    reveal_strlit("verb");
    reveal_strlit("lstinline");
    reveal_strlit("href");
    reveal_strlit("emph");
    reveal_strlit("textit");
    reveal_strlit("textbf");
    reveal_strlit("footnote");
    reveal_strlit("caption");
    reveal_strlit("part");
    reveal_strlit("chapter");
    reveal_strlit("section");
    reveal_strlit("subsection");
    reveal_strlit("subsubsection");
    reveal_strlit("paragraph");
    reveal_strlit("subparagraph");
    assert(is_word(name));
    assert(name.last() != '*');
    assert(text::trim_end_char(name, '*') == name);
    assert("end"@.len() == 3);
    assert("begin"@[0] == 'b');
    assert("verb"@[0] == 'v');
    assert("lstinline"@[0] == 'l');
    assert("href"@[0] == 'h');
    assert("part"@[0] == 'p');
    assert("chapter"@[1] == 'h');
    assert("section"@[0] == 's');
    assert("subsection"@[0] == 's');
    assert("subsubsection"@[0] == 's');
    assert("paragraph"@[0] == 'p');
    assert("subparagraph"@[0] == 's');
}

/// The argument of such a command is read as prose of its own, between the command and what
/// follows.
pub proof fn law_prose_argument_is_read(
    s: Seq<char>,
    i: int,
    name: Seq<char>,
    t: Seq<char>,
    base: int,
)
    requires
        is_prose_command(name),
        is_flat(t),
        stands(s, i, seq!['\\'] + name + seq!['{'] + t + seq!['}']),
    ensures
        texparse::scan(s, i, base).tokens == seq![
            SpannedView {
                token: TokenView::Command { name, args: Seq::empty() },
                start: base + i,
            },
        ] + texparse::scan(t, 0, base + i + name.len() + 2).tokens + texparse::scan(
            s,
            i + name.len() + t.len() + 3,
            base,
        ).tokens,
{
    lemma_prose_names(name);
    lemma_with_argument(s, i, name, t);
    let e = i + 1 + name.len();
    assert(texparse::after_options(s, e) == e);
    assert(texparse::options(s, e) =~= Seq::<Seq<char>>::empty());
    let c = texparse::construct(s, i);
    assert(c == texparse::with_prose(s, name, texparse::options(s, e), e));
    let a = i + 2 + name.len();
    assert(c.prose == Some((a, a + t.len())));
    assert(s.subrange(a, a + t.len()) == t);
    assert(texparse::scan(s, i, base).tokens =~= texparse::at(c.tokens, base + i)
        + texparse::scan(t, 0, base + a).tokens + texparse::scan(s, c.end, base).tokens);
    assert(texparse::at(c.tokens, base + i) =~= seq![
        SpannedView { token: TokenView::Command { name, args: Seq::empty() }, start: base + i },
    ]);
}

/// A backslash before a character that is no letter makes a command of that character:
/// `\%` is no comment and `\$` opens no math.
pub proof fn law_escaped_character_is_a_command(s: Seq<char>, i: int, c: char, base: int)
    requires
        stands(s, i, seq!['\\', c]),
        !chars::is_ascii_letter(c),
        c != '@' && c != '[' && c != ']' && c != '(' && c != ')',
    ensures
        reads(
            s,
            i,
            base,
            seq![TokenView::Command { name: seq![c], args: Seq::empty() }],
            i + 2,
        ),
{
    let p = seq!['\\', c];
    assert(s[i + 0] == p[0]);
    assert(s[i + 1] == p[1]);
    lemma_simple(s, i, base);
}

} // verus!
