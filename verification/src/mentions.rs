//! What a line mentions: where its comment begins, and which arguments its commands have.

use vstd::prelude::*;

use crate::chars;
use crate::text;
use crate::texutil;

verus! {

/// Whether a `%` at a position of a line begins its comment: no backslash stands before it.
pub open spec fn is_comment_sign(line: Seq<char>, i: int) -> bool {
    line[i] == '%' && (i == 0 || line[i - 1] != '\\')
}

proof fn lemma_comment_start(line: Seq<char>, i: int)
    requires
        0 <= i <= line.len(),
    ensures
        i <= texutil::comment_start(line, i) <= line.len(),
        forall|j: int| i <= j < texutil::comment_start(line, i) ==> !#[trigger] is_comment_sign(line, j),
        texutil::comment_start(line, i) < line.len() ==> is_comment_sign(
            line,
            texutil::comment_start(line, i),
        ),
    decreases line.len() - i,
{
    if i < line.len() && !(line[i] == '%' && !(i > 0 && line[i - 1] == '\\')) {
        lemma_comment_start(line, i + 1);
    }
}

/// A line without its comment is the line up to the first `%` that no backslash escapes.
pub proof fn law_comment_begins_at_the_first_percent(line: Seq<char>)
    ensures
        ({
            let t = texutil::uncommented(line);
            let n = t.len() as int;
            &&& n <= line.len()
            &&& forall|j: int| 0 <= j < n ==> t[j] == #[trigger] line[j]
            &&& forall|j: int| 0 <= j < n ==> !#[trigger] is_comment_sign(line, j)
            &&& n < line.len() ==> is_comment_sign(line, n)
        }),
{
    lemma_comment_start(line, 0);
}

/// Whether a text stands at a position.
pub open spec fn stands(s: Seq<char>, i: int, p: Seq<char>) -> bool {
    0 <= i && i + p.len() <= s.len() && forall|k: int|
        0 <= k < p.len() ==> s[i + k] == #[trigger] p[k]
}

/// Whether a text is nothing, or stands in brackets.
pub open spec fn is_option(o: Seq<char>) -> bool {
    o.len() == 0 || o.len() >= 2 && o[0] == '[' && o.last() == ']' && forall|k: int|
        0 <= k < o.len() - 1 ==> #[trigger] o[k] != ']'
}

proof fn lemma_stands(s: Seq<char>, i: int, p: Seq<char>)
    ensures
        stands(s, i, p) <==> text::matches_at(s, i, p),
{
    if stands(s, i, p) {
        assert(s.subrange(i, i + p.len()) =~= p);
    }
    if text::matches_at(s, i, p) {
        assert forall|k: int| 0 <= k < p.len() implies s[i + k] == #[trigger] p[k] by {
            assert(s.subrange(i, i + p.len())[k] == s[i + k]);
        }
    }
}

proof fn lemma_first(s: Seq<char>, c: char, n: int, i: int)
    requires
        0 <= i <= n < s.len(),
        s[n] == c,
        forall|k: int| i <= k < n ==> #[trigger] s[k] != c,
    ensures
        text::find_char_from(s, c, i) == Some(n),
    decreases n - i,
{
    if i < n {
        assert(s[i] != c);
        lemma_first(s, c, n, i + 1);
    }
}

/// The first argument of a command is found, behind whatever option, without the white
/// space around it; and the others are those of what follows.
pub proof fn law_arguments_are_found(
    line: Seq<char>,
    cmd: Seq<char>,
    x: Seq<char>,
    o: Seq<char>,
    a: Seq<char>,
    y: Seq<char>,
)
    requires
        line == x + (seq!['\\'] + cmd) + o + seq!['{'] + a + seq!['}'] + y,
        forall|j: int| 0 <= j < x.len() ==> !#[trigger] stands(line, j, seq!['\\'] + cmd),
        is_option(o),
        !a.contains('}'),
    ensures
        text::trim(a).len() > 0 ==> texutil::commands_in(line, cmd) == seq![text::trim(a)]
            + texutil::commands_in(y, cmd),
        text::trim(a).len() == 0 ==> texutil::commands_in(line, cmd) == texutil::commands_in(y, cmd),
{
    let p = seq!['\\'] + cmd;
    let n = x.len() as int;
    text::lemma_find_bounds(line, p, 0);
    assert(stands(line, n, p));
    lemma_stands(line, n, p);
    assert(text::find(line, p) == Some(n)) by {
        if let Some(k) = text::find(line, p) {
            if k < n {
                lemma_stands(line, k, p);
                assert(!stands(line, k, p));
            }
        }
    }
    let body = seq!['{'] + a + seq!['}'] + y;
    let t = line.skip(n + p.len());
    assert(t =~= o + body);
    if o.len() > 0 {
        let e = o.len() - 1;
        assert(t[0] == '[');
        assert(t[e] == ']');
        assert forall|k: int| 0 <= k < e implies #[trigger] t[k] != ']' by {
            assert(t[k] == o[k]);
        }
        lemma_first(t, ']', e, 0);
        assert(t.skip(e + 1) =~= body);
    } else {
        assert(t =~= body);
        assert(t[0] == '{');
    }
    assert(texutil::after_option(t) == Some(body));
    let m = 1 + a.len() as int;
    assert(body[m] == '}');
    assert forall|k: int| 0 <= k < m implies #[trigger] body[k] != '}' by {
        if k > 0 {
            assert(body[k] == a[k - 1]);
            assert(a.contains(a[k - 1]));
        }
    }
    lemma_first(body, '}', m, 0);
    assert(body.subrange(1, m) =~= a);
    assert(body.skip(m + 1) =~= y);
}

/// A line in which a command does not stand has no argument of it.
pub proof fn law_no_command_no_argument(line: Seq<char>, cmd: Seq<char>)
    requires
        forall|j: int| 0 <= j ==> !#[trigger] stands(line, j, seq!['\\'] + cmd),
    ensures
        texutil::commands_in(line, cmd).len() == 0,
{
    let p = seq!['\\'] + cmd;
    text::lemma_find_bounds(line, p, 0);
    if let Some(k) = text::find(line, p) {
        lemma_stands(line, k, p);
        assert(!stands(line, k, p));
    }
}

// ---------------------------------------------------------------------------
// Texts
// ---------------------------------------------------------------------------

/// Whether a text is nothing but white space.
pub open spec fn is_blank(t: Seq<char>) -> bool {
    forall|i: int| 0 <= i < t.len() ==> chars::is_space(#[trigger] t[i])
}

/// Trimming a text takes white space off both its ends, all of it, and nothing else.
pub proof fn law_trimming_takes_white_space_off(s: Seq<char>)
    ensures
        exists|a: Seq<char>, b: Seq<char>|
            is_blank(a) && is_blank(b) && s == #[trigger] (a + text::trim(s) + b),
        text::trim(s).len() > 0 ==> !chars::is_space(text::trim(s)[0]) && !chars::is_space(
            text::trim(s).last(),
        ),
{
    let x = text::trim_start(s);
    text::lemma_trim_start_len(s);
    text::lemma_trim_end_len(x);
    let a = s.take(s.len() - x.len());
    let b = x.skip(text::trim_end(x).len() as int);
    assert(is_blank(a));
    assert(is_blank(b));
    assert(s =~= a + text::trim(s) + b);
}

/// The first line of a text goes up to its first line feed, without a carriage return right
/// before it, and the other lines are those of what follows. Without a line feed a text is
/// one line, and nothing has no lines.
pub proof fn law_lines_end_at_line_feeds(a: Seq<char>, b: Seq<char>)
    requires
        !a.contains('\n'),
    ensures
        text::lines(a + seq!['\n'] + b) == seq![
            if a.len() > 0 && a.last() == '\r' {
                a.drop_last()
            } else {
                a
            },
        ] + text::lines(b),
        a.len() > 0 ==> text::lines(a) == seq![a],
        text::lines(Seq::empty()).len() == 0,
{
    let s = a + seq!['\n'] + b;
    let n = a.len() as int;
    assert forall|k: int| 0 <= k < n implies #[trigger] s[k] != '\n' by {
        assert(a.contains(a[k]));
    }
    lemma_first(s, '\n', n, 0);
    assert(s.take(n) =~= a);
    assert(s.skip(n + 1) =~= b);
    text::lemma_find_char_bounds(a, '\n', 0);
    if let Some(k) = text::find_char(a, '\n') {
        assert(a.contains(a[k]));
    }
}

/// Splitting a text at a character gives its pieces between the occurrences.
pub proof fn law_split_at_a_character(a: Seq<char>, b: Seq<char>, c: char)
    requires
        !a.contains(c),
    ensures
        text::split(a + seq![c] + b, c) == seq![a] + text::split(b, c),
        text::split(a, c) == seq![a],
{
    let s = a + seq![c] + b;
    let n = a.len() as int;
    assert forall|k: int| 0 <= k < n implies #[trigger] s[k] != c by {
        assert(a.contains(a[k]));
    }
    lemma_first(s, c, n, 0);
    assert(s.take(n) =~= a);
    assert(s.skip(n + 1) =~= b);
    text::lemma_find_char_bounds(a, c, 0);
    if let Some(k) = text::find_char(a, c) {
        assert(a.contains(a[k]));
    }
}

/// Lowering a text of ASCII letters lowers each letter, and keeps everything that is no
/// capital.
pub proof fn law_lower_case_of_ascii(s: Seq<char>)
    requires
        forall|i: int| 0 <= i < s.len() ==> #[trigger] s[i] <= '\u{7f}',
    ensures
        chars::lowercase(s).len() == s.len(),
        forall|i: int|
            0 <= i < s.len() ==> #[trigger] chars::lowercase(s)[i] == if 'A' <= s[i] <= 'Z' {
                ((s[i] as u32) + 32) as char
            } else {
                s[i]
            },
{
    assert(chars::all_latin(s));
}

} // verus!
