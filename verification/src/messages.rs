//! What is read off the output of the engine: its errors and its warnings, each with its
//! place.

use vstd::prelude::*;

use crate::chars;
use crate::compiler::{self, ErrorView, WarningView};
use crate::linter::Severity;
use crate::number;
use crate::order;
use crate::text;
use crate::wordset;

verus! {

/// Whether a text begins and ends with something other than white space.
pub open spec fn is_tight(t: Seq<char>) -> bool {
    t.len() > 0 && !chars::is_space(t[0]) && !chars::is_space(t.last())
}

/// Whether a text is what remains of a line without the white space around it.
pub open spec fn is_within(line: Seq<char>, a: Seq<char>, t: Seq<char>, b: Seq<char>) -> bool {
    &&& line == a + t + b
    &&& is_tight(t)
    &&& forall|i: int| 0 <= i < a.len() ==> chars::is_space(#[trigger] a[i])
    &&& forall|i: int| 0 <= i < b.len() ==> chars::is_space(#[trigger] b[i])
}

proof fn lemma_trim_end_is(t: Seq<char>, b: Seq<char>)
    requires
        t.len() > 0,
        !chars::is_space(t.last()),
        forall|i: int| 0 <= i < b.len() ==> chars::is_space(#[trigger] b[i]),
    ensures
        text::trim_end(t + b) == t,
    decreases b.len(),
{
    if b.len() == 0 {
        assert(t + b =~= t);
    } else {
        assert((t + b).last() == b.last());
        assert((t + b).drop_last() =~= t + b.drop_last());
        lemma_trim_end_is(t, b.drop_last());
    }
}

pub proof fn lemma_trimmed(line: Seq<char>, a: Seq<char>, t: Seq<char>, b: Seq<char>)
    requires
        is_within(line, a, t, b),
    ensures
        text::trim(line) == t,
{
    assert(line =~= a + (t + b));
    assert((t + b)[0] == t[0]);
    crate::formatter::roundtrip::lemma_trim_start_is(a, t + b);
    lemma_trim_end_is(t, b);
}

pub proof fn lemma_tight(t: Seq<char>)
    requires
        is_tight(t),
    ensures
        text::trim(t) == t,
{
    let none = Seq::<char>::empty();
    assert(t =~= none + t + none);
    lemma_trimmed(t, none, t, none);
}

/// Whether no colon of a text stands before a space.
pub open spec fn has_no_colon_space(t: Seq<char>) -> bool {
    forall|i: int| 0 <= i < t.len() - 1 ==> !(#[trigger] t[i] == ':' && t[i + 1] == ' ')
}

pub proof fn lemma_found(s: Seq<char>, p: Seq<char>, i: int, k: int)
    requires
        0 <= i <= k,
        text::matches_at(s, k, p),
        forall|j: int| i <= j < k ==> !#[trigger] text::matches_at(s, j, p),
    ensures
        text::find_from(s, p, i) == Some(k),
    decreases k - i,
{
    if i < k {
        assert(!text::matches_at(s, i, p));
        lemma_found(s, p, i + 1, k);
    }
}

pub proof fn lemma_rfound(s: Seq<char>, c: char, i: int, k: int)
    requires
        0 <= k < i <= s.len(),
        s[k] == c,
        forall|j: int| k < j < i ==> #[trigger] s[j] != c,
    ensures
        text::rfind_char_before(s, c, i) == Some(k),
    decreases i - k,
{
    if k < i - 1 {
        lemma_rfound(s, c, i - 1, k);
    }
}

/// What an error of the engine's own says: the file, a colon, the line, a colon, a space and
/// the message.
pub open spec fn placed(file: Seq<char>, n: nat, message: Seq<char>) -> Seq<char> {
    file + seq![':'] + number::decimal(n) + seq![':', ' '] + message
}

proof fn lemma_placed(file: Seq<char>, n: nat, message: Seq<char>)
    requires
        is_tight(file),
        has_no_colon_space(file),
        is_tight(message),
        n <= usize::MAX,
    ensures
        is_tight(placed(file, n, message)),
        compiler::tectonic_error(placed(file, n, message)) == (ErrorView {
            file,
            line: n,
            message,
        }),
{
    let d = number::decimal(n);
    let t = placed(file, n, message);
    let c = file.len() as int;
    let k = c + 1 + d.len();
    number::law_value_of_decimal(n);
    number::law_parse_decimal(n, usize::MAX as int);
    assert(t[0] == file[0]);
    assert(t.last() == message.last());
    lemma_tight(t);
    reveal_strlit(": ");
    assert(t.subrange(k, k + 2) =~= ": "@);
    assert forall|j: int| 0 <= j < k implies !#[trigger] text::matches_at(t, j, ": "@) by {
        let two = t.subrange(j, j + 2);
        assert(two[0] == t[j] && two[1] == t[j + 1]);
        if two == ": "@ {
            assert(t[j] == ':' && t[j + 1] == ' ');
            if j < c {
                assert(t[j] == file[j]);
                if j + 1 < c {
                    assert(t[j + 1] == file[j + 1]);
                    assert(!(file[j] == ':' && file[j + 1] == ' '));
                } else {
                    assert(t[j + 1] == ':');
                }
            } else if j == c {
                assert(t[j + 1] == d[0]);
                assert(chars::is_digit(d[0]));
            } else {
                assert(t[j] == d[j - c - 1]);
                assert(chars::is_digit(d[j - c - 1]));
            }
        }
    }
    lemma_found(t, ": "@, 0, k);
    let head = t.take(k);
    assert forall|j: int| c < j < head.len() implies #[trigger] head[j] != ':' by {
        assert(head[j] == d[j - c - 1]);
        assert(chars::is_digit(d[j - c - 1]));
    }
    assert(head[c] == ':');
    lemma_rfound(head, ':', head.len() as int, c);
    assert(t.subrange(c + 1, k) =~= d);
    assert(t.take(c) =~= file);
    assert(t.skip(k + 2) =~= message);
    lemma_tight(file);
    lemma_tight(message);
}

/// A line `error: file:line: message` brings an error with that place and that message.
pub proof fn law_placed_errors_are_read(
    ls: Seq<Seq<char>>,
    k: int,
    a: Seq<char>,
    file: Seq<char>,
    n: nat,
    message: Seq<char>,
    b: Seq<char>,
)
    requires
        0 <= k < ls.len(),
        is_within(ls[k], a, "error: "@ + placed(file, n, message), b),
        is_tight(file),
        has_no_colon_space(file),
        is_tight(message),
        n <= usize::MAX,
    ensures
        compiler::errors_in(ls, k + 1) == compiler::errors_in(ls, k).push(
            ErrorView { file, line: n, message },
        ),
{
    reveal_strlit("error: ");
    reveal_strlit("error:");
    let p = placed(file, n, message);
    let t = "error: "@ + p;
    lemma_trimmed(ls[k], a, t, b);
    lemma_placed(file, n, message);
    assert(t.take("error:"@.len() as int) =~= "error:"@);
    assert(t.subrange(0, "error:"@.len() as int) =~= "error:"@);
    let rest = t.skip("error:"@.len() as int);
    assert(rest =~= seq![' '] + p + Seq::<char>::empty());
    assert(is_within(rest, seq![' '], p, Seq::empty()));
    lemma_trimmed(rest, seq![' '], p, Seq::empty());
    lemma_tight(p);
}

/// A line `! message` brings an error with that message and no place.
pub proof fn law_plain_errors_are_read(
    ls: Seq<Seq<char>>,
    k: int,
    a: Seq<char>,
    message: Seq<char>,
    b: Seq<char>,
)
    requires
        0 <= k < ls.len(),
        is_within(ls[k], a, "! "@ + message, b),
    ensures
        compiler::errors_in(ls, k + 1) == compiler::errors_in(ls, k).push(
            ErrorView { file: Seq::empty(), line: 0, message },
        ),
{
    reveal_strlit("! ");
    reveal_strlit("error:");
    let t = "! "@ + message;
    lemma_trimmed(ls[k], a, t, b);
    assert(t[0] == '!');
    assert(!text::starts_with(t, "error:"@)) by {
        if text::starts_with(t, "error:"@) {
            assert(t[0] == "error:"@[0]);
        }
    }
    assert(t.take("! "@.len() as int) =~= "! "@);
    assert(t.subrange(0, "! "@.len() as int) =~= "! "@);
    assert(t.skip("! "@.len() as int) =~= message);
}

proof fn lemma_digit_run(d: Seq<char>, rest: Seq<char>)
    requires
        number::all_digits(d),
        rest.len() > 0 ==> !chars::is_digit(rest[0]),
    ensures
        compiler::digit_run(d + rest) == d.len(),
    decreases d.len(),
{
    if d.len() == 0 {
        assert(d + rest =~= rest);
    } else {
        assert((d + rest)[0] == d[0]);
        assert(chars::is_digit(d[0]));
        assert((d + rest).skip(1) =~= d.skip(1) + rest);
        assert forall|i: int| 0 <= i < d.skip(1).len() implies chars::is_digit(
            #[trigger] d.skip(1)[i],
        ) by {
            assert(d.skip(1)[i] == d[i + 1]);
        }
        lemma_digit_run(d.skip(1), rest);
    }
}

/// A line that begins with `l.` and a number gives the error before it that line, and
/// changes nothing else.
pub proof fn law_errors_get_their_line(
    ls: Seq<Seq<char>>,
    k: int,
    a: Seq<char>,
    n: nat,
    rest: Seq<char>,
    b: Seq<char>,
)
    requires
        0 <= k < ls.len(),
        is_within(ls[k], a, "l."@ + number::decimal(n) + rest, b),
        rest.len() > 0 ==> !chars::is_digit(rest[0]),
        n <= usize::MAX,
        compiler::errors_in(ls, k).len() > 0,
    ensures
        ({
            let before = compiler::errors_in(ls, k);
            let after = compiler::errors_in(ls, k + 1);
            &&& after.len() == before.len()
            &&& after.drop_last() == before.drop_last()
            &&& after.last() == (ErrorView { line: n, ..before.last() })
        }),
{
    reveal_strlit("l.");
    reveal_strlit("! ");
    reveal_strlit("error:");
    let d = number::decimal(n);
    let t = "l."@ + d + rest;
    lemma_trimmed(ls[k], a, t, b);
    assert(t[0] == 'l');
    assert(!text::starts_with(t, "error:"@)) by {
        if text::starts_with(t, "error:"@) {
            assert(t[0] == "error:"@[0]);
        }
    }
    assert(!text::starts_with(t, "! "@)) by {
        if text::starts_with(t, "! "@) {
            assert(t[0] == "! "@[0]);
        }
    }
    assert(t.take("l."@.len() as int) =~= "l."@);
    assert(t.subrange(0, "l."@.len() as int) =~= "l."@);
    let s = t.skip("l."@.len() as int);
    assert(s =~= d + rest);
    number::law_value_of_decimal(n);
    number::law_parse_decimal(n, usize::MAX as int);
    lemma_digit_run(d, rest);
    assert(s.take(d.len() as int) =~= d);
    let before = compiler::errors_in(ls, k);
    assert(compiler::errors_in(ls, k + 1).drop_last() =~= before.drop_last());
}

/// A line that begins with none of the three marks changes nothing.
pub proof fn law_other_lines_are_no_errors(ls: Seq<Seq<char>>, k: int)
    requires
        0 <= k < ls.len(),
        ({
            let t = text::trim(ls[k]);
            t.len() == 0 || t[0] != 'e' && t[0] != '!' && t[0] != 'l'
        }),
    ensures
        compiler::errors_in(ls, k + 1) == compiler::errors_in(ls, k),
{
    reveal_strlit("l.");
    reveal_strlit("! ");
    reveal_strlit("error:");
    let t = text::trim(ls[k]);
    assert(!text::starts_with(t, "error:"@)) by {
        if text::starts_with(t, "error:"@) {
            assert(t[0] == "error:"@[0]);
        }
    }
    assert(!text::starts_with(t, "! "@)) by {
        if text::starts_with(t, "! "@) {
            assert(t[0] == "! "@[0]);
        }
    }
    assert(!text::starts_with(t, "l."@)) by {
        if text::starts_with(t, "l."@) {
            assert(t[0] == "l."@[0]);
        }
    }
}

/// A later line never takes an error away, and changes no error but the last, and of that
/// only the line.
pub proof fn law_errors_stay(ls: Seq<Seq<char>>, k: int, m: int, i: int)
    requires
        0 <= k <= m <= ls.len(),
        0 <= i < compiler::errors_in(ls, k).len(),
    ensures
        i < compiler::errors_in(ls, m).len(),
        compiler::errors_in(ls, m)[i].file == compiler::errors_in(ls, k)[i].file,
        compiler::errors_in(ls, m)[i].message == compiler::errors_in(ls, k)[i].message,
        i + 1 < compiler::errors_in(ls, k).len() ==> compiler::errors_in(ls, m)[i]
            == compiler::errors_in(ls, k)[i],
    decreases m - k,
{
    if k < m {
        law_errors_stay(ls, k, m - 1, i);
        if i + 1 < compiler::errors_in(ls, k).len() {
            law_errors_stay(ls, k, m - 1, i + 1);
        }
    }
}

// ---------------------------------------------------------------------------
// The report on errors
// ---------------------------------------------------------------------------

/// An error in the report: its place, and its message on a line of its own.
pub open spec fn reported(e: ErrorView) -> Seq<char> {
    seq!['['] + e.file + seq![':'] + number::decimal(e.line) + seq![']', '\n', ' ', ' '] + e.message
}

proof fn lemma_error_texts(errors: Seq<ErrorView>, k: int, i: int)
    requires
        0 <= i < k <= errors.len(),
    ensures
        exists|x: Seq<char>, y: Seq<char>|
            compiler::error_texts(errors, k) == #[trigger] (x + reported(errors[i]) + y)
                && y.len() > 0,
    decreases k,
{
    let before = compiler::error_texts(errors, k - 1);
    if i < k - 1 {
        lemma_error_texts(errors, k - 1, i);
        let (x, y) = choose|x: Seq<char>, y: Seq<char>|
            before == #[trigger] (x + reported(errors[i]) + y) && y.len() > 0;
        let z = y + compiler::error_text(errors[k - 1]);
        assert(compiler::error_texts(errors, k) =~= x + reported(errors[i]) + z);
    } else {
        reveal_strlit("ERROR [");
        reveal_strlit(":");
        reveal_strlit("]\n  ");
        reveal_strlit("\n\n");
        let e = errors[i];
        let x = "ERROR "@;
        reveal_strlit("ERROR ");
        assert("ERROR ["@ =~= x + seq!['[']);
        assert(":"@ =~= seq![':']);
        assert("]\n  "@ =~= seq![']', '\n', ' ', ' ']);
        assert(compiler::error_text(e) =~= x + reported(e) + "\n\n"@);
        assert(compiler::error_texts(errors, k) =~= (before + x) + reported(e) + "\n\n"@);
    }
}

proof fn lemma_trim_keeps(t: Seq<char>, x: Seq<char>, m: Seq<char>, y: Seq<char>)
    requires
        t == x + m + y,
        is_tight(m),
    ensures
        exists|u: Seq<char>, v: Seq<char>| text::trim(t) == #[trigger] (u + m + v),
{
    let s = text::trim_start(t);
    crate::fidelity::lemma_spaces_off(t);
    let n = t.len() - s.len();
    assert(n <= x.len()) by {
        if n > x.len() {
            assert(t[x.len() as int] == m[0]);
        }
    }
    let u = x.skip(n);
    assert(s =~= u + m + y);
    lemma_end_off(s);
    let e = text::trim_end(s);
    assert(e.len() >= u.len() + m.len()) by {
        if e.len() < u.len() + m.len() {
            let last = u.len() + m.len() - 1;
            assert(s[last as int] == m.last());
        }
    }
    let v = y.take(e.len() - u.len() - m.len());
    assert(e =~= u + m + v);
}

proof fn lemma_end_off(s: Seq<char>)
    ensures
        ({
            let t = text::trim_end(s);
            &&& t.len() <= s.len()
            &&& t == s.take(t.len() as int)
            &&& forall|i: int| t.len() <= i < s.len() ==> chars::is_space(#[trigger] s[i])
        }),
    decreases s.len(),
{
    let t = text::trim_end(s);
    if s.len() > 0 && chars::is_space(s.last()) {
        lemma_end_off(s.drop_last());
        assert(s.drop_last().take(t.len() as int) =~= s.take(t.len() as int));
        assert forall|i: int| t.len() <= i < s.len() implies chars::is_space(#[trigger] s[i]) by {
            if i < s.len() - 1 {
                assert(s[i] == s.drop_last()[i]);
            }
        }
    } else {
        assert(s.take(s.len() as int) =~= s);
    }
}

/// The report on a failed compilation names every error that was read, with its place and
/// its message.
pub proof fn law_every_error_is_reported(raw: Seq<char>, i: int)
    requires
        0 <= i < compiler::errors_in(text::lines(raw), text::lines(raw).len() as int).len(),
        ({
            let m = compiler::errors_in(text::lines(raw), text::lines(raw).len() as int)[i].message;
            m.len() > 0 && !chars::is_space(m.last())
        }),
    ensures
        ({
            let e = compiler::errors_in(text::lines(raw), text::lines(raw).len() as int)[i];
            exists|x: Seq<char>, y: Seq<char>|
                compiler::failure_text(raw) == #[trigger] (x + reported(e) + y)
        }),
{
    let ls = text::lines(raw);
    let errors = compiler::errors_in(ls, ls.len() as int);
    let e = errors[i];
    lemma_error_texts(errors, errors.len() as int, i);
    let (x, y) = choose|x: Seq<char>, y: Seq<char>|
        compiler::error_texts(errors, errors.len() as int) == #[trigger] (x + reported(e) + y)
            && y.len() > 0;
    let head = "Compilation failed:\n\n"@;
    let t = head + compiler::error_texts(errors, errors.len() as int);
    assert(t =~= (head + x) + reported(e) + y);
    assert(reported(e)[0] == '[');
    assert(reported(e).last() == e.message.last());
    lemma_trim_keeps(t, head + x, reported(e), y);
}

// ---------------------------------------------------------------------------
// Warnings
// ---------------------------------------------------------------------------

/// Whether a line closes a file.
pub open spec fn closes(line: Seq<char>) -> bool {
    text::trim(line) == seq![')']
}

/// Whether a line opens the file at a path.
pub open spec fn opens(line: Seq<char>, path: Seq<char>) -> bool {
    text::trim(line) == seq!['('] + path && compiler::is_source(path)
}

/// How many files more are open after the lines from `a` to `b` than before them.
pub open spec fn more_open(ls: Seq<Seq<char>>, a: int, b: int) -> int
    decreases b - a,
{
    if a >= b {
        0
    } else {
        more_open(ls, a, b - 1) + if closes(ls[b - 1]) {
            -1int
        } else if exists|path: Seq<char>| #[trigger] opens(ls[b - 1], path) {
            1
        } else {
            0
        }
    }
}

proof fn lemma_opening(log: compiler::LogView, line: Seq<char>)
    ensures
        ({
            let next = compiler::logged(log, line);
            &&& closes(line) ==> next.open == if log.open.len() > 0 {
                log.open.drop_last()
            } else {
                log.open
            }
            &&& forall|path: Seq<char>| #[trigger]
                opens(line, path) ==> next.open == log.open.push(path) && !closes(line)
            &&& !closes(line) && !(exists|path: Seq<char>| #[trigger] opens(line, path))
                ==> next.open == log.open
            &&& closes(line) || (exists|path: Seq<char>| #[trigger] opens(line, path))
                ==> next.warnings == log.warnings
        }),
{
    let t = text::trim(line);
    assert forall|path: Seq<char>| #[trigger] opens(line, path) implies compiler::logged(
        log,
        line,
    ).open == log.open.push(path) && !closes(line) && compiler::logged(log, line).warnings
        == log.warnings by {
        assert(t[0] == '(');
        assert(t.skip(1) =~= path);
        assert(seq![')'][0] == ')');
    }
    if t.len() > 0 && t[0] == '(' && compiler::is_source(t.skip(1)) {
        assert(t =~= seq!['('] + t.skip(1));
        assert(opens(line, t.skip(1)));
    }
}

proof fn lemma_still_open(ls: Seq<Seq<char>>, m: int, k: int)
    requires
        0 <= m <= k <= ls.len(),
        forall|j: int| m <= j <= k ==> #[trigger] more_open(ls, m, j) >= 0,
    ensures
        ({
            let a = compiler::log_of(ls, m).open;
            let b = compiler::log_of(ls, k).open;
            b.len() == a.len() + more_open(ls, m, k) && b.take(a.len() as int) == a
        }),
    decreases k - m,
{
    let a = compiler::log_of(ls, m).open;
    if m < k {
        lemma_still_open(ls, m, k - 1);
        assert(more_open(ls, m, k) >= 0);
        let c = compiler::log_of(ls, k - 1);
        let b = compiler::log_of(ls, k).open;
        lemma_opening(c, ls[k - 1]);
        if exists|path: Seq<char>| #[trigger] opens(ls[k - 1], path) {
            let path = choose|path: Seq<char>| #[trigger] opens(ls[k - 1], path);
            assert(b == c.open.push(path));
        }
        assert(b.take(a.len() as int) =~= c.open.take(a.len() as int));
    } else {
        assert(a.take(a.len() as int) =~= a);
    }
}

/// What the engine says in a warning.
pub open spec fn warns(t: Seq<char>) -> bool {
    ||| text::contains(t, "Underfull \\hbox (badness"@)
    ||| text::contains(t, "Underfull \\vbox (badness"@)
    ||| text::contains(t, "Overfull \\hbox"@)
    ||| text::contains(t, "Overfull \\vbox"@)
    ||| text::contains(t, "LaTeX Warning:"@)
    ||| text::contains(t, " Warning:"@) && text::starts_with(t, "Package "@)
}

/// A warning belongs to the file that was opened last and is not closed: the file that the
/// `m`-th line opens, where every file opened behind it is closed again.
pub proof fn law_warnings_belong_to_their_file(
    ls: Seq<Seq<char>>,
    m: int,
    path: Seq<char>,
    k: int,
)
    requires
        0 <= m < k < ls.len(),
        opens(ls[m], path),
        forall|j: int| m + 1 <= j <= k ==> #[trigger] more_open(ls, m + 1, j) >= 0,
        more_open(ls, m + 1, k) == 0,
        warns(text::trim(ls[k])),
        !closes(ls[k]),
        forall|p: Seq<char>| !#[trigger] opens(ls[k], p),
    ensures
        ({
            let before = compiler::log_of(ls, k).warnings;
            let after = compiler::log_of(ls, k + 1).warnings;
            &&& after.len() == before.len() + 1
            &&& after.drop_last() == before
            &&& after.last().file == path
            &&& after.last().message == text::trim(ls[k])
            &&& after.last().severity == Severity::Warning
        }),
{
    lemma_opening(compiler::log_of(ls, m), ls[m]);
    lemma_still_open(ls, m + 1, k);
    let a = compiler::log_of(ls, m + 1).open;
    let b = compiler::log_of(ls, k).open;
    assert(a.last() == path);
    assert(b =~= a);
    let t = text::trim(ls[k]);
    if t.len() > 0 && t[0] == '(' && compiler::is_source(t.skip(1)) {
        assert(t =~= seq!['('] + t.skip(1));
        assert(opens(ls[k], t.skip(1)));
    }
    assert(compiler::log_of(ls, k + 1).warnings.drop_last() =~= compiler::log_of(ls, k).warnings);
}

/// A warning behind which no file is open has no file.
pub proof fn law_warnings_outside_files(ls: Seq<Seq<char>>, k: int)
    requires
        0 <= k < ls.len(),
        forall|j: int| 0 <= j <= k ==> #[trigger] more_open(ls, 0, j) >= 0,
        more_open(ls, 0, k) == 0,
        warns(text::trim(ls[k])),
        !closes(ls[k]),
        forall|p: Seq<char>| !#[trigger] opens(ls[k], p),
    ensures
        compiler::log_of(ls, k + 1).warnings.len() == compiler::log_of(ls, k).warnings.len() + 1,
        compiler::log_of(ls, k + 1).warnings.last().file.len() == 0,
{
    lemma_still_open(ls, 0, k);
    let t = text::trim(ls[k]);
    if t.len() > 0 && t[0] == '(' && compiler::is_source(t.skip(1)) {
        assert(t =~= seq!['('] + t.skip(1));
        assert(opens(ls[k], t.skip(1)));
    }
}

/// A line that says nothing of a warning brings none.
pub proof fn law_other_lines_are_no_warnings(ls: Seq<Seq<char>>, k: int)
    requires
        0 <= k < ls.len(),
        !warns(text::trim(ls[k])),
    ensures
        compiler::log_of(ls, k + 1).warnings == compiler::log_of(ls, k).warnings,
{
}

/// The kind of a warning is what the engine complains of, where it complains of one thing.
pub proof fn law_kinds_of_warnings(t: Seq<char>)
    ensures
        compiler::kind_of(t) is Some <==> warns(t),
        compiler::kind_of(t) == Some("underfull hbox"@) ==> text::contains(t, "Underfull \\hbox (badness"@),
        compiler::kind_of(t) == Some("underfull vbox"@) ==> text::contains(t, "Underfull \\vbox (badness"@),
        compiler::kind_of(t) == Some("overfull hbox"@) ==> text::contains(t, "Overfull \\hbox"@),
        compiler::kind_of(t) == Some("overfull vbox"@) ==> text::contains(t, "Overfull \\vbox"@),
        compiler::kind_of(t) == Some("latex warning"@) ==> text::contains(t, "LaTeX Warning:"@),
        compiler::kind_of(t) == Some("package warning"@) ==> text::starts_with(t, "Package "@),
{
    reveal_strlit("underfull hbox");
    reveal_strlit("underfull vbox");
    reveal_strlit("overfull hbox");
    reveal_strlit("overfull vbox");
    reveal_strlit("latex warning");
    reveal_strlit("package warning");
    assert("underfull hbox"@[10] == 'h' && "underfull vbox"@[10] == 'v');
    assert("overfull hbox"@[9] == 'h' && "overfull vbox"@[9] == 'v');
    assert("underfull hbox"@[0] == 'u' && "underfull vbox"@[0] == 'u');
    assert("overfull hbox"@[0] == 'o' && "overfull vbox"@[0] == 'o');
    assert("latex warning"@[0] == 'l' && "package warning"@[0] == 'p');
}

/// What stands before the line in a warning: on one input line, or on several lines of a
/// paragraph.
pub open spec fn line_mark(input: bool) -> Seq<char> {
    if input {
        "on input line "@
    } else {
        "at lines "@
    }
}

/// The line of a warning is the number behind `at lines`, or else behind `on input line`.
pub proof fn law_lines_of_warnings(t: Seq<char>, x: Seq<char>, input: bool, n: nat, y: Seq<char>)
    requires
        n <= usize::MAX,
        y.len() > 0 ==> !chars::is_digit(y[0]),
        t == x + line_mark(input) + number::decimal(n) + y,
        forall|j: int| 0 <= j < x.len() ==> !#[trigger] text::matches_at(t, j, line_mark(input)),
        input ==> !text::contains(t, line_mark(false)),
    ensures
        compiler::named_line(t) == n,
{
    let mark = line_mark(input);
    let d = number::decimal(n);
    let k = x.len() as int;
    assert(t.subrange(k, k + mark.len()) =~= mark);
    lemma_found(t, mark, 0, k);
    assert(t.skip(k + mark.len()) =~= d + y);
    number::law_value_of_decimal(n);
    number::law_parse_decimal(n, usize::MAX as int);
    lemma_digit_run(d, y);
    assert((d + y).take(d.len() as int) =~= d);
    if input {
        text::lemma_contains_find(t, "at lines "@);
    }
}

// ---------------------------------------------------------------------------
// The report on warnings
// ---------------------------------------------------------------------------

/// The place of a warning: its file, and its line where it has one.
pub open spec fn place(w: WarningView) -> Seq<char> {
    if w.line == 0 {
        w.file
    } else {
        w.file + seq![':'] + number::decimal(w.line)
    }
}

/// A warning in the full report.
pub open spec fn told(w: WarningView) -> Seq<char> {
    seq!['['] + place(w) + seq![']', ' '] + w.kind + seq![':', ' '] + w.message + seq!['\n']
}

proof fn lemma_warning_lines(ws: Seq<WarningView>, k: int, i: int)
    requires
        0 <= i < k <= ws.len(),
    ensures
        exists|x: Seq<char>, y: Seq<char>|
            compiler::warning_lines(ws, k) == #[trigger] (x + told(ws[i]) + y),
    decreases k,
{
    let before = compiler::warning_lines(ws, k - 1);
    if i < k - 1 {
        lemma_warning_lines(ws, k - 1, i);
        let (x, y) = choose|x: Seq<char>, y: Seq<char>|
            before == #[trigger] (x + told(ws[i]) + y);
        let z = y + compiler::warning_line(ws[k - 1]);
        assert(compiler::warning_lines(ws, k) =~= x + told(ws[i]) + z);
    } else {
        reveal_strlit("[");
        reveal_strlit("]");
        reveal_strlit(":");
        reveal_strlit(": ");
        reveal_strlit(" ");
        reveal_strlit("\n");
        assert("["@ =~= seq!['[']);
        assert("]"@ =~= seq![']']);
        assert(":"@ =~= seq![':']);
        assert(": "@ =~= seq![':', ' ']);
        assert(" "@ =~= seq![' ']);
        assert("\n"@ =~= seq!['\n']);
        let w = ws[i];
        let x = "  "@ + w.severity.name() + " "@;
        assert(compiler::warning_line(w) =~= x + told(w));
        assert(compiler::warning_lines(ws, k) =~= (before + x) + told(w) + Seq::<char>::empty());
    }
}

/// The full report names every warning, with its place, its kind and its message.
pub proof fn law_every_warning_is_listed(ws: Seq<WarningView>, i: int)
    requires
        0 <= i < ws.len(),
    ensures
        exists|x: Seq<char>, y: Seq<char>|
            compiler::warnings_text(ws, true) == #[trigger] (x + told(ws[i]) + y),
{
    lemma_warning_lines(ws, ws.len() as int, i);
    let (x, y) = choose|x: Seq<char>, y: Seq<char>|
        compiler::warning_lines(ws, ws.len() as int) == #[trigger] (x + told(ws[i]) + y);
    let head = "WARNINGS ("@ + number::decimal(ws.len()) + ")\n"@;
    assert(compiler::warnings_text(ws, true) =~= (head + x) + told(ws[i]) + y);
}

/// The file of a warning, or that it is not known.
pub open spec fn named_file(w: WarningView) -> Seq<char> {
    if w.file.len() == 0 {
        "(unknown)"@
    } else {
        w.file
    }
}

/// How many of the first `n` warnings are of a kind and in a file, the file as the summary
/// names it.
pub open spec fn how_many(ws: Seq<WarningView>, file: Seq<char>, kind: Seq<char>, n: int) -> nat
    decreases n,
{
    if n <= 0 {
        0
    } else {
        how_many(ws, file, kind, n - 1) + if ws[n - 1].kind == kind && named_file(
            ws[n - 1],
        ) == file {
            1nat
        } else {
            0nat
        }
    }
}

proof fn lemma_how_many(ws: Seq<WarningView>, file: Seq<char>, kind: Seq<char>, n: int)
    requires
        0 <= n <= ws.len(),
        file.len() > 0,
    ensures
        ({
            let kinds = compiler::kinds_of(ws, file, n);
            &&& compiler::times(kinds, kind, kinds.len() as int) == how_many(ws, file, kind, n)
            &&& how_many(ws, file, kind, n) > 0 ==> kinds.contains(kind)
        }),
    decreases n,
{
    if n > 0 {
        lemma_how_many(ws, file, kind, n - 1);
        let a = compiler::kinds_of(ws, file, n - 1);
        let b = compiler::kinds_of(ws, file, n);
        if compiler::file_label(ws[n - 1]) == file {
            lemma_times_prefix(a, ws[n - 1].kind, kind, a.len() as int);
            assert(b[b.len() - 1] == ws[n - 1].kind);
            if a.contains(kind) {
                let j = choose|j: int| 0 <= j < a.len() && a[j] == kind;
                assert(b[j] == kind);
            }
        }
    }
}

proof fn lemma_times_prefix(a: Seq<Seq<char>>, x: Seq<char>, kind: Seq<char>, k: int)
    requires
        0 <= k <= a.len(),
    ensures
        compiler::times(a.push(x), kind, k) == compiler::times(a, kind, k),
    decreases k,
{
    if k > 0 {
        lemma_times_prefix(a, x, kind, k - 1);
        assert(a.push(x)[k - 1] == a[k - 1]);
    }
}

pub proof fn lemma_joined_part(parts: Seq<Seq<char>>, sep: Seq<char>, i: int)
    requires
        0 <= i < parts.len(),
    ensures
        exists|x: Seq<char>, y: Seq<char>|
            text::join(parts, sep) == #[trigger] (x + parts[i] + y),
    decreases parts.len(),
{
    let none = Seq::<char>::empty();
    let n = parts.len() - 1;
    if n == 0 {
        assert(text::join(parts, sep) =~= none + parts[i] + none);
    } else if i < n {
        let front = parts.drop_last();
        lemma_joined_part(front, sep, i);
        assert(front[i] == parts[i]);
        let (x, y) = choose|x: Seq<char>, y: Seq<char>|
            text::join(front, sep) == #[trigger] (x + parts[i] + y);
        let z = y + sep + parts.last();
        assert(text::join(parts, sep) =~= x + parts[i] + z);
    } else {
        let x = text::join(parts.drop_last(), sep) + sep;
        assert(text::join(parts, sep) =~= x + parts[i] + none);
    }
}

proof fn lemma_listed(s: Seq<Seq<char>>, w: Seq<char>)
    requires
        s.contains(w),
    ensures
        wordset::sorted_distinct(s).contains(w),
{
    broadcast use vstd::seq_lib::group_to_multiset_ensures;

    let d = wordset::distinct(s);
    wordset::lemma_distinct(s);
    order::law_sorted(d);
    assert(d.contains(w));
    assert(d.to_multiset().count(w) > 0);
    assert(order::sorted(d).to_multiset().count(w) > 0);
}

proof fn lemma_summary_lines(ws: Seq<WarningView>, files: Seq<Seq<char>>, k: int, i: int)
    requires
        0 <= i < k <= files.len(),
    ensures
        exists|x: Seq<char>, y: Seq<char>|
            compiler::summary_lines(ws, files, k) == #[trigger] (x + compiler::summary_line(
                ws,
                files[i],
            ) + y),
    decreases k,
{
    let before = compiler::summary_lines(ws, files, k - 1);
    let own = compiler::summary_line(ws, files[i]);
    if i < k - 1 {
        lemma_summary_lines(ws, files, k - 1, i);
        let (x, y) = choose|x: Seq<char>, y: Seq<char>| before == #[trigger] (x + own + y);
        let z = y + compiler::summary_line(ws, files[k - 1]);
        assert(compiler::summary_lines(ws, files, k) =~= x + own + z);
    } else {
        assert(compiler::summary_lines(ws, files, k) =~= before + own + Seq::<char>::empty());
    }
}

/// The line of a file in the summary: its name, and among the counts behind it that of one
/// kind.
pub open spec fn counted_line(
    file: Seq<char>,
    u: Seq<char>,
    n: nat,
    kind: Seq<char>,
    v: Seq<char>,
) -> Seq<char> {
    file + seq![':', ' '] + u + number::decimal(n) + seq![' '] + kind + v + seq!['\n']
}

/// The summary names every file with warnings, and with it how many of each kind it has.
pub proof fn law_warnings_are_counted_by_file(ws: Seq<WarningView>, i: int)
    requires
        0 <= i < ws.len(),
    ensures
        ({
            let file = named_file(ws[i]);
            let n = how_many(ws, file, ws[i].kind, ws.len() as int);
            &&& n > 0
            &&& exists|x: Seq<char>, u: Seq<char>, v: Seq<char>, y: Seq<char>|
                compiler::warnings_text(ws, false) == #[trigger] (x + counted_line(
                    file,
                    u,
                    n,
                    ws[i].kind,
                    v,
                ) + y)
        }),
{
    reveal_strlit("(unknown)");
    let file = named_file(ws[i]);
    let kind = ws[i].kind;
    let all = ws.len() as int;
    let n = how_many(ws, file, kind, all);
    lemma_how_many(ws, file, kind, all);
    lemma_counts_up(ws, file, kind, i, all);
    let kinds = compiler::kinds_of(ws, file, all);
    lemma_listed(kinds, kind);
    let names = wordset::sorted_distinct(kinds);
    let j = choose|j: int| 0 <= j < names.len() && names[j] == kind;
    let counts = compiler::kind_counts(kinds);
    lemma_joined_part(counts, ", "@, j);
    reveal_strlit(" ");
    reveal_strlit(": ");
    reveal_strlit("\n");
    assert(": "@ =~= seq![':', ' ']);
    assert(" "@ =~= seq![' ']);
    assert("\n"@ =~= seq!['\n']);
    assert(counts[j] =~= number::decimal(n) + " "@ + kind);
    let (u, v) = choose|u: Seq<char>, v: Seq<char>|
        text::join(counts, ", "@) == #[trigger] (u + counts[j] + v);
    let own = compiler::summary_line(ws, file);
    assert(own =~= "  "@ + counted_line(file, u, n, kind, v));
    let labels = compiler::file_labels(ws);
    assert(labels[i] == file);
    lemma_listed(labels, file);
    let files = wordset::sorted_distinct(labels);
    let f = choose|f: int| 0 <= f < files.len() && files[f] == file;
    lemma_summary_lines(ws, files, files.len() as int, f);
    let (x, y) = choose|x: Seq<char>, y: Seq<char>|
        compiler::summary_lines(ws, files, files.len() as int) == #[trigger] (x + own + y);
    let head = "WARNINGS ("@ + number::decimal(ws.len()) + ")\n"@;
    let front = head + x + "  "@;
    assert(compiler::warnings_text(ws, false) =~= front + counted_line(file, u, n, kind, v) + y);
}

proof fn lemma_counts_up(ws: Seq<WarningView>, file: Seq<char>, kind: Seq<char>, i: int, n: int)
    requires
        0 <= i < n <= ws.len(),
        named_file(ws[i]) == file,
        ws[i].kind == kind,
    ensures
        how_many(ws, file, kind, n) > 0,
    decreases n,
{
    if i < n - 1 {
        lemma_counts_up(ws, file, kind, i, n - 1);
    }
}

} // verus!
