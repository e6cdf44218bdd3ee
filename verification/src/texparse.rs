//! A context-aware, single-pass LaTeX tokenizer.
//!
//! [`tokenize`] turns a LaTeX source into a flat stream of [`Token`]s that answers the
//! one question every text feature shares: what is prose and what is not.
//!
//! * Prose appears as [`Token::Text`]. Text inside math regions, verbatim regions and
//!   comments is never emitted.
//! * [`Token::Command`] carries only the arguments that are not prose. The arguments of
//!   `\textit`, `\textbf`, `\emph`, `\footnote` and `\caption`, and the link text of
//!   `\href`, are tokenized in place, right after their command.
//! * The columns that a table declares belong to the table and are no prose.
//! * Everything before [`Token::BeginDocument`] is the preamble.
//! * Every source yields tokens: unbalanced braces, an unterminated environment or a
//!   stray backslash do not stop the scan.
//! * Comments are recognized outside command arguments; a `%` inside the argument of a
//!   command is kept as literal text.

use vstd::prelude::*;

use crate::chars;
use crate::position;
use crate::text::{self, chars_of, string_of};
use crate::texutil::{self, Source, SourceFile, SourceView, TraversalView};

verus! {

/// A single token.
#[derive(Debug, Clone, PartialEq, Eq)]
pub enum Token {
    /// Prose outside math, verbatim and comment regions.
    Text(String),
    /// A command, without its backslash, and its arguments that are not prose. The name
    /// of a control symbol is its character.
    Command { name: String, args: Vec<String> },
    /// A sectioning command: part is 0, chapter 1, section 2, subsection 3,
    /// subsubsection 4, paragraph 5 and subparagraph 6.
    Section { level: u8, title: String },
    /// Beginning of a math region.
    BeginMath,
    /// End of a math region.
    EndMath,
    /// Beginning of a verbatim region.
    BeginVerbatim { env: String },
    /// End of a verbatim region.
    EndVerbatim { env: String },
    /// A comment, from its `%` to the end of the line.
    Comment(String),
    /// `\begin{document}`.
    BeginDocument,
    /// `\end{document}`.
    EndDocument,
    /// `\begin` or `\end` of any other environment.
    Environment { name: String },
}

/// What a [`Token`] says.
pub enum TokenView {
    Text(Seq<char>),
    Command { name: Seq<char>, args: Seq<Seq<char>> },
    Section { level: u8, title: Seq<char> },
    BeginMath,
    EndMath,
    BeginVerbatim { env: Seq<char> },
    EndVerbatim { env: Seq<char> },
    Comment(Seq<char>),
    BeginDocument,
    EndDocument,
    Environment { name: Seq<char> },
}

impl View for Token {
    type V = TokenView;

    open spec fn view(&self) -> TokenView {
        match self {
            Token::Text(t) => TokenView::Text(t@),
            Token::Command { name, args } => TokenView::Command {
                name: name@,
                args: text::texts(args@),
            },
            Token::Section { level, title } => TokenView::Section { level: *level, title: title@ },
            Token::BeginMath => TokenView::BeginMath,
            Token::EndMath => TokenView::EndMath,
            Token::BeginVerbatim { env } => TokenView::BeginVerbatim { env: env@ },
            Token::EndVerbatim { env } => TokenView::EndVerbatim { env: env@ },
            Token::Comment(t) => TokenView::Comment(t@),
            Token::BeginDocument => TokenView::BeginDocument,
            Token::EndDocument => TokenView::EndDocument,
            Token::Environment { name } => TokenView::Environment { name: name@ },
        }
    }
}

/// A token and the byte at which the construct it comes from begins.
#[derive(Debug, Clone, PartialEq, Eq)]
pub struct SpannedToken {
    pub token: Token,
    pub start: usize,
}

/// What a [`SpannedToken`] says.
pub struct SpannedView {
    pub token: TokenView,
    pub start: int,
}

impl View for SpannedToken {
    type V = SpannedView;

    open spec fn view(&self) -> SpannedView {
        SpannedView { token: self.token@, start: self.start as int }
    }
}

/// What a sequence of tokens says.
pub open spec fn token_views(v: Seq<Token>) -> Seq<TokenView> {
    Seq::new(v.len(), |k: int| v[k]@)
}

/// What a sequence of tokens with positions says.
pub open spec fn spanned_views(v: Seq<SpannedToken>) -> Seq<SpannedView> {
    Seq::new(v.len(), |k: int| v[k]@)
}

/// Positions as integers.
pub open spec fn offsets(v: Seq<usize>) -> Seq<int> {
    Seq::new(v.len(), |k: int| v[k] as int)
}

/// The result of scanning a source: its tokens, and where a `$` or `$$` opens a math
/// region that is never closed.
pub struct TokenizedSource {
    pub tokens: Vec<SpannedToken>,
    pub unclosed_math: Vec<usize>,
}

/// What a [`TokenizedSource`] says.
#[verifier::ext_equal]
pub struct Scan {
    pub tokens: Seq<SpannedView>,
    pub unclosed: Seq<int>,
}

impl View for TokenizedSource {
    type V = Scan;

    open spec fn view(&self) -> Scan {
        Scan { tokens: spanned_views(self.tokens@), unclosed: offsets(self.unclosed_math@) }
    }
}

// ---------------------------------------------------------------------------
// Groups and arguments
// ---------------------------------------------------------------------------

/// A character of a command name.
pub open spec fn is_command_char(c: char) -> bool {
    chars::is_ascii_letter(c) || c == '@'
}

/// The end of the command name at `i`.
pub open spec fn name_end(s: Seq<char>, i: int) -> int
    decreases s.len() - i,
{
    if 0 <= i < s.len() && is_command_char(s[i]) {
        name_end(s, i + 1)
    } else {
        i
    }
}

/// Where the group that is open at `j` with nesting `depth` closes; the length of the
/// source where it does not. A character after a backslash does not count.
pub open spec fn group_stop(s: Seq<char>, j: int, depth: nat, open: char, close: char) -> int
    decreases s.len() + 1 - j,
{
    if j < 0 || j >= s.len() {
        s.len() as int
    } else if s[j] == '\\' {
        group_stop(s, j + 2, depth, open, close)
    } else if s[j] == open {
        group_stop(s, j + 1, depth + 1, open, close)
    } else if s[j] == close {
        if depth <= 1 {
            j
        } else {
            group_stop(s, j + 1, (depth - 1) as nat, open, close)
        }
    } else {
        group_stop(s, j + 1, depth, open, close)
    }
}

/// A group: its content stands from `from` to `stop`, and `end` is behind it.
pub struct Group {
    pub from: int,
    pub stop: int,
    pub end: int,
}

impl Group {
    /// The raw content of the group.
    pub open spec fn content(self, s: Seq<char>) -> Seq<char> {
        s.subrange(self.from, self.stop)
    }
}

/// The group between `open` and `close` that begins at `i`.
pub open spec fn group_at(s: Seq<char>, i: int, open: char, close: char) -> Option<Group> {
    if 0 <= i < s.len() && s[i] == open {
        let stop = group_stop(s, i + 1, 1, open, close);
        Some(
            Group {
                from: i + 1,
                stop,
                end: if stop < s.len() {
                    stop + 1
                } else {
                    stop
                },
            },
        )
    } else {
        None
    }
}

/// The `{...}` group at `i`.
pub open spec fn braced(s: Seq<char>, i: int) -> Option<Group> {
    group_at(s, i, '{', '}')
}

/// The `[...]` group at `i`.
pub open spec fn bracketed(s: Seq<char>, i: int) -> Option<Group> {
    group_at(s, i, '[', ']')
}

/// The content of the `{...}` group at `i`, empty where there is none.
pub open spec fn braced_or_empty(s: Seq<char>, i: int) -> Seq<char> {
    match braced(s, i) {
        Some(g) => g.content(s),
        None => Seq::empty(),
    }
}

/// The position behind the `{...}` group at `i`, `i` where there is none.
pub open spec fn after_braced(s: Seq<char>, i: int) -> int {
    match braced(s, i) {
        Some(g) => g.end,
        None => i,
    }
}

/// The position behind the `[...]` group at `i`, `i` where there is none.
pub open spec fn after_bracketed(s: Seq<char>, i: int) -> int {
    match bracketed(s, i) {
        Some(g) => g.end,
        None => i,
    }
}

pub proof fn lemma_group_stop(s: Seq<char>, j: int, depth: nat, open: char, close: char)
    requires
        0 <= j,
    ensures
        group_stop(s, j, depth, open, close) <= s.len(),
        j <= s.len() ==> j <= group_stop(s, j, depth, open, close),
    decreases s.len() + 1 - j,
{
    if j < s.len() {
        if s[j] == '\\' {
            lemma_group_stop(s, j + 2, depth, open, close);
        } else if s[j] == open {
            lemma_group_stop(s, j + 1, depth + 1, open, close);
        } else if s[j] == close {
            if depth > 1 {
                lemma_group_stop(s, j + 1, (depth - 1) as nat, open, close);
            }
        } else {
            lemma_group_stop(s, j + 1, depth, open, close);
        }
    }
}

pub proof fn lemma_group_at(s: Seq<char>, i: int, open: char, close: char)
    requires
        0 <= i,
    ensures
        match group_at(s, i, open, close) {
            Some(g) => i < s.len() && g.from == i + 1 && g.from <= g.stop <= g.end <= s.len(),
            None => true,
        },
{
    if i < s.len() {
        lemma_group_stop(s, i + 1, 1, open, close);
    }
}

pub proof fn lemma_name_end(s: Seq<char>, i: int)
    requires
        0 <= i <= s.len(),
    ensures
        i <= name_end(s, i) <= s.len(),
    decreases s.len() - i,
{
    if i < s.len() && is_command_char(s[i]) {
        lemma_name_end(s, i + 1);
    }
}

/// The contents of the `[...]` groups at `i`.
pub open spec fn options(s: Seq<char>, i: int) -> Seq<Seq<char>>
    decreases s.len() - i,
    via options_decreases
{
    match bracketed(s, i) {
        Some(g) => seq![g.content(s)] + options(s, g.end),
        None => Seq::empty(),
    }
}

#[via_fn]
proof fn options_decreases(s: Seq<char>, i: int) {
    if 0 <= i {
        lemma_group_at(s, i, '[', ']');
    }
}

/// The position behind the `[...]` groups at `i`.
pub open spec fn after_options(s: Seq<char>, i: int) -> int
    decreases s.len() - i,
    via after_options_decreases
{
    match bracketed(s, i) {
        Some(g) => after_options(s, g.end),
        None => i,
    }
}

#[via_fn]
proof fn after_options_decreases(s: Seq<char>, i: int) {
    if 0 <= i {
        lemma_group_at(s, i, '[', ']');
    }
}

/// The `[...]` or `{...}` group at `i`.
pub open spec fn argument(s: Seq<char>, i: int) -> Option<Group> {
    match bracketed(s, i) {
        Some(g) => Some(g),
        None => braced(s, i),
    }
}

/// The contents of the `[...]` and `{...}` groups at `i`.
pub open spec fn arguments(s: Seq<char>, i: int) -> Seq<Seq<char>>
    decreases s.len() - i,
    via arguments_decreases
{
    match argument(s, i) {
        Some(g) => seq![g.content(s)] + arguments(s, g.end),
        None => Seq::empty(),
    }
}

#[via_fn]
proof fn arguments_decreases(s: Seq<char>, i: int) {
    if 0 <= i {
        lemma_group_at(s, i, '[', ']');
        lemma_group_at(s, i, '{', '}');
    }
}

/// The position behind the `[...]` and `{...}` groups at `i`.
pub open spec fn after_arguments(s: Seq<char>, i: int) -> int
    decreases s.len() - i,
    via after_arguments_decreases
{
    match argument(s, i) {
        Some(g) => after_arguments(s, g.end),
        None => i,
    }
}

#[via_fn]
proof fn after_arguments_decreases(s: Seq<char>, i: int) {
    if 0 <= i {
        lemma_group_at(s, i, '[', ']');
        lemma_group_at(s, i, '{', '}');
    }
}

pub proof fn lemma_after_options(s: Seq<char>, i: int)
    requires
        0 <= i <= s.len(),
    ensures
        i <= after_options(s, i) <= s.len(),
    decreases s.len() - i,
{
    lemma_group_at(s, i, '[', ']');
    if let Some(g) = bracketed(s, i) {
        lemma_after_options(s, g.end);
    }
}

pub proof fn lemma_after_arguments(s: Seq<char>, i: int)
    requires
        0 <= i <= s.len(),
    ensures
        i <= after_arguments(s, i) <= s.len(),
    decreases s.len() - i,
{
    lemma_group_at(s, i, '[', ']');
    lemma_group_at(s, i, '{', '}');
    if let Some(g) = argument(s, i) {
        lemma_after_arguments(s, g.end);
    }
}

// ---------------------------------------------------------------------------
// Constructs
// ---------------------------------------------------------------------------

/// A construct of the source: its tokens, where its prose argument stands, whether it
/// opens a math region that is never closed, and the position behind it.
pub struct Construct {
    pub tokens: Seq<TokenView>,
    pub prose: Option<(int, int)>,
    pub unclosed: bool,
    pub end: int,
}

/// A construct that is nothing but its tokens.
pub open spec fn simple(tokens: Seq<TokenView>, end: int) -> Construct {
    Construct { tokens, prose: None, unclosed: false, end }
}

/// The position behind the first occurrence of `p` from `j` on, or the end.
pub open spec fn past(s: Seq<char>, p: Seq<char>, j: int) -> int {
    match text::find_from(s, p, j) {
        Some(k) => k + p.len(),
        None => s.len() as int,
    }
}

/// The first `$` from `j` on that an even number of backslashes precedes; `odd` says
/// whether an odd number of backslashes stands right before `j`.
pub open spec fn inline_close(s: Seq<char>, j: int, odd: bool) -> Option<int>
    decreases s.len() - j,
{
    if j < 0 || j >= s.len() {
        None
    } else if s[j] == '\\' {
        inline_close(s, j + 1, !odd)
    } else if s[j] == '$' && !odd {
        Some(j)
    } else {
        inline_close(s, j + 1, false)
    }
}

/// The math region that a `$` opens at `i`.
pub open spec fn dollar(s: Seq<char>, i: int) -> Construct {
    let region = seq![TokenView::BeginMath, TokenView::EndMath];
    if i + 1 < s.len() && s[i + 1] == '$' {
        Construct {
            tokens: region,
            prose: None,
            unclosed: text::find_from(s, "$$"@, i + 2) is None,
            end: past(s, "$$"@, i + 2),
        }
    } else {
        match inline_close(s, i + 1, false) {
            Some(k) => simple(region, k + 1),
            None => Construct {
                tokens: region,
                prose: None,
                unclosed: true,
                end: s.len() as int,
            },
        }
    }
}

/// The comment at `i`.
pub open spec fn comment(s: Seq<char>, i: int) -> Construct {
    let end = match text::find_char_from(s, '\n', i) {
        Some(k) => k,
        None => s.len() as int,
    };
    simple(seq![TokenView::Comment(s.subrange(i, end))], end)
}

/// Whether an environment is a math environment, starred or not.
pub open spec fn is_math_environment(env: Seq<char>) -> bool {
    let e = if env.len() > 0 && env.last() == '*' {
        env.drop_last()
    } else {
        env
    };
    ||| e == "equation"@
    ||| e == "align"@
    ||| e == "gather"@
    ||| e == "multline"@
    ||| e == "flalign"@
    ||| e == "eqnarray"@
    ||| e == "displaymath"@
}

/// Whether an environment is a verbatim environment.
pub open spec fn is_verbatim_environment(env: Seq<char>) -> bool {
    ||| env == "verbatim"@
    ||| env == "Verbatim"@
    ||| env == "lstlisting"@
    ||| env == "minted"@
}

/// Whether an environment is a table, in which `&` separates columns.
pub open spec fn is_table(name: Seq<char>) -> bool {
    ||| name == "tabular"@
    ||| name == "tabular*"@
    ||| name == "tabularx"@
    ||| name == "longtable"@
    ||| name == "supertabular"@
    ||| name == "array"@
}

/// The position behind the columns that a table declares at `i`; a width may come first.
pub open spec fn after_columns(s: Seq<char>, env: Seq<char>, i: int) -> int {
    if env == "tabular*"@ || env == "tabularx"@ {
        after_braced(s, after_bracketed(s, after_braced(s, i)))
    } else {
        after_braced(s, i)
    }
}

/// Whether the braced argument of a command is prose.
pub open spec fn is_prose_command(name: Seq<char>) -> bool {
    ||| name == "textit"@
    ||| name == "textbf"@
    ||| name == "emph"@
    ||| name == "footnote"@
    ||| name == "caption"@
}

/// The level of a sectioning command; trailing stars are ignored.
pub open spec fn level_of(name: Seq<char>) -> Option<u8> {
    let n = text::trim_end_char(name, '*');
    if n == "part"@ {
        Some(0)
    } else if n == "chapter"@ {
        Some(1)
    } else if n == "section"@ {
        Some(2)
    } else if n == "subsection"@ {
        Some(3)
    } else if n == "subsubsection"@ {
        Some(4)
    } else if n == "paragraph"@ {
        Some(5)
    } else if n == "subparagraph"@ {
        Some(6)
    } else {
        None
    }
}

/// `\end{env}`.
pub open spec fn terminator(env: Seq<char>) -> Seq<char> {
    "\\end{"@ + env + "}"@
}

/// `\begin` whose name ends at `e`.
pub open spec fn begin(s: Seq<char>, e: int) -> Construct {
    let env = braced_or_empty(s, e);
    let body = after_bracketed(s, after_braced(s, e));
    if env == "document"@ {
        simple(seq![TokenView::BeginDocument], body)
    } else if is_math_environment(env) {
        simple(
            seq![TokenView::BeginMath, TokenView::EndMath],
            past(s, terminator(env), body),
        )
    } else if is_verbatim_environment(env) {
        simple(
            seq![TokenView::BeginVerbatim { env }, TokenView::EndVerbatim { env }],
            past(s, terminator(env), body),
        )
    } else if is_table(env) {
        simple(seq![TokenView::Environment { name: env }], after_columns(s, env, body))
    } else {
        simple(seq![TokenView::Environment { name: env }], body)
    }
}

/// `\end` whose name ends at `e`.
pub open spec fn end(s: Seq<char>, e: int) -> Construct {
    let env = braced_or_empty(s, e);
    let token = if env == "document"@ {
        TokenView::EndDocument
    } else if is_math_environment(env) {
        TokenView::EndMath
    } else if is_verbatim_environment(env) {
        TokenView::EndVerbatim { env }
    } else {
        TokenView::Environment { name: env }
    };
    simple(seq![token], after_braced(s, e))
}

/// The position behind a `*` at `i`, `i` where there is none.
pub open spec fn after_star(s: Seq<char>, i: int) -> int {
    if 0 <= i < s.len() && s[i] == '*' {
        i + 1
    } else {
        i
    }
}

/// A sectioning command of the given level whose name ends at `e`.
pub open spec fn section(s: Seq<char>, e: int, level: u8) -> Construct {
    let at = after_bracketed(s, after_star(s, e));
    simple(
        seq![TokenView::Section { level, title: braced_or_empty(s, at) }],
        after_braced(s, at),
    )
}

/// Where the content of an inline verbatim command ends whose delimiter stands at `d`:
/// the brace that closes an opening brace, the next occurrence of any other delimiter.
pub open spec fn inline_verbatim_end(s: Seq<char>, d: int) -> int {
    if d < 0 || d >= s.len() {
        s.len() as int
    } else if s[d] == '{' {
        after_braced(s, d)
    } else {
        match text::find_char_from(s, s[d], d + 1) {
            Some(k) => k + 1,
            None => s.len() as int,
        }
    }
}

/// `\verb` or `\lstinline` whose name ends at `e`: the content between the delimiters
/// is no prose.
pub open spec fn inline_verbatim(s: Seq<char>, name: Seq<char>, e: int) -> Construct {
    let d = if name == "verb"@ {
        after_star(s, e)
    } else {
        after_bracketed(s, e)
    };
    simple(
        seq![TokenView::BeginVerbatim { env: name }, TokenView::EndVerbatim { env: name }],
        inline_verbatim_end(s, d),
    )
}

/// A command with the given arguments whose prose stands in the braced group at `at`.
pub open spec fn with_prose(
    s: Seq<char>,
    name: Seq<char>,
    args: Seq<Seq<char>>,
    at: int,
) -> Construct {
    Construct {
        tokens: seq![TokenView::Command { name, args }],
        prose: match braced(s, at) {
            Some(g) => Some((g.from, g.stop)),
            None => None,
        },
        unclosed: false,
        end: after_braced(s, at),
    }
}

/// `\href{url}{text}` whose name ends at `e`.
pub open spec fn href(s: Seq<char>, e: int) -> Construct {
    let url = after_options(s, e);
    let args = match braced(s, url) {
        Some(g) => options(s, e).push(g.content(s)),
        None => options(s, e),
    };
    with_prose(s, "href"@, args, after_braced(s, url))
}

/// A command whose name ends at `e`.
pub open spec fn command(s: Seq<char>, name: Seq<char>, e: int) -> Construct {
    if name == "begin"@ {
        begin(s, e)
    } else if name == "end"@ {
        end(s, e)
    } else if level_of(name) is Some {
        section(s, e, level_of(name)->0)
    } else if name == "verb"@ || name == "lstinline"@ {
        inline_verbatim(s, name, e)
    } else if name == "href"@ {
        href(s, e)
    } else if is_prose_command(name) {
        with_prose(s, name, options(s, e), after_options(s, e))
    } else {
        simple(
            seq![TokenView::Command { name, args: arguments(s, e) }],
            after_arguments(s, e),
        )
    }
}

/// The construct that a backslash begins at `i`.
pub open spec fn backslash(s: Seq<char>, i: int) -> Construct {
    if i + 1 >= s.len() {
        simple(seq![TokenView::Command { name: seq!['\\'], args: Seq::empty() }], i + 1)
    } else if s[i + 1] == '[' {
        simple(seq![TokenView::BeginMath, TokenView::EndMath], past(s, "\\]"@, i + 2))
    } else if s[i + 1] == '(' {
        simple(seq![TokenView::BeginMath, TokenView::EndMath], past(s, "\\)"@, i + 2))
    } else if s[i + 1] == ']' || s[i + 1] == ')' {
        simple(seq![TokenView::EndMath], i + 2)
    } else if is_command_char(s[i + 1]) {
        let e = name_end(s, i + 1);
        command(s, s.subrange(i + 1, e), e)
    } else {
        simple(seq![TokenView::Command { name: seq![s[i + 1]], args: Seq::empty() }], i + 2)
    }
}

/// Whether a character begins a construct.
pub open spec fn is_special(c: char) -> bool {
    c == '%' || c == '\\' || c == '$'
}

/// The construct at `i`.
pub open spec fn construct(s: Seq<char>, i: int) -> Construct {
    if s[i] == '%' {
        comment(s, i)
    } else if s[i] == '$' {
        dollar(s, i)
    } else {
        backslash(s, i)
    }
}

/// The end of the plain text at `i`.
pub open spec fn plain_end(s: Seq<char>, i: int) -> int
    decreases s.len() - i,
{
    if 0 <= i < s.len() && !is_special(s[i]) {
        plain_end(s, i + 1)
    } else {
        i
    }
}

/// Tokens with the position they share.
pub open spec fn at(tokens: Seq<TokenView>, start: int) -> Seq<SpannedView> {
    Seq::new(tokens.len(), |k: int| SpannedView { token: tokens[k], start })
}

/// The scans of two stretches of a source, one after the other.
pub open spec fn then_scan(a: Scan, b: Scan) -> Scan {
    Scan { tokens: a.tokens + b.tokens, unclosed: a.unclosed + b.unclosed }
}

/// The scan of nothing.
pub open spec fn no_scan() -> Scan {
    Scan { tokens: Seq::empty(), unclosed: Seq::empty() }
}

/// The scan of the source from `i` on, where position 0 stands at `base`.
pub open spec fn scan(s: Seq<char>, i: int, base: int) -> Scan
    decreases s.len(), s.len() - i,
    via scan_decreases
{
    if i < 0 || i >= s.len() {
        no_scan()
    } else if !is_special(s[i]) {
        let e = plain_end(s, i);
        then_scan(
            Scan {
                tokens: seq![
                    SpannedView { token: TokenView::Text(s.subrange(i, e)), start: base + i },
                ],
                unclosed: Seq::empty(),
            },
            scan(s, e, base),
        )
    } else {
        let c = construct(s, i);
        let head = Scan {
            tokens: at(c.tokens, base + i),
            unclosed: if c.unclosed {
                seq![base + i]
            } else {
                Seq::empty()
            },
        };
        let inner = match c.prose {
            Some((a, b)) => scan(s.subrange(a, b), 0, base + a),
            None => no_scan(),
        };
        then_scan(then_scan(head, inner), scan(s, c.end, base))
    }
}

#[via_fn]
proof fn scan_decreases(s: Seq<char>, i: int, base: int) {
    if 0 <= i < s.len() {
        if !is_special(s[i]) {
            lemma_plain_end(s, i + 1);
        } else {
            lemma_construct(s, i);
        }
    }
}

/// A scan with the bytes at which the characters at its positions begin.
pub open spec fn in_bytes(s: Seq<char>, c: Scan) -> Scan {
    Scan {
        tokens: Seq::new(
            c.tokens.len(),
            |k: int|
                SpannedView {
                    token: c.tokens[k].token,
                    start: position::byte_at(s, c.tokens[k].start),
                },
        ),
        unclosed: Seq::new(c.unclosed.len(), |k: int| position::byte_at(s, c.unclosed[k])),
    }
}

/// The scan of a whole source, with positions in bytes.
pub open spec fn scan_source(s: Seq<char>) -> Scan {
    in_bytes(s, scan(s, 0, 0))
}

/// The tokens of a source.
pub open spec fn tokens_of(s: Seq<char>) -> Seq<TokenView> {
    let t = scan_source(s).tokens;
    Seq::new(t.len(), |k: int| t[k].token)
}

pub proof fn lemma_plain_end(s: Seq<char>, i: int)
    requires
        0 <= i <= s.len(),
    ensures
        i <= plain_end(s, i) <= s.len(),
        forall|k: int| i <= k < plain_end(s, i) ==> !is_special(s[k]),
    decreases s.len() - i,
{
    if i < s.len() && !is_special(s[i]) {
        lemma_plain_end(s, i + 1);
    }
}

pub proof fn lemma_inline_close(s: Seq<char>, j: int, odd: bool)
    requires
        0 <= j,
    ensures
        match inline_close(s, j, odd) {
            Some(k) => j <= k < s.len() && s[k] == '$',
            None => true,
        },
    decreases s.len() - j,
{
    if j < s.len() {
        if s[j] == '\\' {
            lemma_inline_close(s, j + 1, !odd);
        } else if s[j] == '$' && !odd {
        } else {
            lemma_inline_close(s, j + 1, false);
        }
    }
}

pub proof fn lemma_past(s: Seq<char>, p: Seq<char>, j: int)
    requires
        0 <= j <= s.len(),
    ensures
        j <= past(s, p, j) <= s.len(),
{
    text::lemma_find_bounds(s, p, j);
}

proof fn lemma_command(s: Seq<char>, name: Seq<char>, e: int)
    requires
        0 <= e <= s.len(),
    ensures
        e <= command(s, name, e).end <= s.len(),
        match command(s, name, e).prose {
            Some((a, b)) => e < a <= b <= command(s, name, e).end,
            None => true,
        },
{
    lemma_group_at(s, e, '{', '}');
    lemma_group_at(s, e, '[', ']');
    lemma_after_options(s, e);
    lemma_after_arguments(s, e);
    let a = after_braced(s, e);
    lemma_group_at(s, a, '[', ']');
    let b = after_bracketed(s, a);
    lemma_past(s, terminator(braced_or_empty(s, e)), b);
    lemma_group_at(s, b, '{', '}');
    let width = after_braced(s, b);
    lemma_group_at(s, width, '[', ']');
    lemma_group_at(s, after_bracketed(s, width), '{', '}');
    let st = after_star(s, e);
    lemma_group_at(s, st, '[', ']');
    lemma_group_at(s, after_bracketed(s, st), '{', '}');
    let o = after_options(s, e);
    lemma_group_at(s, o, '{', '}');
    lemma_group_at(s, after_braced(s, o), '{', '}');
    let d = if name == "verb"@ {
        st
    } else {
        after_bracketed(s, e)
    };
    lemma_group_at(s, d, '{', '}');
    if d < s.len() {
        text::lemma_find_char_bounds(s, s[d], d + 1);
    }
}

pub proof fn lemma_construct(s: Seq<char>, i: int)
    requires
        0 <= i < s.len(),
        is_special(s[i]),
    ensures
        i < construct(s, i).end <= s.len(),
        match construct(s, i).prose {
            Some((a, b)) => i < a <= b <= construct(s, i).end,
            None => true,
        },
{
    reveal_strlit("\\]");
    reveal_strlit("\\)");
    reveal_strlit("$$");
    if s[i] == '%' {
        text::lemma_find_char_bounds(s, '\n', i);
    } else if s[i] == '$' {
        lemma_inline_close(s, i + 1, false);
        if i + 2 <= s.len() {
            lemma_past(s, "$$"@, i + 2);
        }
    } else if i + 1 < s.len() {
        lemma_past(s, "\\]"@, i + 2);
        lemma_past(s, "\\)"@, i + 2);
        lemma_name_end(s, i + 1);
        let e = name_end(s, i + 1);
        lemma_command(s, s.subrange(i + 1, e), e);
    }
}

// ---------------------------------------------------------------------------
// Laws
// ---------------------------------------------------------------------------

/// Whether a token of the source `s`, whose position 0 stands at `base`, comes from a
/// position in `lo..hi`, and, where it is prose, is what stands there: not empty, and
/// without a character that begins a comment, a command or a math region.
pub open spec fn is_faithful(s: Seq<char>, base: int, lo: int, hi: int, t: SpannedView) -> bool {
    &&& base + lo <= t.start < base + hi
    &&& match t.token {
        TokenView::Text(x) => {
            &&& x.len() > 0
            &&& text::matches_at(s, t.start - base, x)
            &&& forall|k: int| 0 <= k < x.len() ==> !is_special(#[trigger] x[k])
        },
        _ => true,
    }
}

/// Whether every token of a scan is faithful, the positions never go back, and every
/// unclosed math region is opened by a `$`.
pub open spec fn is_faithful_scan(s: Seq<char>, base: int, lo: int, hi: int, c: Scan) -> bool {
    &&& forall|k: int|
        0 <= k < c.tokens.len() ==> is_faithful(s, base, lo, hi, #[trigger] c.tokens[k])
    &&& forall|j: int, k: int|
        0 <= j <= k < c.tokens.len() ==> (#[trigger] c.tokens[j]).start <= (
        #[trigger] c.tokens[k]).start
    &&& forall|k: int|
        0 <= k < c.unclosed.len() ==> base + lo <= #[trigger] c.unclosed[k] < base + hi && s[
        c.unclosed[k] - base] == '$'
}

proof fn lemma_tokens_not_text(s: Seq<char>, i: int)
    requires
        0 <= i < s.len(),
        is_special(s[i]),
    ensures
        forall|k: int|
            0 <= k < construct(s, i).tokens.len() ==> !(#[trigger] construct(s, i).tokens[k]
                is Text),
        construct(s, i).unclosed ==> s[i] == '$',
{
    if s[i] == '\\' && i + 1 < s.len() && is_command_char(s[i + 1]) {
        let e = name_end(s, i + 1);
        let name = s.subrange(i + 1, e);
        assert(construct(s, i) == command(s, name, e));
    }
}

proof fn lemma_join(s: Seq<char>, base: int, lo: int, mid: int, hi: int, a: Scan, b: Scan)
    requires
        lo <= mid <= hi,
        is_faithful_scan(s, base, lo, mid, a),
        is_faithful_scan(s, base, mid, hi, b),
    ensures
        is_faithful_scan(s, base, lo, hi, then_scan(a, b)),
{
    let c = then_scan(a, b);
    assert forall|k: int| 0 <= k < c.tokens.len() implies is_faithful(
        s,
        base,
        lo,
        hi,
        #[trigger] c.tokens[k],
    ) by {
        if k < a.tokens.len() {
            assert(c.tokens[k] == a.tokens[k]);
        } else {
            assert(c.tokens[k] == b.tokens[k - a.tokens.len()]);
        }
    }
    assert forall|j: int, k: int| 0 <= j <= k < c.tokens.len() implies (
    #[trigger] c.tokens[j]).start <= (#[trigger] c.tokens[k]).start by {
        if k < a.tokens.len() {
            assert(a.tokens[j].start <= a.tokens[k].start);
        } else if j >= a.tokens.len() {
            assert(b.tokens[j - a.tokens.len()].start <= b.tokens[k - a.tokens.len()].start);
        } else {
            assert(is_faithful(s, base, lo, mid, a.tokens[j]));
            assert(is_faithful(s, base, mid, hi, b.tokens[k - a.tokens.len()]));
        }
    }
    assert forall|k: int| 0 <= k < c.unclosed.len() implies base + lo <= #[trigger] c.unclosed[k]
        < base + hi && s[c.unclosed[k] - base] == '$' by {
        if k < a.unclosed.len() {
            assert(c.unclosed[k] == a.unclosed[k]);
        } else {
            assert(c.unclosed[k] == b.unclosed[k - a.unclosed.len()]);
        }
    }
}

proof fn lemma_scan_faithful(s: Seq<char>, i: int, base: int)
    requires
        0 <= i <= s.len(),
    ensures
        is_faithful_scan(s, base, i, s.len() as int, scan(s, i, base)),
    decreases s.len(), s.len() - i,
{
    if i < s.len() {
        if !is_special(s[i]) {
            lemma_plain_end(s, i);
            lemma_plain_end(s, i + 1);
            let e = plain_end(s, i);
            let x = s.subrange(i, e);
            let head = Scan {
                tokens: seq![SpannedView { token: TokenView::Text(x), start: base + i }],
                unclosed: Seq::empty(),
            };
            assert(x =~= s.subrange(i, i + x.len()));
            assert(is_faithful(s, base, i, e, head.tokens[0]));
            assert(is_faithful_scan(s, base, i, e, head));
            lemma_scan_faithful(s, e, base);
            lemma_join(s, base, i, e, s.len() as int, head, scan(s, e, base));
        } else {
            lemma_construct(s, i);
            lemma_tokens_not_text(s, i);
            let c = construct(s, i);
            let head = Scan {
                tokens: at(c.tokens, base + i),
                unclosed: if c.unclosed {
                    seq![base + i]
                } else {
                    Seq::empty()
                },
            };
            assert(is_faithful_scan(s, base, i, i + 1, head));
            lemma_scan_faithful(s, c.end, base);
            let tail = scan(s, c.end, base);
            match c.prose {
                Some((a, b)) => {
                    let t = s.subrange(a, b);
                    lemma_scan_faithful(t, 0, base + a);
                    let inner = scan(t, 0, base + a);
                    assert forall|k: int| 0 <= k < inner.tokens.len() implies is_faithful(
                        s,
                        base,
                        i + 1,
                        c.end,
                        #[trigger] inner.tokens[k],
                    ) by {
                        let x = inner.tokens[k];
                        assert(is_faithful(t, base + a, 0, t.len() as int, x));
                        if let TokenView::Text(y) = x.token {
                            let p = x.start - base - a;
                            assert(t.subrange(p, p + y.len()) =~= s.subrange(
                                a + p,
                                a + p + y.len(),
                            ));
                        }
                    }
                    assert forall|k: int| 0 <= k < inner.unclosed.len() implies base + i + 1
                        <= #[trigger] inner.unclosed[k] < base + c.end && s[inner.unclosed[k]
                        - base] == '$' by {
                        assert(t[inner.unclosed[k] - base - a] == s[inner.unclosed[k] - base]);
                    }
                    assert(is_faithful_scan(s, base, i + 1, c.end, inner));
                    lemma_join(s, base, i, i + 1, c.end, head, inner);
                    lemma_join(
                        s,
                        base,
                        i,
                        c.end,
                        s.len() as int,
                        then_scan(head, inner),
                        tail,
                    );
                },
                None => {
                    assert(is_faithful_scan(s, base, i + 1, c.end, no_scan()));
                    lemma_join(s, base, i, i + 1, c.end, head, no_scan());
                    lemma_join(
                        s,
                        base,
                        i,
                        c.end,
                        s.len() as int,
                        then_scan(head, no_scan()),
                        tail,
                    );
                },
            }
        }
    }
}

/// Every token of a source comes from a position inside it, and the positions never go
/// back. Prose is copied from its position without change, is never empty, and never
/// holds a `%`, a backslash or a `$`. Every math region reported as unclosed is opened
/// by a `$` of the source.
pub proof fn law_tokens_are_faithful(s: Seq<char>)
    ensures
        is_faithful_scan(s, 0, 0, s.len() as int, scan(s, 0, 0)),
        forall|k: int|
            0 <= k < scan_source(s).tokens.len() ==> position::chars_before(
                s,
                (#[trigger] scan_source(s).tokens[k]).start,
            ) == scan(s, 0, 0).tokens[k].start,
{
    lemma_scan_faithful(s, 0, 0);
    let c = scan(s, 0, 0);
    assert forall|k: int| 0 <= k < c.tokens.len() implies position::chars_before(
        s,
        (#[trigger] scan_source(s).tokens[k]).start,
    ) == c.tokens[k].start by {
        assert(is_faithful(s, 0, 0, s.len() as int, c.tokens[k]));
        position::law_byte_of_char(s, c.tokens[k].start);
    }
}

/// Whether a token opens a region of math or of verbatim text.
pub open spec fn opens_region(t: TokenView) -> bool {
    t is BeginMath || t is BeginVerbatim
}

/// Whether a token closes the region that another one opens.
pub open spec fn closes_region(open: TokenView, close: TokenView) -> bool {
    match open {
        TokenView::BeginMath => close is EndMath,
        TokenView::BeginVerbatim { env } => close == TokenView::EndVerbatim { env },
        _ => false,
    }
}

/// Whether every region that tokens open is closed by the very next token.
pub open spec fn regions_are_empty(ts: Seq<SpannedView>) -> bool {
    forall|k: int|
        0 <= k < ts.len() && opens_region((#[trigger] ts[k]).token) ==> k + 1 < ts.len()
            && closes_region(ts[k].token, ts[k + 1].token)
}

proof fn lemma_regions_join(a: Seq<SpannedView>, b: Seq<SpannedView>)
    requires
        regions_are_empty(a),
        regions_are_empty(b),
    ensures
        regions_are_empty(a + b),
{
    let c = a + b;
    assert forall|k: int| 0 <= k < c.len() && opens_region((#[trigger] c[k]).token) implies k + 1
        < c.len() && closes_region(c[k].token, c[k + 1].token) by {
        if k < a.len() {
            assert(c[k] == a[k]);
            assert(c[k + 1] == a[k + 1]);
        } else {
            assert(c[k] == b[k - a.len()]);
            assert(c[k + 1] == b[k - a.len() + 1]);
        }
    }
}

proof fn lemma_construct_regions(s: Seq<char>, i: int, base: int)
    requires
        0 <= i < s.len(),
        is_special(s[i]),
    ensures
        regions_are_empty(at(construct(s, i).tokens, base)),
{
    let c = construct(s, i);
    let ts = at(c.tokens, base);
    if s[i] == '\\' && i + 1 < s.len() && is_command_char(s[i + 1]) && s[i + 1] != '[' && s[i + 1]
        != '(' && s[i + 1] != ']' && s[i + 1] != ')' {
        let e = name_end(s, i + 1);
        assert(c == command(s, s.subrange(i + 1, e), e));
    }
    assert forall|k: int| 0 <= k < ts.len() && opens_region((#[trigger] ts[k]).token) implies k + 1
        < ts.len() && closes_region(ts[k].token, ts[k + 1].token) by {
        assert(ts[k].token == c.tokens[k]);
        assert(k == 0);
        assert(c.tokens.len() == 2);
        assert(ts[1].token == c.tokens[1]);
    }
}

proof fn lemma_scan_regions(s: Seq<char>, i: int, base: int)
    ensures
        regions_are_empty(scan(s, i, base).tokens),
    decreases s.len(), s.len() - i,
{
    if 0 <= i < s.len() {
        if !is_special(s[i]) {
            lemma_plain_end(s, i + 1);
            let e = plain_end(s, i);
            lemma_scan_regions(s, e, base);
            lemma_regions_join(
                seq![SpannedView { token: TokenView::Text(s.subrange(i, e)), start: base + i }],
                scan(s, e, base).tokens,
            );
        } else {
            lemma_construct(s, i);
            lemma_construct_regions(s, i, base + i);
            let c = construct(s, i);
            lemma_scan_regions(s, c.end, base);
            let head = at(c.tokens, base + i);
            match c.prose {
                Some((a, b)) => {
                    lemma_scan_regions(s.subrange(a, b), 0, base + a);
                    let inner = scan(s.subrange(a, b), 0, base + a).tokens;
                    lemma_regions_join(head, inner);
                    lemma_regions_join(head + inner, scan(s, c.end, base).tokens);
                },
                None => {
                    lemma_regions_join(head, Seq::empty());
                    lemma_regions_join(
                        head + Seq::<SpannedView>::empty(),
                        scan(s, c.end, base).tokens,
                    );
                },
            }
        }
    }
}

/// Nothing inside a math region or a verbatim region is ever a token: the token that
/// opens such a region is followed by the one that closes it.
pub proof fn law_regions_are_empty(s: Seq<char>)
    ensures
        regions_are_empty(scan_source(s).tokens),
{
    lemma_scan_regions(s, 0, 0);
}

/// A source without `%`, backslash and `$` is prose as a whole.
pub proof fn law_plain_source_is_one_text(s: Seq<char>)
    requires
        s.len() > 0,
        forall|k: int| 0 <= k < s.len() ==> !is_special(#[trigger] s[k]),
    ensures
        tokens_of(s) == seq![TokenView::Text(s)],
{
    lemma_plain_end(s, 0);
    lemma_plain_end_max(s, 0);
    assert(s.subrange(0, s.len() as int) =~= s);
    assert(scan(s, s.len() as int, 0) == no_scan());
    assert(tokens_of(s) =~= seq![TokenView::Text(s)]);
}

proof fn lemma_plain_end_max(s: Seq<char>, i: int)
    requires
        0 <= i <= s.len(),
        forall|k: int| 0 <= k < s.len() ==> !is_special(#[trigger] s[k]),
    ensures
        plain_end(s, i) == s.len(),
    decreases s.len() - i,
{
    if i < s.len() {
        lemma_plain_end_max(s, i + 1);
    }
}

// ---------------------------------------------------------------------------
// The scanner
// ---------------------------------------------------------------------------

/// A group as positions.
struct Span {
    from: usize,
    stop: usize,
    end: usize,
}

impl Span {
    spec fn group(self) -> Group {
        Group { from: self.from as int, stop: self.stop as int, end: self.end as int }
    }
}

/// A construct with its tokens.
struct Piece {
    tokens: Vec<Token>,
    prose: Option<(usize, usize)>,
    unclosed: bool,
    end: usize,
}

impl Piece {
    spec fn construct(self) -> Construct {
        Construct {
            tokens: token_views(self.tokens@),
            prose: match self.prose {
                Some((a, b)) => Some((a as int, b as int)),
                None => None,
            },
            unclosed: self.unclosed,
            end: self.end as int,
        }
    }
}

fn command_char(c: char) -> (r: bool)
    ensures
        r == is_command_char(c),
{
    chars::ascii_letter(c) || c == '@'
}

fn read_group(s: &[char], i: usize, open: char, close: char) -> (r: Option<Span>)
    ensures
        match r {
            Some(g) => group_at(s@, i as int, open, close) == Some(g.group()) && i < g.from <= g.stop
                <= g.end <= s@.len(),
            None => group_at(s@, i as int, open, close) is None,
        },
{
    let n: usize = s.len();
    if i >= n || s[i] != open {
        return None;
    }
    let mut j: usize = i + 1;
    let mut depth: usize = 1;
    while j < n
        invariant
            n == s@.len(),
            i < j <= n,
            1 <= depth <= j,
            group_stop(s@, i + 1, 1, open, close) == group_stop(
                s@,
                j as int,
                depth as nat,
                open,
                close,
            ),
            i < n,
            s@[i as int] == open,
        decreases n - j,
    {
        let c = s[j];
        if c == '\\' {
            if j + 1 >= n {
                assert(group_stop(s@, j + 2, depth as nat, open, close) == n);
                return Some(Span { from: i + 1, stop: n, end: n });
            }
            j = j + 2;
        } else if c == open {
            depth = depth + 1;
            j = j + 1;
        } else if c == close {
            if depth == 1 {
                return Some(Span { from: i + 1, stop: j, end: j + 1 });
            }
            depth = depth - 1;
            j = j + 1;
        } else {
            j = j + 1;
        }
    }
    Some(Span { from: i + 1, stop: n, end: n })
}

fn read_braced(s: &[char], i: usize) -> (r: Option<Span>)
    ensures
        match r {
            Some(g) => braced(s@, i as int) == Some(g.group()) && i < g.from <= g.stop <= g.end
                <= s@.len(),
            None => braced(s@, i as int) is None,
        },
{
    read_group(s, i, '{', '}')
}

fn read_bracketed(s: &[char], i: usize) -> (r: Option<Span>)
    ensures
        match r {
            Some(g) => bracketed(s@, i as int) == Some(g.group()) && i < g.from <= g.stop <= g.end
                <= s@.len(),
            None => bracketed(s@, i as int) is None,
        },
{
    read_group(s, i, '[', ']')
}

/// The content of a `{...}` group, empty where there is none, and the position behind it.
fn read_title(s: &[char], i: usize) -> (r: (String, usize))
    requires
        i <= s@.len(),
    ensures
        r.0@ == braced_or_empty(s@, i as int),
        r.1 == after_braced(s@, i as int),
        i <= r.1 <= s@.len(),
{
    match read_braced(s, i) {
        Some(g) => (string_of(text::part(s, g.from, g.stop)), g.end),
        None => (String::new(), i),
    }
}

fn skip_bracketed(s: &[char], i: usize) -> (r: usize)
    requires
        i <= s@.len(),
    ensures
        r == after_bracketed(s@, i as int),
        i <= r <= s@.len(),
{
    match read_bracketed(s, i) {
        Some(g) => g.end,
        None => i,
    }
}

fn skip_star(s: &[char], i: usize) -> (r: usize)
    requires
        i <= s@.len(),
    ensures
        r == after_star(s@, i as int),
        i <= r <= s@.len(),
{
    if i < s.len() && s[i] == '*' {
        i + 1
    } else {
        i
    }
}

fn read_options(s: &[char], i: usize) -> (r: (Vec<String>, usize))
    requires
        i <= s@.len(),
    ensures
        text::texts(r.0@) == options(s@, i as int),
        r.1 == after_options(s@, i as int),
        i <= r.1 <= s@.len(),
{
    broadcast use text::lemma_texts_push;

    let mut args: Vec<String> = Vec::new();
    let mut j: usize = i;
    assert(text::texts(args@) + options(s@, j as int) =~= options(s@, i as int));
    loop
        invariant
            i <= j <= s@.len(),
            text::texts(args@) + options(s@, j as int) == options(s@, i as int),
            after_options(s@, j as int) == after_options(s@, i as int),
        decreases s@.len() - j,
    {
        match read_bracketed(s, j) {
            Some(g) => {
                let arg = string_of(text::part(s, g.from, g.stop));
                assert(text::texts(args@) + (seq![arg@] + options(s@, g.end as int)) =~= text::texts(
                    args@,
                ).push(arg@) + options(s@, g.end as int));
                args.push(arg);
                j = g.end;
            },
            None => {
                assert(text::texts(args@) + options(s@, j as int) =~= text::texts(args@));
                return (args, j);
            },
        }
    }
}

fn read_arguments(s: &[char], i: usize) -> (r: (Vec<String>, usize))
    requires
        i <= s@.len(),
    ensures
        text::texts(r.0@) == arguments(s@, i as int),
        r.1 == after_arguments(s@, i as int),
        i <= r.1 <= s@.len(),
{
    broadcast use text::lemma_texts_push;

    let mut args: Vec<String> = Vec::new();
    let mut j: usize = i;
    assert(text::texts(args@) + arguments(s@, j as int) =~= arguments(s@, i as int));
    loop
        invariant
            i <= j <= s@.len(),
            text::texts(args@) + arguments(s@, j as int) == arguments(s@, i as int),
            after_arguments(s@, j as int) == after_arguments(s@, i as int),
        decreases s@.len() - j,
    {
        let group = match read_bracketed(s, j) {
            Some(g) => Some(g),
            None => read_braced(s, j),
        };
        match group {
            Some(g) => {
                let arg = string_of(text::part(s, g.from, g.stop));
                assert(text::texts(args@) + (seq![arg@] + arguments(s@, g.end as int))
                    =~= text::texts(args@).push(arg@) + arguments(s@, g.end as int));
                args.push(arg);
                j = g.end;
            },
            None => {
                assert(text::texts(args@) + arguments(s@, j as int) =~= text::texts(args@));
                return (args, j);
            },
        }
    }
}

/// The first occurrence of `p` from `j` on.
fn find_after(s: &[char], p: &[char], j: usize) -> (r: Option<usize>)
    requires
        j <= s@.len(),
    ensures
        match r {
            Some(k) => text::find_from(s@, p@, j as int) == Some(k as int) && j <= k && k + p@.len()
                <= s@.len(),
            None => text::find_from(s@, p@, j as int) is None,
        },
{
    let n: usize = s.len();
    let mut i: usize = j;
    while i <= n && p.len() <= n - i
        invariant
            n == s@.len(),
            j <= i,
            i <= n + 1,
            text::find_from(s@, p@, j as int) == text::find_from(s@, p@, i as int),
        decreases n + 1 - i,
    {
        if text::stands_at(s, i, p) {
            return Some(i);
        }
        if i == n {
            assert(text::find_from(s@, p@, i + 1) is None);
            return None;
        }
        i = i + 1;
    }
    None
}

fn skip_past(s: &[char], p: &[char], j: usize) -> (r: usize)
    requires
        j <= s@.len(),
    ensures
        r == past(s@, p@, j as int),
        j <= r <= s@.len(),
{
    let n: usize = s.len();
    match find_after(s, p, j) {
        Some(k) => k + p.len(),
        None => n,
    }
}

fn find_ch_after(s: &[char], c: char, j: usize) -> (r: Option<usize>)
    requires
        j <= s@.len(),
    ensures
        match r {
            Some(k) => text::find_char_from(s@, c, j as int) == Some(k as int) && j <= k < s@.len(),
            None => text::find_char_from(s@, c, j as int) is None,
        },
{
    let mut i: usize = j;
    while i < s.len()
        invariant
            j <= i <= s@.len(),
            text::find_char_from(s@, c, j as int) == text::find_char_from(s@, c, i as int),
        decreases s@.len() - i,
    {
        if s[i] == c {
            return Some(i);
        }
        i = i + 1;
    }
    None
}

fn piece(tokens: Vec<Token>, end: usize) -> (r: Piece)
    ensures
        r.construct() == simple(token_views(tokens@), end as int),
{
    Piece { tokens, prose: None, unclosed: false, end }
}

fn one(token: Token) -> (r: Vec<Token>)
    ensures
        token_views(r@) == seq![token@],
{
    let mut v: Vec<Token> = Vec::new();
    v.push(token);
    assert(token_views(v@) =~= seq![token@]);
    v
}

fn two(a: Token, b: Token) -> (r: Vec<Token>)
    ensures
        token_views(r@) == seq![a@, b@],
{
    let mut v: Vec<Token> = Vec::new();
    v.push(a);
    v.push(b);
    assert(token_views(v@) =~= seq![a@, b@]);
    v
}

fn read_inline_close(s: &[char], i: usize) -> (r: Option<usize>)
    requires
        i <= s@.len(),
    ensures
        match r {
            Some(k) => inline_close(s@, i as int, false) == Some(k as int) && i <= k < s@.len(),
            None => inline_close(s@, i as int, false) is None,
        },
{
    let mut j: usize = i;
    let mut odd = false;
    while j < s.len()
        invariant
            i <= j <= s@.len(),
            inline_close(s@, i as int, false) == inline_close(s@, j as int, odd),
        decreases s@.len() - j,
    {
        let c = s[j];
        if c == '\\' {
            odd = !odd;
        } else if c == '$' && !odd {
            return Some(j);
        } else {
            odd = false;
        }
        j = j + 1;
    }
    None
}

fn read_dollar(s: &[char], i: usize) -> (r: Piece)
    requires
        i < s@.len(),
    ensures
        r.construct() == dollar(s@, i as int),
        i < r.end <= s@.len(),
{
    let n: usize = s.len();
    let tokens = two(Token::BeginMath, Token::EndMath);
    if i + 1 < n && s[i + 1] == '$' {
        let close = chars_of("$$");
        match find_after(s, close.as_slice(), i + 2) {
            Some(k) => piece(tokens, k + close.len()),
            None => Piece { tokens, prose: None, unclosed: true, end: n },
        }
    } else {
        match read_inline_close(s, i + 1) {
            Some(k) => piece(tokens, k + 1),
            None => Piece { tokens, prose: None, unclosed: true, end: n },
        }
    }
}

fn read_comment(s: &[char], i: usize) -> (r: Piece)
    requires
        i < s@.len(),
        s@[i as int] == '%',
    ensures
        r.construct() == comment(s@, i as int),
        i < r.end <= s@.len(),
{
    proof {
        text::lemma_find_char_bounds(s@, '\n', i as int);
    }
    let end = match find_ch_after(s, '\n', i) {
        Some(k) => k,
        None => s.len(),
    };
    piece(one(Token::Comment(string_of(text::part(s, i, end)))), end)
}

fn math_environment(env: &[char]) -> (r: bool)
    ensures
        r == is_math_environment(env@),
{
    let e: &[char] = if env.len() > 0 && env[env.len() - 1] == '*' {
        let d = text::upto(env, env.len() - 1);
        assert(d@ =~= env@.drop_last());
        d
    } else {
        env
    };
    text::is_lit(e, "equation") || text::is_lit(e, "align") || text::is_lit(e, "gather")
        || text::is_lit(e, "multline") || text::is_lit(e, "flalign") || text::is_lit(e, "eqnarray")
        || text::is_lit(e, "displaymath")
}

fn verbatim_environment(env: &[char]) -> (r: bool)
    ensures
        r == is_verbatim_environment(env@),
{
    text::is_lit(env, "verbatim") || text::is_lit(env, "Verbatim") || text::is_lit(
        env,
        "lstlisting",
    ) || text::is_lit(env, "minted")
}

/// Whether an environment is a table, in which `&` separates columns.
pub fn table_environment(name: &[char]) -> (r: bool)
    ensures
        r == is_table(name@),
{
    text::is_lit(name, "tabular") || text::is_lit(name, "tabular*") || text::is_lit(
        name,
        "tabularx",
    ) || text::is_lit(name, "longtable") || text::is_lit(name, "supertabular") || text::is_lit(
        name,
        "array",
    )
}

fn prose_command(name: &[char]) -> (r: bool)
    ensures
        r == is_prose_command(name@),
{
    text::is_lit(name, "textit") || text::is_lit(name, "textbf") || text::is_lit(name, "emph")
        || text::is_lit(name, "footnote") || text::is_lit(name, "caption")
}

fn section_level(name: &[char]) -> (r: Option<u8>)
    ensures
        r == level_of(name@),
{
    let n = text::trimmed_end_char(name, '*');
    if text::is_lit(n, "part") {
        Some(0)
    } else if text::is_lit(n, "chapter") {
        Some(1)
    } else if text::is_lit(n, "section") {
        Some(2)
    } else if text::is_lit(n, "subsection") {
        Some(3)
    } else if text::is_lit(n, "subsubsection") {
        Some(4)
    } else if text::is_lit(n, "paragraph") {
        Some(5)
    } else if text::is_lit(n, "subparagraph") {
        Some(6)
    } else {
        None
    }
}

fn skip_to_env_end(s: &[char], env: &str, j: usize) -> (r: usize)
    requires
        j <= s@.len(),
    ensures
        r == past(s@, terminator(env@), j as int),
        j <= r <= s@.len(),
{
    let t = text::cat3("\\end{", env, "}");
    let p = chars_of(t.as_str());
    skip_past(s, p.as_slice(), j)
}

fn handle_begin(s: &[char], e: usize) -> (r: Piece)
    requires
        e <= s@.len(),
    ensures
        r.construct() == begin(s@, e as int),
        e <= r.end <= s@.len(),
{
    let (env, after) = read_title(s, e);
    let body = skip_bracketed(s, after);
    let name = chars_of(env.as_str());
    if text::is_lit(name.as_slice(), "document") {
        piece(one(Token::BeginDocument), body)
    } else if math_environment(name.as_slice()) {
        let end = skip_to_env_end(s, env.as_str(), body);
        piece(two(Token::BeginMath, Token::EndMath), end)
    } else if verbatim_environment(name.as_slice()) {
        let end = skip_to_env_end(s, env.as_str(), body);
        let closing = env.clone();
        piece(two(Token::BeginVerbatim { env }, Token::EndVerbatim { env: closing }), end)
    } else if table_environment(name.as_slice()) {
        let (_, width) = read_title(s, body);
        let end = if text::is_lit(name.as_slice(), "tabular*") || text::is_lit(
            name.as_slice(),
            "tabularx",
        ) {
            let at = skip_bracketed(s, width);
            let (_, columns) = read_title(s, at);
            columns
        } else {
            width
        };
        piece(one(Token::Environment { name: env }), end)
    } else {
        piece(one(Token::Environment { name: env }), body)
    }
}

fn handle_end(s: &[char], e: usize) -> (r: Piece)
    requires
        e <= s@.len(),
    ensures
        r.construct() == end(s@, e as int),
        e <= r.end <= s@.len(),
{
    let (env, after) = read_title(s, e);
    let name = chars_of(env.as_str());
    if text::is_lit(name.as_slice(), "document") {
        piece(one(Token::EndDocument), after)
    } else if math_environment(name.as_slice()) {
        piece(one(Token::EndMath), after)
    } else if verbatim_environment(name.as_slice()) {
        piece(one(Token::EndVerbatim { env }), after)
    } else {
        piece(one(Token::Environment { name: env }), after)
    }
}

fn handle_section(s: &[char], e: usize, level: u8) -> (r: Piece)
    requires
        e <= s@.len(),
    ensures
        r.construct() == section(s@, e as int, level),
        e <= r.end <= s@.len(),
{
    let star = skip_star(s, e);
    let title_at = skip_bracketed(s, star);
    let (title, after) = read_title(s, title_at);
    piece(one(Token::Section { level, title }), after)
}

fn handle_inline_verbatim(s: &[char], name: &[char], e: usize) -> (r: Piece)
    requires
        e <= s@.len(),
    ensures
        r.construct() == inline_verbatim(s@, name@, e as int),
        e <= r.end <= s@.len(),
{
    let n: usize = s.len();
    let d = if text::is_lit(name, "verb") {
        skip_star(s, e)
    } else {
        skip_bracketed(s, e)
    };
    let end = if d >= n {
        n
    } else if s[d] == '{' {
        match read_braced(s, d) {
            Some(g) => g.end,
            None => d,
        }
    } else {
        match find_ch_after(s, s[d], d + 1) {
            Some(k) => k + 1,
            None => n,
        }
    };
    piece(
        two(
            Token::BeginVerbatim { env: string_of(name) },
            Token::EndVerbatim { env: string_of(name) },
        ),
        end,
    )
}

fn prose_piece(s: &[char], name: &[char], args: Vec<String>, i: usize) -> (r: Piece)
    requires
        i <= s@.len(),
    ensures
        r.construct() == with_prose(s@, name@, text::texts(args@), i as int),
        i <= r.end <= s@.len(),
        match r.prose {
            Some((a, b)) => i < a <= b <= s@.len(),
            None => true,
        },
{
    let tokens = one(Token::Command { name: string_of(name), args });
    match read_braced(s, i) {
        Some(g) => Piece { tokens, prose: Some((g.from, g.stop)), unclosed: false, end: g.end },
        None => piece(tokens, i),
    }
}

fn handle_href(s: &[char], name: &[char], e: usize) -> (r: Piece)
    requires
        e <= s@.len(),
        name@ == "href"@,
    ensures
        r.construct() == href(s@, e as int),
        e <= r.end <= s@.len(),
        match r.prose {
            Some((a, b)) => e < a <= b <= s@.len(),
            None => true,
        },
{
    broadcast use text::lemma_texts_push;

    let (read, url) = read_options(s, e);
    let mut args = read;
    let mut link: usize = url;
    if let Some(g) = read_braced(s, url) {
        args.push(string_of(text::part(s, g.from, g.stop)));
        link = g.end;
    }
    prose_piece(s, name, args, link)
}

fn handle_command(s: &[char], name: &[char], e: usize) -> (r: Piece)
    requires
        e <= s@.len(),
    ensures
        r.construct() == command(s@, name@, e as int),
        e <= r.end <= s@.len(),
        match r.prose {
            Some((a, b)) => e < a <= b <= s@.len(),
            None => true,
        },
{
    if text::is_lit(name, "begin") {
        return handle_begin(s, e);
    }
    if text::is_lit(name, "end") {
        return handle_end(s, e);
    }
    if let Some(level) = section_level(name) {
        return handle_section(s, e, level);
    }
    if text::is_lit(name, "verb") || text::is_lit(name, "lstinline") {
        handle_inline_verbatim(s, name, e)
    } else if text::is_lit(name, "href") {
        handle_href(s, name, e)
    } else if prose_command(name) {
        let (args, after) = read_options(s, e);
        prose_piece(s, name, args, after)
    } else {
        let (args, after) = read_arguments(s, e);
        piece(one(Token::Command { name: string_of(name), args }), after)
    }
}

fn control_symbol(c: char) -> (r: Vec<Token>)
    ensures
        token_views(r@) == seq![TokenView::Command { name: seq![c], args: Seq::empty() }],
{
    let mut name = String::new();
    name.push(c);
    let args: Vec<String> = Vec::new();
    assert(name@ =~= seq![c]);
    assert(text::texts(args@) =~= Seq::empty());
    one(Token::Command { name, args })
}

fn read_command_name(s: &[char], i: usize) -> (r: usize)
    requires
        i <= s@.len(),
    ensures
        r == name_end(s@, i as int),
        i <= r <= s@.len(),
{
    let mut j: usize = i;
    while j < s.len() && command_char(s[j])
        invariant
            i <= j <= s@.len(),
            name_end(s@, i as int) == name_end(s@, j as int),
        decreases s@.len() - j,
    {
        j = j + 1;
    }
    j
}

fn handle_backslash(s: &[char], i: usize) -> (r: Piece)
    requires
        i < s@.len(),
    ensures
        r.construct() == backslash(s@, i as int),
        i < r.end <= s@.len(),
        match r.prose {
            Some((a, b)) => i < a <= b <= s@.len(),
            None => true,
        },
{
    let n: usize = s.len();
    if i + 1 >= n {
        return piece(control_symbol('\\'), i + 1);
    }
    let c = s[i + 1];
    if c == '[' {
        let close = chars_of("\\]");
        let end = skip_past(s, close.as_slice(), i + 2);
        piece(two(Token::BeginMath, Token::EndMath), end)
    } else if c == '(' {
        let close = chars_of("\\)");
        let end = skip_past(s, close.as_slice(), i + 2);
        piece(two(Token::BeginMath, Token::EndMath), end)
    } else if c == ']' || c == ')' {
        piece(one(Token::EndMath), i + 2)
    } else if command_char(c) {
        let e = read_command_name(s, i + 1);
        handle_command(s, text::part(s, i + 1, e), e)
    } else {
        piece(control_symbol(c), i + 2)
    }
}

fn special(c: char) -> (r: bool)
    ensures
        r == is_special(c),
{
    c == '%' || c == '\\' || c == '$'
}

fn read_plain(s: &[char], i: usize) -> (r: usize)
    requires
        i <= s@.len(),
    ensures
        r == plain_end(s@, i as int),
        i <= r <= s@.len(),
        i < s@.len() && !is_special(s@[i as int]) ==> i < r,
{
    let mut j: usize = i;
    while j < s.len() && !special(s[j])
        invariant
            i <= j <= s@.len(),
            plain_end(s@, i as int) == plain_end(s@, j as int),
        decreases s@.len() - j,
    {
        j = j + 1;
    }
    j
}

proof fn lemma_spanned_push(v: Seq<SpannedToken>, x: SpannedToken)
    ensures
        spanned_views(v.push(x)) == spanned_views(v).push(x@),
{
    assert(spanned_views(v.push(x)) =~= spanned_views(v).push(x@));
}

/// Appends tokens that share a position.
fn push_at(out: &mut Vec<SpannedToken>, tokens: Vec<Token>, start: usize)
    ensures
        spanned_views(final(out)@) == spanned_views(old(out)@) + at(
            token_views(tokens@),
            start as int,
        ),
{
    let ghost before = spanned_views(out@);
    let ghost all = token_views(tokens@);
    let mut tokens = tokens;
    let ghost original = tokens@;
    let mut rest: Vec<Token> = Vec::new();
    while tokens.len() > 0
        invariant
            tokens@.len() + rest@.len() == original.len(),
            tokens@ == original.take(tokens@.len() as int),
            forall|k: int|
                0 <= k < rest@.len() ==> rest@[k] == original[original.len() - 1 - k],
        decreases tokens.len(),
    {
        let ghost prior = tokens@;
        let t = tokens.pop();
        if let Some(token) = t {
            rest.push(token);
        }
        assert(tokens@ =~= original.take(tokens@.len() as int));
    }
    while rest.len() > 0
        invariant
            rest@.len() <= original.len(),
            all == token_views(original),
            forall|k: int|
                0 <= k < rest@.len() ==> rest@[k] == original[original.len() - 1 - k],
            spanned_views(out@) == before + at(
                all.take(original.len() - rest@.len()),
                start as int,
            ),
        decreases rest.len(),
    {
        let ghost done = original.len() - rest@.len();
        let t = rest.pop();
        if let Some(token) = t {
            let spanned = SpannedToken { token, start };
            proof {
                lemma_spanned_push(out@, spanned);
                assert(token@ == all[done]);
                assert(before + at(all.take(done + 1), start as int) =~= (before + at(
                    all.take(done),
                    start as int,
                )).push(spanned@));
            }
            out.push(spanned);
        }
    }
    assert(all.take(original.len() as int) =~= all);
}

fn scan_into(s: &[char], base: usize, out: &mut TokenizedSource)
    requires
        base + s@.len() <= usize::MAX,
    ensures
        final(out)@ == then_scan(old(out)@, scan(s@, 0, base as int)),
    decreases s@.len(),
{
    let ghost before = out@;
    let n: usize = s.len();
    let mut i: usize = 0;
    assert(then_scan(out@, scan(s@, 0, base as int)) =~= then_scan(
        before,
        scan(s@, 0, base as int),
    ));
    while i < n
        invariant
            n == s@.len(),
            i <= n,
            base + n <= usize::MAX,
            then_scan(out@, scan(s@, i as int, base as int)) == then_scan(
                before,
                scan(s@, 0, base as int),
            ),
        decreases n - i,
    {
        let ghost now = out@;
        if !special(s[i]) {
            let e = read_plain(s, i);
            let spanned = SpannedToken {
                token: Token::Text(string_of(text::part(s, i, e))),
                start: base + i,
            };
            proof {
                lemma_spanned_push(out.tokens@, spanned);
            }
            out.tokens.push(spanned);
            assert(then_scan(out@, scan(s@, e as int, base as int)) =~= then_scan(
                now,
                scan(s@, i as int, base as int),
            ));
            i = e;
        } else {
            let c = s[i];
            let p = if c == '%' {
                read_comment(s, i)
            } else if c == '$' {
                read_dollar(s, i)
            } else {
                handle_backslash(s, i)
            };
            let ghost whole = construct(s@, i as int);
            assert(p.construct() == whole);
            if p.unclosed {
                out.unclosed_math.push(base + i);
            }
            let ghost head = Scan {
                tokens: at(whole.tokens, base + i),
                unclosed: if whole.unclosed {
                    seq![base + i]
                } else {
                    Seq::empty()
                },
            };
            push_at(&mut out.tokens, p.tokens, base + i);
            assert(out@ =~= then_scan(now, head)) by {
                assert(out@.unclosed =~= now.unclosed + head.unclosed);
            }
            let ghost inner = match whole.prose {
                Some((a, b)) => scan(s@.subrange(a, b), 0, base + a),
                None => no_scan(),
            };
            if let Some((a, b)) = p.prose {
                scan_into(text::part(s, a, b), base + a, out);
            } else {
                assert(then_scan(out@, no_scan()) =~= out@);
            }
            assert(out@ == then_scan(then_scan(now, head), inner));
            let ghost tail = scan(s@, whole.end, base as int);
            assert(then_scan(then_scan(then_scan(now, head), inner), tail) =~= then_scan(
                now,
                then_scan(then_scan(head, inner), tail),
            ));
            i = p.end;
        }
    }
    assert(then_scan(out@, no_scan()) =~= out@);
}

/// Puts bytes in place of the positions of a scan.
fn to_bytes(source: &str, out: &mut TokenizedSource)
    requires
        old(out)@ == scan(source@, 0, 0),
    ensures
        final(out)@ == scan_source(source@),
{
    let ghost c = scan(source@, 0, 0);
    proof {
        lemma_scan_faithful(source@, 0, 0);
    }
    let starts = position::byte_offsets(source);
    let mut k: usize = 0;
    while k < out.tokens.len()
        invariant
            k <= out.tokens@.len() == c.tokens.len(),
            c == scan(source@, 0, 0),
            is_faithful_scan(source@, 0, 0, source@.len() as int, c),
            starts@.len() == source@.len() + 1,
            forall|i: int|
                0 <= i <= source@.len() ==> #[trigger] starts@[i] == position::byte_at(
                    source@,
                    i,
                ),
            offsets(out.unclosed_math@) == c.unclosed,
            forall|j: int|
                0 <= j < k ==> (#[trigger] out.tokens@[j])@ == scan_source(source@).tokens[j],
            forall|j: int| k <= j < c.tokens.len() ==> (#[trigger] out.tokens@[j])@ == c.tokens[j],
        decreases out.tokens@.len() - k,
    {
        assert(out.tokens@[k as int]@ == c.tokens[k as int]);
        assert(is_faithful(source@, 0, 0, source@.len() as int, c.tokens[k as int]));
        let at: usize = out.tokens[k].start;
        out.tokens[k].start = starts[at];
        k = k + 1;
    }
    let mut j: usize = 0;
    while j < out.unclosed_math.len()
        invariant
            j <= out.unclosed_math@.len() == c.unclosed.len(),
            c == scan(source@, 0, 0),
            is_faithful_scan(source@, 0, 0, source@.len() as int, c),
            starts@.len() == source@.len() + 1,
            forall|i: int|
                0 <= i <= source@.len() ==> #[trigger] starts@[i] == position::byte_at(
                    source@,
                    i,
                ),
            spanned_views(out.tokens@) == scan_source(source@).tokens,
            forall|i: int|
                0 <= i < j ==> #[trigger] out.unclosed_math@[i]
                    == scan_source(source@).unclosed[i],
            forall|i: int|
                j <= i < c.unclosed.len() ==> #[trigger] out.unclosed_math@[i] == c.unclosed[i],
        decreases out.unclosed_math@.len() - j,
    {
        let at: usize = out.unclosed_math[j];
        out.unclosed_math.set(j, starts[at]);
        j = j + 1;
    }
    assert(out@ =~= scan_source(source@));
}

/// Tokenizes a source and keeps the byte at which every token begins.
pub fn tokenize_with_spans(source: &str) -> (r: TokenizedSource)
    ensures
        r@ == scan_source(source@),
{
    let s = chars_of(source);
    let mut out = TokenizedSource { tokens: Vec::new(), unclosed_math: Vec::new() };
    assert(out@ =~= no_scan());
    let n: usize = s.len();
    assert(n == s@.len());
    scan_into(s.as_slice(), 0, &mut out);
    assert(then_scan(no_scan(), scan(source@, 0, 0)) =~= scan(source@, 0, 0));
    to_bytes(source, &mut out);
    out
}

/// Tokenizes a single LaTeX source.
pub fn tokenize(source: &str) -> (r: Vec<Token>)
    ensures
        token_views(r@) == tokens_of(source@),
{
    let scanned = tokenize_with_spans(source);
    let mut spanned = scanned.tokens;
    let ghost all = spanned@;
    let mut back: Vec<Token> = Vec::new();
    while spanned.len() > 0
        invariant
            spanned@.len() + back@.len() == all.len(),
            spanned@ == all.take(spanned@.len() as int),
            forall|k: int|
                0 <= k < back@.len() ==> back@[k] == all[all.len() - 1 - k].token,
        decreases spanned.len(),
    {
        let t = spanned.pop();
        if let Some(x) = t {
            back.push(x.token);
        }
        assert(spanned@ =~= all.take(spanned@.len() as int));
    }
    let mut out: Vec<Token> = Vec::new();
    while back.len() > 0
        invariant
            back@.len() + out@.len() == all.len(),
            forall|k: int|
                0 <= k < back@.len() ==> back@[k] == all[all.len() - 1 - k].token,
            forall|k: int| 0 <= k < out@.len() ==> out@[k] == all[k].token,
        decreases back.len(),
    {
        let t = back.pop();
        if let Some(x) = t {
            out.push(x);
        }
    }
    assert(token_views(out@) =~= tokens_of(source@)) by {
        assert forall|k: int| 0 <= k < out@.len() implies token_views(out@)[k] == tokens_of(
            source@,
        )[k] by {
            assert(spanned_views(all)[k] == all[k]@);
        }
    }
    out
}

/// One tokenized file, with the file it came from.
#[derive(Debug)]
pub struct TokenizedFile {
    /// Path of the tokenized `.tex` file.
    pub path: String,
    /// The tokens of that file.
    pub tokens: Vec<Token>,
}

/// What a sequence of tokenized files says: each path with its tokens.
pub open spec fn document_view(v: Seq<TokenizedFile>) -> Seq<(Seq<char>, Seq<TokenView>)> {
    Seq::new(v.len(), |k: int| (v[k].path@, token_views(v[k].tokens@)))
}

/// The readable ones of the files from the `k`-th on, each with its tokens.
pub open spec fn tokenized(
    files: Seq<Seq<char>>,
    tree: Seq<(Seq<char>, Option<Seq<char>>)>,
    k: int,
) -> Seq<(Seq<char>, Seq<TokenView>)>
    decreases files.len() - k,
{
    if k < 0 || k >= files.len() {
        Seq::empty()
    } else {
        match texutil::source_at(tree, files[k]) {
            SourceView::Text(t) => seq![(files[k], tokens_of(t))] + tokenized(files, tree, k + 1),
            _ => tokenized(files, tree, k + 1),
        }
    }
}

/// Tokenize every `.tex` file that `\input{}` reaches from `entry`, given all files.
pub fn tokenize_document(root: &str, entry: &str, tree: &Vec<SourceFile>) -> (r: Vec<
    TokenizedFile,
>)
    ensures
        document_view(r@) == tokenized(
            texutil::collected(
                TraversalView::start(root@, entry@),
                texutil::tree_view(tree@),
            ).files,
            texutil::tree_view(tree@),
            0,
        ),
{
    let collection = texutil::collect_tex_files(root, entry, tree);
    let ghost files = collection@.files;
    let ghost all = texutil::tree_view(tree@);
    let mut out: Vec<TokenizedFile> = Vec::new();
    let mut k: usize = 0;
    assert(document_view(out@) + tokenized(files, all, 0) =~= tokenized(files, all, 0));
    while k < collection.files.len()
        invariant
            k <= collection.files@.len(),
            files == text::texts(collection.files@),
            all == texutil::tree_view(tree@),
            document_view(out@) + tokenized(files, all, k as int) == tokenized(files, all, 0),
        decreases collection.files@.len() - k,
    {
        let ghost done = document_view(out@);
        let ghost rest = tokenized(files, all, k + 1);
        let path = collection.files[k].as_str();
        assert(files[k as int] == path@);
        if let Source::Text(t) = texutil::find_source(tree, path) {
            let file = TokenizedFile { path: text::lit(path), tokens: tokenize(t.as_str()) };
            let ghost view = (file.path@, token_views(file.tokens@));
            assert(done + (seq![view] + rest) =~= done.push(view) + rest);
            out.push(file);
            assert(document_view(out@) =~= done.push(view));
        }
        k = k + 1;
    }
    assert(document_view(out@) + tokenized(files, all, k as int) =~= document_view(out@));
    out
}

} // verus!
