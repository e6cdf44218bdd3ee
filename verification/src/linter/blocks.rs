//! When linting tells of the diagrams of a file, and of what its preamble asks of the engine.

use vstd::prelude::*;

use super::checks;
use super::engine;
use super::{FindingView, Severity};
use crate::formatter::listing;
use crate::mentions;
use crate::text;
use crate::texparse::{self, TokenView};

verus! {

// ---------------------------------------------------------------------------
// Diagrams
// ---------------------------------------------------------------------------

/// How many line feeds stand before a position.
pub open spec fn feeds(s: Seq<char>, n: int) -> nat
    decreases n,
{
    if n <= 0 {
        0
    } else if s[n - 1] == '\n' {
        feeds(s, n - 1) + 1
    } else {
        feeds(s, n - 1)
    }
}

/// Whether the end of a diagram stands on the `k`-th line of a file or behind it.
pub open spec fn ends_behind(content: Seq<char>, env: Seq<char>, k: int) -> bool {
    exists|j: int|
        #[trigger] mentions::stands(content, j, "\\end{"@ + env + "}"@) && feeds(content, j) >= k
}

/// Whether an option sets the position of a diagram to a value.
pub open spec fn sets_position(part: Seq<char>, v: Seq<char>) -> bool {
    exists|a: Seq<char>, b: Seq<char>|
        part == #[trigger] (a + seq!['='] + b) && !a.contains('=') && text::trim(a) == "pos"@
            && text::trim(b) == v
}

/// Whether an option of a line sets the position of a diagram to a value that is none.
pub open spec fn misplaces(line: Seq<char>, v: Seq<char>) -> bool {
    &&& v != "H"@ && v != "t"@ && v != "b"@ && v != "h"@ && v != "p"@
    &&& checks::option_text(line) matches Some(opts) && exists|i: int|
        0 <= i < text::split(opts, ',').len() && sets_position(
            #[trigger] text::split(opts, ',')[i],
            v,
        )
}

proof fn lemma_feeds_step(s: Seq<char>, a: int, b: int)
    requires
        0 <= a <= b,
    ensures
        feeds(s, a) <= feeds(s, b),
    decreases b - a,
{
    if a < b {
        lemma_feeds_step(s, a, b - 1);
    }
}

proof fn lemma_feeds_none(s: Seq<char>, a: int, b: int)
    requires
        0 <= a <= b <= s.len(),
        forall|i: int| a <= i < b ==> #[trigger] s[i] != '\n',
    ensures
        feeds(s, b) == feeds(s, a),
    decreases b - a,
{
    if a < b {
        lemma_feeds_none(s, a, b - 1);
        assert(s[b - 1] != '\n');
    }
}

/// What begins with the `k`-th line begins behind `k` line feeds.
proof fn lemma_from_line(content: Seq<char>, k: int) -> (p: int)
    requires
        0 <= k,
    ensures
        0 <= p <= content.len(),
        checks::from_line(content, k) == content.skip(p),
        p < content.len() ==> feeds(content, p) == k && (k > 0 ==> p > 0 && content[p - 1] == '\n'),
        p == content.len() ==> feeds(content, p) <= k,
        forall|j: int| 0 <= j < p ==> #[trigger] feeds(content, j) < k,
    decreases k,
{
    if k == 0 {
        assert(content.skip(0) =~= content);
        0
    } else {
        let q = lemma_from_line(content, k - 1);
        let before = content.skip(q);
        text::lemma_find_char_bounds(before, '\n', 0);
        match text::find_char(before, '\n') {
            Some(i) => {
                let p = q + i + 1;
                assert(before.skip(i + 1) =~= content.skip(p));
                assert(content[q + i] == '\n');
                assert forall|j: int| q <= j < q + i implies #[trigger] content[j] != '\n' by {
                    assert(before[j - q] == content[j]);
                }
                lemma_feeds_none(content, q, q + i);
                assert forall|j: int| 0 <= j < p implies #[trigger] feeds(content, j) < k by {
                    if j >= q {
                        lemma_feeds_step(content, j, q + i);
                    }
                }
                p
            },
            None => {
                let n = content.len() as int;
                assert forall|j: int| q <= j < n implies #[trigger] content[j] != '\n' by {
                    assert(before[j - q] == content[j]);
                }
                lemma_feeds_none(content, q, n);
                assert forall|j: int| 0 <= j < n implies #[trigger] feeds(content, j) < k by {
                    if j >= q {
                        lemma_feeds_step(content, j, n);
                    }
                }
                assert(content.skip(n) =~= Seq::<char>::empty());
                n
            },
        }
    }
}

proof fn lemma_closed(content: Seq<char>, env: Seq<char>, k: int)
    requires
        0 <= k,
    ensures
        checks::is_closed(content, env, k) <==> ends_behind(content, env, k),
{
    reveal_strlit("\\end{");
    let tag = "\\end{"@ + env + "}"@;
    let p = lemma_from_line(content, k);
    let t = content.skip(p);
    if checks::is_closed(content, env, k) {
        let i = choose|i: int| #[trigger] text::matches_at(t, i, tag);
        assert(mentions::stands(content, p + i, tag)) by {
            assert forall|m: int| 0 <= m < tag.len() implies content[p + i + m]
                == #[trigger] tag[m] by {
                assert(t.subrange(i, i + tag.len())[m] == t[i + m]);
            }
        }
        lemma_feeds_step(content, p, p + i);
        assert(tag.len() > 0);
    }
    if ends_behind(content, env, k) {
        let j = choose|j: int|
            #[trigger] mentions::stands(content, j, tag) && feeds(content, j) >= k;
        assert(p <= j);
        assert(t.subrange(j - p, j - p + tag.len()) =~= tag) by {
            assert forall|m: int| 0 <= m < tag.len() implies t[j - p + m] == #[trigger] tag[m] by {
                assert(content[j + m] == tag[m]);
            }
        }
        assert(text::matches_at(t, j - p, tag));
    }
}

proof fn lemma_pos_value(part: Seq<char>, v: Seq<char>)
    ensures
        checks::pos_value(part) == Some(v) <==> sets_position(part, v),
{
    text::lemma_find_char_bounds(part, '=', 0);
    if let Some(k) = text::find_char(part, '=') {
        let a = part.take(k);
        let b = part.skip(k + 1);
        assert(part =~= a + seq!['='] + b);
        assert(!a.contains('='));
    }
    if sets_position(part, v) {
        let (a, b) = choose|a: Seq<char>, b: Seq<char>|
            part == #[trigger] (a + seq!['='] + b) && !a.contains('=') && text::trim(a) == "pos"@
                && text::trim(b) == v;
        let n = a.len() as int;
        assert(part[n] == '=');
        if let Some(k) = text::find_char(part, '=') {
            if k < n {
                assert(a[k] == '=');
                assert(a.contains(a[k]));
            }
            assert(k == n);
        }
        assert(part.take(n) =~= a);
        assert(part.skip(n + 1) =~= b);
    }
}

/// The error about a position that is none.
pub open spec fn bad_position(
    rel: Seq<char>,
    line: int,
    env: Seq<char>,
    v: Seq<char>,
) -> FindingView {
    FindingView {
        file: rel,
        line,
        severity: Severity::Error,
        message: "\\begin{"@ + env + "} invalid pos='"@ + v + "' — valid values: H, t, b, h, p"@,
        suggestion: Some("Use pos=H, pos=t, pos=b, pos=h, or pos=p"@),
    }
}

/// The error about a diagram without an end.
pub open spec fn no_end(rel: Seq<char>, line: int, env: Seq<char>) -> FindingView {
    FindingView {
        file: rel,
        line,
        severity: Severity::Error,
        message: "\\begin{"@ + env + "} without matching \\end{"@ + env + "}"@,
        suggestion: Some("Add \\end{"@ + env + "}"@),
    }
}

proof fn lemma_two(a: Seq<FindingView>, b: Seq<FindingView>, x: FindingView)
    ensures
        (a + b).contains(x) <==> a.contains(x) || b.contains(x),
{
    let s = a + b;
    if a.contains(x) {
        let k = choose|k: int| 0 <= k < a.len() && a[k] == x;
        assert(s[k] == x);
    }
    if b.contains(x) {
        let k = choose|k: int| 0 <= k < b.len() && b[k] == x;
        assert(s[a.len() + k] == x);
    }
    if s.contains(x) {
        let k = choose|k: int| 0 <= k < s.len() && s[k] == x;
        if k < a.len() {
            assert(a[k] == x);
        } else {
            assert(b[k - a.len()] == x);
        }
    }
}

proof fn lemma_one(f: FindingView, x: FindingView)
    ensures
        seq![f].contains(x) <==> x == f,
{
    assert(seq![f][0] == f);
}

proof fn lemma_positions(
    rel: Seq<char>,
    line: int,
    env: Seq<char>,
    parts: Seq<Seq<char>>,
    k: int,
    x: FindingView,
)
    requires
        0 <= k,
    ensures
        checks::pos_findings(rel, line, env, parts, k).contains(x) <==> exists|j: int|
            k <= j < parts.len() && (checks::pos_value(#[trigger] parts[j]) matches Some(v)
                && !checks::is_valid_pos(v) && x == bad_position(rel, line, env, v)),
    decreases parts.len() - k,
{
    if k < parts.len() {
        lemma_positions(rel, line, env, parts, k + 1, x);
        if let Some(v) = checks::pos_value(parts[k]) {
            let f = bad_position(rel, line, env, v);
            lemma_two(seq![f], checks::pos_findings(rel, line, env, parts, k + 1), x);
            lemma_one(f, x);
        }
    }
}

proof fn lemma_misplaced(
    rel: Seq<char>,
    line: int,
    env: Seq<char>,
    t: Seq<char>,
    x: FindingView,
)
    ensures
        (match checks::option_text(t) {
            Some(opts) => checks::pos_findings(rel, line, env, text::split(opts, ','), 0),
            None => Seq::empty(),
        }).contains(x) <==> exists|v: Seq<char>| #[trigger]
            misplaces(t, v) && x == bad_position(rel, line, env, v),
{
    if let Some(opts) = checks::option_text(t) {
        let parts = text::split(opts, ',');
        lemma_positions(rel, line, env, parts, 0, x);
        if checks::pos_findings(rel, line, env, parts, 0).contains(x) {
            let j = choose|j: int|
                0 <= j < parts.len() && (checks::pos_value(#[trigger] parts[j]) matches Some(v)
                    && !checks::is_valid_pos(v) && x == bad_position(rel, line, env, v));
            let v = checks::pos_value(parts[j])->0;
            lemma_pos_value(parts[j], v);
            assert(sets_position(text::split(opts, ',')[j], v));
            assert(misplaces(t, v));
        }
        if exists|v: Seq<char>| #[trigger] misplaces(t, v) && x == bad_position(rel, line, env, v) {
            let v = choose|v: Seq<char>| #[trigger]
                misplaces(t, v) && x == bad_position(rel, line, env, v);
            let i = choose|i: int|
                0 <= i < parts.len() && sets_position(#[trigger] parts[i], v);
            lemma_pos_value(parts[i], v);
            assert(checks::pos_value(parts[i]) == Some(v));
        }
    }
}

/// Of every diagram of a kind it is told on the line where it begins that its end stands
/// nowhere behind, and that its position is none of the known ones; and nothing else.
pub proof fn law_broken_diagrams_are_told(
    rel: Seq<char>,
    content: Seq<char>,
    env: Seq<char>,
    k: int,
    x: FindingView,
)
    requires
        0 <= k,
    ensures
        checks::diagram_findings(rel, content, env, k).contains(x) <==> exists|n: int|
            k <= n < text::lines(content).len() && listing::has_tag(
                #[trigger] text::lines(content)[n],
                "\\begin{"@ + env + "}"@,
            ) && {
                ||| !ends_behind(content, env, n) && x == no_end(rel, n + 1, env)
                ||| exists|v: Seq<char>| #[trigger]
                    misplaces(text::trim(text::lines(content)[n]), v) && x == bad_position(
                        rel,
                        n + 1,
                        env,
                        v,
                    )
            },
    decreases text::lines(content).len() - k,
{
    let ls = text::lines(content);
    if k < ls.len() {
        law_broken_diagrams_are_told(rel, content, env, k + 1, x);
        let t = text::trim(ls[k]);
        reveal_strlit("\\begin{");
        reveal_strlit("}");
        let tag = "\\begin{"@ + env + "}"@;
        assert(tag[0] == '\\');
        assert(tag.last() == '}');
        listing::lemma_tag_of_trim(ls[k], tag);
        lemma_closed(content, env, k);
        lemma_misplaced(rel, k + 1, env, t, x);
        let a = if checks::is_closed(content, env, k) {
            Seq::empty()
        } else {
            seq![no_end(rel, k + 1, env)]
        };
        let b = match checks::option_text(t) {
            Some(opts) => checks::pos_findings(rel, k + 1, env, text::split(opts, ','), 0),
            None => Seq::empty(),
        };
        assert(checks::block_findings(rel, content, env, t, k) == a + b);
        lemma_two(a, b, x);
        lemma_one(no_end(rel, k + 1, env), x);
        lemma_two(a + b, checks::diagram_findings(rel, content, env, k + 1), x);
    }
}

// ---------------------------------------------------------------------------
// The engine
// ---------------------------------------------------------------------------

/// Whether the preamble of a file has a command with a name: one that stands before
/// `\begin{document}`. A last argument may be asked for too.
pub open spec fn has_in_preamble(
    content: Seq<char>,
    name: Seq<char>,
    last: Option<Seq<char>>,
) -> bool {
    exists|k: int| #[trigger] is_in_preamble(texparse::tokens_of(content), k, name, last)
}

/// Whether the `k`-th token is such a command.
pub open spec fn is_in_preamble(
    ts: Seq<TokenView>,
    k: int,
    name: Seq<char>,
    last: Option<Seq<char>>,
) -> bool {
    &&& 0 <= k < ts.len()
    &&& forall|j: int| 0 <= j < k ==> !(#[trigger] ts[j] is BeginDocument)
    &&& ts[k] matches TokenView::Command { name: n, args } && n == name && (last matches Some(a)
        ==> args.len() > 0 && args.last() == a)
}

/// Whether the preamble of any of the files has such a command.
pub open spec fn asks(
    files: Seq<(Seq<char>, Seq<char>)>,
    name: Seq<char>,
    last: Option<Seq<char>>,
) -> bool {
    exists|f: int| 0 <= f < files.len() && has_in_preamble((#[trigger] files[f]).1, name, last)
}

spec fn is_trigger(
    t: engine::TriggerView,
    name: Seq<char>,
    last: Option<Seq<char>>,
) -> bool {
    match t {
        engine::TriggerView::Package(p) => name == "usepackage"@ && last == Some(p),
        engine::TriggerView::Command(c) => name == c && last is None,
        engine::TriggerView::CommandWithArg(c, a) => name == c && last == Some(a),
    }
}

proof fn lemma_hit_in(
    t: engine::TriggerView,
    source: Seq<char>,
    k: int,
    name: Seq<char>,
    last: Option<Seq<char>>,
)
    requires
        is_trigger(t, name, last),
        0 <= k,
        forall|j: int|
            0 <= j < k && j < texparse::tokens_of(source).len()
                ==> !(#[trigger] texparse::tokens_of(source)[j] is BeginDocument),
    ensures
        engine::hit_in(t, source, texparse::scan_source(source).tokens, k) is Some
            <==> exists|j: int|
            k <= j && #[trigger] is_in_preamble(texparse::tokens_of(source), j, name, last),
    decreases texparse::tokens_of(source).len() - k,
{
    let spanned = texparse::scan_source(source).tokens;
    let ts = texparse::tokens_of(source);
    assert(ts.len() == spanned.len());
    if k < ts.len() {
        assert(ts[k] == spanned[k].token);
        match ts[k] {
            TokenView::BeginDocument => {
                assert forall|j: int| k <= j implies !#[trigger] is_in_preamble(
                    ts,
                    j,
                    name,
                    last,
                ) by {
                    if j > k {
                        assert(ts[k] is BeginDocument);
                    }
                }
            },
            TokenView::Command { name: n, args } => {
                if engine::satisfies(t, n, args) {
                    assert(is_in_preamble(ts, k, name, last));
                } else {
                    lemma_hit_in(t, source, k + 1, name, last);
                    assert(!is_in_preamble(ts, k, name, last));
                }
            },
            _ => {
                lemma_hit_in(t, source, k + 1, name, last);
                assert(!is_in_preamble(ts, k, name, last));
            },
        }
    }
}

proof fn lemma_hit(
    t: engine::TriggerView,
    files: Seq<(Seq<char>, Seq<char>)>,
    k: int,
    name: Seq<char>,
    last: Option<Seq<char>>,
)
    requires
        is_trigger(t, name, last),
        0 <= k,
    ensures
        engine::hit(t, files, k) is Some <==> exists|f: int|
            k <= f < files.len() && has_in_preamble((#[trigger] files[f]).1, name, last),
    decreases files.len() - k,
{
    if k < files.len() {
        lemma_hit(t, files, k + 1, name, last);
        lemma_hit_in(t, files[k].1, 0, name, last);
        let ts = texparse::tokens_of(files[k].1);
        if has_in_preamble(files[k].1, name, last) {
            let j = choose|j: int| #[trigger] is_in_preamble(ts, j, name, last);
            assert(0 <= j && is_in_preamble(ts, j, name, last));
        }
        if engine::hit_in(t, files[k].1, texparse::scan_source(files[k].1).tokens, 0) is Some {
            let j = choose|j: int| 0 <= j && #[trigger] is_in_preamble(ts, j, name, last);
            assert(has_in_preamble(files[k].1, name, last));
        }
    }
}

/// Whether findings hold one with a severity and a suggestion.
pub open spec fn suggests(
    findings: Seq<FindingView>,
    severity: Severity,
    suggestion: Seq<char>,
) -> bool {
    exists|k: int|
        0 <= k < findings.len() && (#[trigger] findings[k]).severity == severity
            && findings[k].suggestion == Some(suggestion)
}

spec fn is_fired(files: Seq<(Seq<char>, Seq<char>)>, k: int) -> bool {
    engine::fires(engine::rules()[k], files)
}

proof fn lemma_rules(files: Seq<(Seq<char>, Seq<char>)>, k: int, j: int)
    requires
        0 <= k <= j < engine::rules().len(),
    ensures
        is_fired(files, j) ==> suggests(
            engine::findings_from(engine::rules(), files, k),
            engine::rules()[j].severity,
            engine::rules()[j].suggestion,
        ),
    decreases engine::rules().len() - k,
{
    let rs = engine::rules();
    let all = engine::findings_from(rs, files, k);
    let rest = engine::findings_from(rs, files, k + 1);
    if k < j {
        lemma_rules(files, k + 1, j);
        if is_fired(files, j) {
            let i = choose|i: int|
                0 <= i < rest.len() && (#[trigger] rest[i]).severity == rs[j].severity
                    && rest[i].suggestion == Some(rs[j].suggestion);
            if engine::fires(rs[k], files) {
                assert(all[i + 1] == rest[i]);
            } else {
                assert(all[i] == rest[i]);
            }
        }
    } else if is_fired(files, j) {
        assert(all[0] == engine::rule_finding(rs[k], files));
    }
}

proof fn lemma_rules_only(
    files: Seq<(Seq<char>, Seq<char>)>,
    k: int,
    severity: Severity,
    suggestion: Seq<char>,
)
    requires
        0 <= k,
    ensures
        suggests(engine::findings_from(engine::rules(), files, k), severity, suggestion)
            ==> exists|j: int|
            k <= j < engine::rules().len() && #[trigger] is_fired(files, j)
                && engine::rules()[j].severity == severity && engine::rules()[j].suggestion
                == suggestion,
    decreases engine::rules().len() - k,
{
    let rs = engine::rules();
    if k < rs.len() {
        lemma_rules_only(files, k + 1, severity, suggestion);
        let all = engine::findings_from(rs, files, k);
        let rest = engine::findings_from(rs, files, k + 1);
        if suggests(all, severity, suggestion) {
            let i = choose|i: int|
                0 <= i < all.len() && (#[trigger] all[i]).severity == severity
                    && all[i].suggestion == Some(suggestion);
            if engine::fires(rs[k], files) {
                if i == 0 {
                    assert(is_fired(files, k));
                } else {
                    assert(rest[i - 1] == all[i]);
                    assert(suggests(rest, severity, suggestion));
                }
            } else {
                assert(suggests(rest, severity, suggestion));
            }
        }
    }
}

proof fn lemma_suggestions()
    ensures
        "Remove the \\usepackage{inputenc} line"@
            != "Convert the .eps files to PDF or PNG and \\includegraphics those instead"@,
        "Remove \\DisableLigatures from the preamble"@
            != "Remove the \\setmainfont line and use the engine's bundled Latin Modern instead"@,
{
    reveal_strlit("Remove the \\usepackage{inputenc} line");
    reveal_strlit("Convert the .eps files to PDF or PNG and \\includegraphics those instead");
    reveal_strlit("Remove \\DisableLigatures from the preamble");
    reveal_strlit("Remove the \\setmainfont line and use the engine's bundled Latin Modern instead");
    assert("Remove the \\usepackage{inputenc} line"@[0] == 'R');
    assert("Convert the .eps files to PDF or PNG and \\includegraphics those instead"@[0] == 'C');
    assert("Remove \\DisableLigatures from the preamble"@[7] == '\\');
    assert("Remove the \\setmainfont line and use the engine's bundled Latin Modern instead"@[7]
        == 't');
}

/// It is told of a document, once its preamble asks for them in whatever file, that the
/// engine ignores one package, cannot serve another, and fails on two combinations; and only
/// then.
pub proof fn law_engine_troubles_are_told(files: Seq<(Seq<char>, Seq<char>)>)
    ensures
        ({
            let found = engine::engine_findings(files);
            &&& suggests(found, Severity::Warning, "Remove the \\usepackage{inputenc} line"@)
                <==> asks(files, "usepackage"@, Some("inputenc"@))
            &&& suggests(
                found,
                Severity::Warning,
                "Convert the .eps files to PDF or PNG and \\includegraphics those instead"@,
            ) <==> asks(files, "usepackage"@, Some("epstopdf"@))
            &&& suggests(found, Severity::Error, "Remove \\DisableLigatures from the preamble"@)
                <==> asks(files, "usepackage"@, Some("microtype"@)) && asks(
                files,
                "DisableLigatures"@,
                None,
            )
            &&& suggests(
                found,
                Severity::Error,
                "Remove the \\setmainfont line and use the engine's bundled Latin Modern instead"@,
            ) <==> asks(files, "usepackage"@, Some("fontspec"@)) && asks(
                files,
                "setmainfont"@,
                Some("Latin Modern Roman"@),
            )
        }),
{
    lemma_suggestions();
    let rs = engine::rules();
    let t0 = rs[0].triggers;
    let t1 = rs[1].triggers;
    let t2 = rs[2].triggers;
    let t3 = rs[3].triggers;
    lemma_hit(t0[0], files, 0, "usepackage"@, Some("inputenc"@));
    lemma_hit(t1[0], files, 0, "usepackage"@, Some("epstopdf"@));
    lemma_hit(t2[0], files, 0, "usepackage"@, Some("microtype"@));
    lemma_hit(t2[1], files, 0, "DisableLigatures"@, None);
    lemma_hit(t3[0], files, 0, "usepackage"@, Some("fontspec"@));
    lemma_hit(t3[1], files, 0, "setmainfont"@, Some("Latin Modern Roman"@));
    assert(is_fired(files, 0) <==> engine::hit(t0[0], files, 0) is Some);
    assert(is_fired(files, 1) <==> engine::hit(t1[0], files, 0) is Some);
    assert(is_fired(files, 2) <==> engine::hit(t2[0], files, 0) is Some && engine::hit(
        t2[1],
        files,
        0,
    ) is Some);
    assert(is_fired(files, 3) <==> engine::hit(t3[0], files, 0) is Some && engine::hit(
        t3[1],
        files,
        0,
    ) is Some);
    lemma_rules(files, 0, 0);
    lemma_rules(files, 0, 1);
    lemma_rules(files, 0, 2);
    lemma_rules(files, 0, 3);
    lemma_rules_only(files, 0, rs[0].severity, rs[0].suggestion);
    lemma_rules_only(files, 0, rs[1].severity, rs[1].suggestion);
    lemma_rules_only(files, 0, rs[2].severity, rs[2].suggestion);
    lemma_rules_only(files, 0, rs[3].severity, rs[3].suggestion);
}

} // verus!
