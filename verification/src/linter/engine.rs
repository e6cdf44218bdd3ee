//! Constructs that the engine ignores or that break the build.
//!
//! Documents are compiled with Tectonic, a XeTeX engine. Each rule lists the constructs
//! that must all be present in the preambles, and names the engine and the consequence
//! in its message.

use vstd::prelude::*;

use super::spell;
use super::{FindingView, LintFinding, Severity};
use crate::position;
use crate::text::{self, chars_of};
use crate::texparse::{self, SpannedView, Token, TokenView, TokenizedSource};

verus! {

broadcast use super::lemma_findings_push;

/// A LaTeX construct that a rule can require.
#[derive(Debug, Clone, Copy)]
pub enum TriggerKind {
    /// `\usepackage{name}`, with any options.
    Package(&'static str),
    /// The command `\name`, with or without arguments.
    Command(&'static str),
    /// `\command{arg}` whose last argument is `arg`.
    CommandWithArg(&'static str, &'static str),
}

/// What a [`TriggerKind`] says.
pub enum TriggerView {
    Package(Seq<char>),
    Command(Seq<char>),
    CommandWithArg(Seq<char>, Seq<char>),
}

impl View for TriggerKind {
    type V = TriggerView;

    open spec fn view(&self) -> TriggerView {
        match self {
            TriggerKind::Package(p) => TriggerView::Package(p@),
            TriggerKind::Command(c) => TriggerView::Command(c@),
            TriggerKind::CommandWithArg(c, a) => TriggerView::CommandWithArg(c@, a@),
        }
    }
}

/// One rule.
#[derive(Debug)]
pub struct EngineRule {
    /// Ignored constructs are warnings; those that break the build are errors.
    pub severity: Severity,
    /// The constructs that must all be present. The last one gives the finding its place.
    pub triggers: Vec<TriggerKind>,
    pub message: &'static str,
    pub suggestion: &'static str,
}

/// What an [`EngineRule`] says.
#[verifier::ext_equal]
pub struct RuleView {
    pub severity: Severity,
    pub triggers: Seq<TriggerView>,
    pub message: Seq<char>,
    pub suggestion: Seq<char>,
}

/// What a sequence of triggers says.
pub open spec fn trigger_views(v: Seq<TriggerKind>) -> Seq<TriggerView> {
    Seq::new(v.len(), |k: int| v[k]@)
}

impl View for EngineRule {
    type V = RuleView;

    open spec fn view(&self) -> RuleView {
        RuleView {
            severity: self.severity,
            triggers: trigger_views(self.triggers@),
            message: self.message@,
            suggestion: self.suggestion@,
        }
    }
}

/// What a sequence of rules says.
pub open spec fn rule_views(v: Seq<EngineRule>) -> Seq<RuleView> {
    Seq::new(v.len(), |k: int| v[k]@)
}

/// The rules.
pub open spec fn rules() -> Seq<RuleView> {
    seq![
        RuleView {
            severity: Severity::Warning,
            triggers: seq![TriggerView::Package("inputenc"@)],
            message: "\\usepackage{inputenc} is ignored under Tectonic (a XeTeX engine): it always reads UTF-8 source, so the package does nothing"@,
            suggestion: "Remove the \\usepackage{inputenc} line"@,
        },
        RuleView {
            severity: Severity::Warning,
            triggers: seq![TriggerView::Package("epstopdf"@)],
            message: "\\usepackage{epstopdf} will not work under Tectonic (a XeTeX engine): epstopdf supports only the pdfTeX and LuaTeX drivers, so included .eps graphics are not converted to a renderable format"@,
            suggestion: "Convert the .eps files to PDF or PNG and \\includegraphics those instead"@,
        },
        RuleView {
            severity: Severity::Error,
            triggers: seq![
                TriggerView::Package("microtype"@),
                TriggerView::Command("DisableLigatures"@),
            ],
            message: "\\DisableLigatures breaks the build under Tectonic (a XeTeX engine): microtype cannot disable a font's ligatures there — XeTeX aborts with 'Disabling ligatures of a font is only possible'"@,
            suggestion: "Remove \\DisableLigatures from the preamble"@,
        },
        RuleView {
            severity: Severity::Error,
            triggers: seq![
                TriggerView::Package("fontspec"@),
                TriggerView::CommandWithArg("setmainfont"@, "Latin Modern Roman"@),
            ],
            message: "\\setmainfont{Latin Modern Roman} breaks the build under Tectonic (a XeTeX engine): Tectonic ships no system fonts, so XeTeX aborts with 'The font ... cannot be found'"@,
            suggestion: "Remove the \\setmainfont line and use the engine's bundled Latin Modern instead"@,
        },
    ]
}

fn one_trigger(a: TriggerKind) -> (r: Vec<TriggerKind>)
    ensures
        trigger_views(r@) == seq![a@],
{
    let mut v: Vec<TriggerKind> = Vec::new();
    v.push(a);
    assert(trigger_views(v@) =~= seq![a@]);
    v
}

fn two_triggers(a: TriggerKind, b: TriggerKind) -> (r: Vec<TriggerKind>)
    ensures
        trigger_views(r@) == seq![a@, b@],
{
    let mut v: Vec<TriggerKind> = Vec::new();
    v.push(a);
    v.push(b);
    assert(trigger_views(v@) =~= seq![a@, b@]);
    v
}

/// The rules. A new construct is one more entry here.
pub fn engine_rules() -> (r: Vec<EngineRule>)
    ensures
        rule_views(r@) == rules(),
{
    let mut v: Vec<EngineRule> = Vec::new();
    v.push(
        EngineRule {
            severity: Severity::Warning,
            triggers: one_trigger(TriggerKind::Package("inputenc")),
            message: "\\usepackage{inputenc} is ignored under Tectonic (a XeTeX engine): it always reads UTF-8 source, so the package does nothing",
            suggestion: "Remove the \\usepackage{inputenc} line",
        },
    );
    v.push(
        EngineRule {
            severity: Severity::Warning,
            triggers: one_trigger(TriggerKind::Package("epstopdf")),
            message: "\\usepackage{epstopdf} will not work under Tectonic (a XeTeX engine): epstopdf supports only the pdfTeX and LuaTeX drivers, so included .eps graphics are not converted to a renderable format",
            suggestion: "Convert the .eps files to PDF or PNG and \\includegraphics those instead",
        },
    );
    v.push(
        EngineRule {
            severity: Severity::Error,
            triggers: two_triggers(
                TriggerKind::Package("microtype"),
                TriggerKind::Command("DisableLigatures"),
            ),
            message: "\\DisableLigatures breaks the build under Tectonic (a XeTeX engine): microtype cannot disable a font's ligatures there — XeTeX aborts with 'Disabling ligatures of a font is only possible'",
            suggestion: "Remove \\DisableLigatures from the preamble",
        },
    );
    v.push(
        EngineRule {
            severity: Severity::Error,
            triggers: two_triggers(
                TriggerKind::Package("fontspec"),
                TriggerKind::CommandWithArg("setmainfont", "Latin Modern Roman"),
            ),
            message: "\\setmainfont{Latin Modern Roman} breaks the build under Tectonic (a XeTeX engine): Tectonic ships no system fonts, so XeTeX aborts with 'The font ... cannot be found'",
            suggestion: "Remove the \\setmainfont line and use the engine's bundled Latin Modern instead",
        },
    );
    assert(rule_views(v@) =~= rules());
    v
}

/// Whether a command satisfies a trigger.
pub open spec fn satisfies(t: TriggerView, name: Seq<char>, args: Seq<Seq<char>>) -> bool {
    match t {
        TriggerView::Package(p) => name == "usepackage"@ && args.len() > 0 && args.last() == p,
        TriggerView::Command(c) => name == c,
        TriggerView::CommandWithArg(c, a) => name == c && args.len() > 0 && args.last() == a,
    }
}

/// The line of the first command in a preamble, from the `k`-th token on, that
/// satisfies a trigger.
pub open spec fn hit_in(
    t: TriggerView,
    source: Seq<char>,
    tokens: Seq<SpannedView>,
    k: int,
) -> Option<int>
    decreases tokens.len() - k,
{
    if k < 0 || k >= tokens.len() {
        None
    } else {
        match tokens[k].token {
            TokenView::BeginDocument => None,
            TokenView::Command { name, args } => if satisfies(t, name, args) {
                Some(position::line_at_byte(source, tokens[k].start))
            } else {
                hit_in(t, source, tokens, k + 1)
            },
            _ => hit_in(t, source, tokens, k + 1),
        }
    }
}

/// The file and line of the first command in the preambles of the files, from the
/// `k`-th file on, that satisfies a trigger.
pub open spec fn hit(t: TriggerView, files: Seq<(Seq<char>, Seq<char>)>, k: int) -> Option<
    (Seq<char>, int),
>
    decreases files.len() - k,
{
    if k < 0 || k >= files.len() {
        None
    } else {
        match hit_in(t, files[k].1, texparse::scan_source(files[k].1).tokens, 0) {
            Some(line) => Some((files[k].0, line)),
            None => hit(t, files, k + 1),
        }
    }
}

/// Whether a rule fires: each of its triggers is satisfied somewhere.
pub open spec fn fires(r: RuleView, files: Seq<(Seq<char>, Seq<char>)>) -> bool {
    forall|j: int| 0 <= j < r.triggers.len() ==> hit(#[trigger] r.triggers[j], files, 0) is Some
}

/// The finding of a rule, at the place of its last trigger.
pub open spec fn rule_finding(r: RuleView, files: Seq<(Seq<char>, Seq<char>)>) -> FindingView {
    let place = hit(r.triggers.last(), files, 0)->0;
    super::advice(place.0, place.1, r.severity, r.message, r.suggestion)
}

/// The findings of the rules from the `k`-th on.
pub open spec fn findings_from(
    rs: Seq<RuleView>,
    files: Seq<(Seq<char>, Seq<char>)>,
    k: int,
) -> Seq<FindingView>
    decreases rs.len() - k,
{
    if k < 0 || k >= rs.len() {
        Seq::empty()
    } else if fires(rs[k], files) {
        seq![rule_finding(rs[k], files)] + findings_from(rs, files, k + 1)
    } else {
        findings_from(rs, files, k + 1)
    }
}

/// The findings about the engine: each rule at most once.
pub open spec fn engine_findings(files: Seq<(Seq<char>, Seq<char>)>) -> Seq<FindingView> {
    findings_from(rules(), files, 0)
}

fn last_is(args: &Vec<String>, x: &str) -> (r: bool)
    ensures
        r == (args@.len() > 0 && text::texts(args@).last() == x@),
{
    let n: usize = args.len();
    if n == 0 {
        return false;
    }
    assert(text::texts(args@).last() == args@[n - 1]@);
    text::same_str(args[n - 1].as_str(), x)
}

/// Whether one command satisfies a trigger.
fn trigger_matches(t: &TriggerKind, name: &str, args: &Vec<String>) -> (r: bool)
    ensures
        r == satisfies(t@, name@, text::texts(args@)),
{
    match t {
        TriggerKind::Package(p) => text::same_str(name, "usepackage") && last_is(args, *p),
        TriggerKind::Command(c) => text::same_str(name, *c),
        TriggerKind::CommandWithArg(c, a) => text::same_str(name, *c) && last_is(args, *a),
    }
}

fn find_in(t: &TriggerKind, source: &str, tokenized: &TokenizedSource) -> (r: Option<usize>)
    requires
        tokenized@ == texparse::scan_source(source@),
    ensures
        match r {
            Some(n) => hit_in(t@, source@, tokenized@.tokens, 0) == Some(n as int),
            None => hit_in(t@, source@, tokenized@.tokens, 0) is None,
        },
{
    let ghost tokens = tokenized@.tokens;
    let mut k: usize = 0;
    while k < tokenized.tokens.len()
        invariant
            k <= tokenized.tokens@.len(),
            tokens == texparse::spanned_views(tokenized.tokens@),
            hit_in(t@, source@, tokens, 0) == hit_in(t@, source@, tokens, k as int),
        decreases tokenized.tokens@.len() - k,
    {
        assert(tokens[k as int] == tokenized.tokens@[k as int]@);
        match &tokenized.tokens[k].token {
            Token::BeginDocument => {
                return None;
            },
            Token::Command { name, args } => {
                if trigger_matches(t, name.as_str(), args) {
                    let src = chars_of(source);
                    return Some(position::line_of_byte(src.as_slice(), tokenized.tokens[k].start as u128));
                }
            },
            _ => {},
        }
        k = k + 1;
    }
    None
}

spec fn scanned(files: Seq<(String, String)>, scans: Seq<TokenizedSource>) -> bool {
    &&& scans.len() == files.len()
    &&& forall|k: int|
        0 <= k < files.len() ==> (#[trigger] scans[k])@ == texparse::scan_source(files[k].1@)
}

fn find_hit(
    t: &TriggerKind,
    files: &Vec<(String, String)>,
    scans: &Vec<TokenizedSource>,
) -> (r: Option<(usize, usize)>)
    requires
        scanned(files@, scans@),
    ensures
        match r {
            Some((k, line)) => k < files@.len() && hit(t@, spell::files_view(files@), 0) == Some(
                (files@[k as int].0@, line as int),
            ),
            None => hit(t@, spell::files_view(files@), 0) is None,
        },
{
    let ghost all = spell::files_view(files@);
    let mut k: usize = 0;
    while k < files.len()
        invariant
            k <= files@.len(),
            scanned(files@, scans@),
            all == spell::files_view(files@),
            hit(t@, all, 0) == hit(t@, all, k as int),
        decreases files@.len() - k,
    {
        assert(all[k as int] == (files@[k as int].0@, files@[k as int].1@));
        assert(scans@[k as int]@ == texparse::scan_source(files@[k as int].1@));
        if let Some(line) = find_in(t, files[k].1.as_str(), &scans[k]) {
            return Some((k, line));
        }
        k = k + 1;
    }
    None
}

/// Lint files against the engine rules: pairs of a name and a source, in the order in
/// which `\input` reaches them. The triggers of a rule may be spread over files, and
/// each rule gives at most one finding.
pub fn lint_files(files: &Vec<(String, String)>) -> (r: Vec<LintFinding>)
    ensures
        super::findings_view(r@) == engine_findings(spell::files_view(files@)),
{
    let ghost all = spell::files_view(files@);
    let mut scans: Vec<TokenizedSource> = Vec::new();
    let mut i: usize = 0;
    while i < files.len()
        invariant
            i <= files@.len(),
            scans@.len() == i,
            forall|k: int|
                0 <= k < i ==> (#[trigger] scans@[k])@ == texparse::scan_source(files@[k].1@),
        decreases files@.len() - i,
    {
        scans.push(texparse::tokenize_with_spans(files[i].1.as_str()));
        i = i + 1;
    }
    let list = engine_rules();
    let ghost rs = rules();
    let mut out: Vec<LintFinding> = Vec::new();
    let mut k: usize = 0;
    assert(super::findings_view(out@) + findings_from(rs, all, 0) =~= engine_findings(all));
    while k < list.len()
        invariant
            k <= list@.len(),
            rs == rules(),
            rs == rule_views(list@),
            all == spell::files_view(files@),
            scanned(files@, scans@),
            super::findings_view(out@) + findings_from(rs, all, k as int) == engine_findings(all),
        decreases list@.len() - k,
    {
        let ghost done = super::findings_view(out@);
        let rule = &list[k];
        let ghost view = rs[k as int];
        assert(view == rule@);
        let mut j: usize = 0;
        let mut place: Option<(usize, usize)> = None;
        let mut all_hit = true;
        while j < rule.triggers.len() && all_hit
            invariant
                j <= rule.triggers@.len(),
                view == rule@,
                all == spell::files_view(files@),
                scanned(files@, scans@),
                all_hit ==> forall|m: int|
                    0 <= m < j ==> hit(#[trigger] view.triggers[m], all, 0) is Some,
                !all_hit ==> !fires(view, all),
                all_hit && j > 0 ==> match place {
                    Some((f, line)) => f < files@.len() && hit(view.triggers[j - 1], all, 0)
                        == Some((files@[f as int].0@, line as int)),
                    None => false,
                },
            decreases rule.triggers@.len() - j,
        {
            assert(view.triggers[j as int] == rule.triggers@[j as int]@);
            place = find_hit(&rule.triggers[j], files, &scans);
            if place.is_none() {
                assert(hit(view.triggers[j as int], all, 0) is None);
                all_hit = false;
            }
            j = j + 1;
        }
        assert(rs[k as int].triggers.len() > 0);
        if all_hit {
            if let Some((f, line)) = place {
                assert(view.triggers.last() == view.triggers[j - 1]);
                let finding = super::advise(
                    files[f].0.as_str(),
                    line,
                    rule.severity,
                    text::lit(rule.message),
                    text::lit(rule.suggestion),
                );
                assert(finding@ == rule_finding(view, all));
                assert(done + (seq![finding@] + findings_from(rs, all, k + 1)) =~= done.push(
                    finding@,
                ) + findings_from(rs, all, k + 1));
                out.push(finding);
            }
        }
        k = k + 1;
    }
    assert(super::findings_view(out@) + findings_from(rs, all, k as int) =~= super::findings_view(
        out@,
    ));
    out
}

// ---------------------------------------------------------------------------
// Laws
// ---------------------------------------------------------------------------

/// Only the preamble of a file is looked at: whatever stands behind `\begin{document}`
/// satisfies no trigger.
pub proof fn law_only_the_preamble_counts(
    t: TriggerView,
    source: Seq<char>,
    tokens: Seq<SpannedView>,
    k: int,
    b: int,
)
    requires
        0 <= k <= b < tokens.len(),
        tokens[b].token is BeginDocument,
    ensures
        hit_in(t, source, tokens, k) == hit_in(t, source, tokens.take(b), k),
    decreases b - k,
{
    if k < b {
        assert(tokens.take(b)[k] == tokens[k]);
        law_only_the_preamble_counts(t, source, tokens, k + 1, b);
    }
}

proof fn lemma_findings_from(rs: Seq<RuleView>, files: Seq<(Seq<char>, Seq<char>)>, k: int)
    requires
        0 <= k <= rs.len(),
    ensures
        findings_from(rs, files, k).len() <= rs.len() - k,
    decreases rs.len() - k,
{
    if k < rs.len() {
        lemma_findings_from(rs, files, k + 1);
    }
}

/// No rule is reported twice, however many files satisfy it.
pub proof fn law_rules_fire_once(files: Seq<(Seq<char>, Seq<char>)>)
    ensures
        engine_findings(files).len() <= rules().len(),
{
    lemma_findings_from(rules(), files, 0);
}

} // verus!
