//! The `check` command: what the linter found, and whether that is a failure.

use vstd::prelude::*;

use crate::linter::{self, FindingView, LintFinding, Severity};
use crate::number;
use crate::text;

verus! {

/// How many of the first `k` findings are of a severity.
pub open spec fn count_of(findings: Seq<FindingView>, severity: Severity, k: int) -> nat
    decreases k,
{
    if k <= 0 || k > findings.len() {
        0
    } else {
        count_of(findings, severity, k - 1) + if findings[k - 1].severity == severity {
            1nat
        } else {
            0
        }
    }
}

/// The lines on a finding.
pub open spec fn finding_text(f: FindingView) -> Seq<char> {
    "  "@ + f.severity.name() + " ["@ + f.file + ":"@ + number::decimal(f.line as nat) + "]\n    "@
        + f.message + "\n"@ + (match f.suggestion {
        Some(s) => "    suggestion: "@ + s + "\n"@,
        None => Seq::empty(),
    }) + "\n"@
}

/// The lines on those of the first `k` findings that are of a severity.
pub open spec fn finding_texts(findings: Seq<FindingView>, severity: Severity, k: int) -> Seq<char>
    decreases k,
{
    if k <= 0 || k > findings.len() {
        Seq::empty()
    } else if findings[k - 1].severity == severity {
        finding_texts(findings, severity, k - 1) + finding_text(findings[k - 1])
    } else {
        finding_texts(findings, severity, k - 1)
    }
}

/// The part of the report on one severity; nothing where there is no such finding.
pub open spec fn severity_text(findings: Seq<FindingView>, severity: Severity) -> Seq<char> {
    let n = findings.len() as int;
    if count_of(findings, severity, n) == 0 {
        Seq::empty()
    } else {
        severity.name() + "S ("@ + number::decimal(count_of(findings, severity, n)) + ")\n"@
            + finding_texts(findings, severity, n)
    }
}

/// The report on findings: errors first.
pub open spec fn findings_text(findings: Seq<FindingView>) -> Seq<char> {
    if findings.len() == 0 {
        "  ◇ No issues found\n"@
    } else {
        "\n"@ + severity_text(findings, Severity::Error) + severity_text(
            findings,
            Severity::Warning,
        )
    }
}

/// Whether findings are a failure: errors always are, warnings where they are denied.
pub open spec fn fails(findings: Seq<FindingView>, deny_warnings: bool) -> bool {
    let n = findings.len() as int;
    count_of(findings, Severity::Error, n) > 0 || (deny_warnings && count_of(
        findings,
        Severity::Warning,
        n,
    ) > 0)
}

/// How many issues a failure reports: all findings where warnings are denied.
pub open spec fn issues(findings: Seq<FindingView>, deny_warnings: bool) -> nat {
    if deny_warnings {
        findings.len()
    } else {
        count_of(findings, Severity::Error, findings.len() as int)
    }
}

fn describe(f: &LintFinding) -> (r: String)
    ensures
        r@ == finding_text(f@),
{
    let mut out = text::cat5("  ", f.severity.to_string().as_str(), " [", f.file.as_str(), ":");
    text::push(&mut out, number::show_size(f.line).as_str());
    text::push(&mut out, "]\n    ");
    text::push(&mut out, f.message.as_str());
    text::push(&mut out, "\n");
    let ghost head = out@;
    match &f.suggestion {
        Some(s) => {
            text::push(&mut out, "    suggestion: ");
            text::push(&mut out, s.as_str());
            text::push(&mut out, "\n");
            assert(out@ =~= head + ("    suggestion: "@ + s@ + "\n"@));
        },
        None => {
            assert(out@ =~= head + Seq::<char>::empty());
        },
    }
    text::push(&mut out, "\n");
    out
}

/// The number of findings of a severity.
pub fn count(findings: &Vec<LintFinding>, severity: Severity) -> (r: usize)
    ensures
        r == count_of(linter::findings_view(findings@), severity, findings@.len() as int),
{
    let ghost all = linter::findings_view(findings@);
    let mut n: usize = 0;
    let mut k: usize = 0;
    while k < findings.len()
        invariant
            n <= k <= findings@.len(),
            all == linter::findings_view(findings@),
            n == count_of(all, severity, k as int),
        decreases findings@.len() - k,
    {
        assert(all[k as int] == findings@[k as int]@);
        if findings[k].severity == severity {
            n = n + 1;
        }
        k = k + 1;
    }
    n
}

fn describe_severity(findings: &Vec<LintFinding>, severity: Severity) -> (r: String)
    ensures
        r@ == severity_text(linter::findings_view(findings@), severity),
{
    let ghost all = linter::findings_view(findings@);
    let n = count(findings, severity);
    if n == 0 {
        return String::new();
    }
    let head = text::cat4(
        severity.to_string().as_str(),
        "S (",
        number::show_size(n).as_str(),
        ")\n",
    );
    let mut out = text::lit(head.as_str());
    let mut k: usize = 0;
    assert(head@ + finding_texts(all, severity, 0) =~= head@);
    while k < findings.len()
        invariant
            k <= findings@.len(),
            all == linter::findings_view(findings@),
            out@ == head@ + finding_texts(all, severity, k as int),
        decreases findings@.len() - k,
    {
        assert(all[k as int] == findings@[k as int]@);
        if findings[k].severity == severity {
            let one = describe(&findings[k]);
            text::push(&mut out, one.as_str());
            assert(out@ =~= head@ + (finding_texts(all, severity, k as int) + one@));
        }
        k = k + 1;
    }
    out
}

/// The report on findings: errors first.
pub fn report(findings: &Vec<LintFinding>) -> (r: String)
    ensures
        r@ == findings_text(linter::findings_view(findings@)),
{
    if findings.len() == 0 {
        return text::lit("  ◇ No issues found\n");
    }
    let errors = describe_severity(findings, Severity::Error);
    let warnings = describe_severity(findings, Severity::Warning);
    text::cat3("\n", errors.as_str(), warnings.as_str())
}

/// Whether the command succeeds: it fails on errors, and on warnings where those are
/// denied.
pub fn verdict(findings: &Vec<LintFinding>, deny_warnings: bool) -> (r: Result<(), String>)
    ensures
        match r {
            Ok(_) => !fails(linter::findings_view(findings@), deny_warnings),
            Err(m) => fails(linter::findings_view(findings@), deny_warnings) && m@
                == number::decimal(issues(linter::findings_view(findings@), deny_warnings))
                + " issue(s) found"@,
        },
{
    let errors = count(findings, Severity::Error);
    let warnings = count(findings, Severity::Warning);
    assert(linter::findings_view(findings@).len() == findings@.len());
    if errors > 0 || (deny_warnings && warnings > 0) {
        let total: usize = if deny_warnings {
            findings.len()
        } else {
            errors
        };
        Err(text::cat2(number::show_size(total).as_str(), " issue(s) found"))
    } else {
        Ok(())
    }
}

proof fn lemma_counts(findings: Seq<FindingView>, k: int)
    requires
        0 <= k <= findings.len(),
    ensures
        count_of(findings, Severity::Error, k) + count_of(findings, Severity::Warning, k) == k,
    decreases k,
{
    if k > 0 {
        lemma_counts(findings, k - 1);
    }
}

/// Every finding is an error or a warning, and where warnings are denied any finding is a
/// failure.
pub proof fn law_denied_warnings_fail(findings: Seq<FindingView>)
    ensures
        count_of(findings, Severity::Error, findings.len() as int) + count_of(
            findings,
            Severity::Warning,
            findings.len() as int,
        ) == findings.len(),
        fails(findings, true) <==> findings.len() > 0,
        fails(findings, false) ==> fails(findings, true),
{
    lemma_counts(findings, findings.len() as int);
}

} // verus!
