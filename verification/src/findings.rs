//! Findings and their severity.

use vstd::prelude::*;

verus! {

/// How much a change matters, from the least to the most.
#[derive(Debug, Clone, Copy, PartialEq, Eq, PartialOrd, Ord, Structural)]
pub enum Severity {
    Info,
    Risky,
    Breaking,
}

/// One change worth reporting.
#[derive(Debug, Clone)]
pub struct Finding {
    pub severity: Severity,
    pub message: String,
}

/// A finding with its message as text.
pub struct FindingView {
    pub severity: Severity,
    pub message: Seq<char>,
}

impl View for Finding {
    type V = FindingView;

    open spec fn view(&self) -> FindingView {
        FindingView { severity: self.severity, message: self.message@ }
    }
}

/// A list of findings with their messages as text.
pub open spec fn finding_views(findings: Seq<Finding>) -> Seq<FindingView> {
    findings.map_values(|f: Finding| f@)
}

/// The place of a severity in the order, from the least to the most.
pub open spec fn rank(severity: Severity) -> int {
    match severity {
        Severity::Info => 0,
        Severity::Risky => 1,
        Severity::Breaking => 2,
    }
}

/// Whether some finding has that severity.
pub open spec fn has_severity(findings: Seq<FindingView>, severity: Severity) -> bool {
    exists|i: int| 0 <= i < findings.len() && (#[trigger] findings[i]).severity == severity
}

/// The highest severity among the findings.
pub open spec fn worst(findings: Seq<FindingView>) -> Option<Severity> {
    if has_severity(findings, Severity::Breaking) {
        Some(Severity::Breaking)
    } else if has_severity(findings, Severity::Risky) {
        Some(Severity::Risky)
    } else if has_severity(findings, Severity::Info) {
        Some(Severity::Info)
    } else {
        None
    }
}

/// A finding of that severity with that message.
pub fn finding(severity: Severity, message: String) -> (r: Finding)
    ensures
        r@ == (FindingView { severity, message: message@ }),
{
    Finding { severity, message }
}

/// The highest severity among the findings, or `None` where there are none.
pub fn worst_severity(findings: &[Finding]) -> (r: Option<Severity>)
    ensures
        r == worst(finding_views(findings@)),
{
    let ghost views = finding_views(findings@);
    let mut r: Option<Severity> = None;
    let mut i: usize = 0;
    while i < findings.len()
        invariant
            i <= findings@.len(),
            views == finding_views(findings@),
            r == worst(views.take(i as int)),
        decreases findings@.len() - i,
    {
        let s = findings[i].severity;
        proof {
            lemma_worst_push(views.take(i as int), views[i as int]);
            assert(views.take(i + 1) == views.take(i as int).push(views[i as int]));
        }
        r = match r {
            None => Some(s),
            Some(w) => Some(higher(w, s)),
        };
        i += 1;
    }
    assert(views.take(i as int) == views);
    r
}

/// The higher of two severities.
fn higher(a: Severity, b: Severity) -> (r: Severity)
    ensures
        r == if rank(a) >= rank(b) {
            a
        } else {
            b
        },
{
    match (a, b) {
        (Severity::Breaking, _) => Severity::Breaking,
        (_, Severity::Breaking) => Severity::Breaking,
        (Severity::Risky, _) => Severity::Risky,
        (_, Severity::Risky) => Severity::Risky,
        _ => Severity::Info,
    }
}

/// One more finding raises the worst severity to its own or leaves it.
proof fn lemma_worst_push(findings: Seq<FindingView>, f: FindingView)
    ensures
        worst(findings.push(f)) == match worst(findings) {
            None => Some(f.severity),
            Some(w) => Some(
                if rank(w) >= rank(f.severity) {
                    w
                } else {
                    f.severity
                },
            ),
        },
{
    let all = findings.push(f);
    assert forall|s: Severity|
        has_severity(all, s) <==> (f.severity == s || #[trigger] has_severity(findings, s)) by {
        assert(all[findings.len() as int] == f);
        if has_severity(findings, s) {
            let i = choose|i: int|
                0 <= i < findings.len() && (#[trigger] findings[i]).severity == s;
            assert(all[i] == findings[i]);
        }
        if has_severity(all, s) {
            let i = choose|i: int| 0 <= i < all.len() && (#[trigger] all[i]).severity == s;
            if i < findings.len() {
                assert(all[i] == findings[i]);
            }
        }
    }
}

/// The worst severity is one that occurs and that no finding exceeds; there is none exactly
/// where there are no findings.
pub proof fn law_worst_is_the_highest(findings: Seq<FindingView>)
    ensures
        match worst(findings) {
            None => findings.len() == 0,
            Some(s) => has_severity(findings, s) && forall|i: int|
                0 <= i < findings.len() ==> rank((#[trigger] findings[i]).severity) <= rank(s),
        },
{
    if findings.len() > 0 {
        let f = findings[0];
        assert(has_severity(findings, f.severity));
    }
    assert forall|i: int| 0 <= i < findings.len() implies has_severity(
        findings,
        (#[trigger] findings[i]).severity,
    ) by {}
}

/// The label of a severity in machine-readable output.
pub open spec fn label(severity: Severity) -> Seq<char> {
    match severity {
        Severity::Info => "info"@,
        Severity::Risky => "risky"@,
        Severity::Breaking => "breaking"@,
    }
}

/// The label of a severity in machine-readable output.
pub fn severity_label(s: Severity) -> (r: &'static str)
    ensures
        r@ == label(s),
{
    match s {
        Severity::Info => "info",
        Severity::Risky => "risky",
        Severity::Breaking => "breaking",
    }
}

/// The exit code for a list of findings: 2 if any is breaking, 1 if the worst is risky, and 0
/// otherwise.
pub open spec fn exit_status(findings: Seq<FindingView>) -> int {
    if has_severity(findings, Severity::Breaking) {
        2
    } else if has_severity(findings, Severity::Risky) {
        1
    } else {
        0
    }
}

/// The exit code for a list of findings.
pub fn exit_code(findings: &[Finding]) -> (r: u8)
    ensures
        r == exit_status(finding_views(findings@)),
{
    match worst_severity(findings) {
        Some(Severity::Breaking) => 2,
        Some(Severity::Risky) => 1,
        Some(Severity::Info) | None => 0,
    }
}

/// The view of a list of findings has the severity and the message of each, in its place.
pub proof fn law_views_keep_each_finding(findings: Seq<Finding>)
    ensures
        finding_views(findings).len() == findings.len(),
        forall|i: int|
            0 <= i < findings.len() ==> (#[trigger] finding_views(findings)[i]).severity
                == findings[i].severity && finding_views(findings)[i].message
                == findings[i].message@,
{
}

/// The worst severity is breaking where some finding is, risky where some finding is and none
/// is breaking, the lowest where all findings have that, and there is none without findings.
pub proof fn law_worst_severity(findings: Seq<FindingView>)
    ensures
        worst(findings) == Some(Severity::Breaking) <==> exists|i: int|
            0 <= i < findings.len() && (#[trigger] findings[i]).severity == Severity::Breaking,
        worst(findings) == Some(Severity::Risky) <==> (exists|i: int|
            0 <= i < findings.len() && (#[trigger] findings[i]).severity == Severity::Risky) && (
        forall|i: int|
            0 <= i < findings.len() ==> (#[trigger] findings[i]).severity != Severity::Breaking),
        worst(findings) == Some(Severity::Info) <==> findings.len() > 0 && forall|i: int|
            0 <= i < findings.len() ==> (#[trigger] findings[i]).severity == Severity::Info,
        worst(findings) is None <==> findings.len() == 0,
{
    law_worst_is_the_highest(findings);
    if findings.len() > 0 {
        assert(findings[0].severity == findings[0].severity);
    }
}

/// The exit code is 2 where some finding is breaking, 1 where some is risky and none breaking,
/// and 0 where all are of the lowest severity or there are none.
pub proof fn law_exit_code(findings: Seq<FindingView>)
    ensures
        exit_status(findings) == 2 <==> exists|i: int|
            0 <= i < findings.len() && (#[trigger] findings[i]).severity == Severity::Breaking,
        exit_status(findings) == 1 <==> (exists|i: int|
            0 <= i < findings.len() && (#[trigger] findings[i]).severity == Severity::Risky) && (
        forall|i: int|
            0 <= i < findings.len() ==> (#[trigger] findings[i]).severity != Severity::Breaking),
        exit_status(findings) == 0 <==> forall|i: int|
            0 <= i < findings.len() ==> (#[trigger] findings[i]).severity == Severity::Info,
{
}

/// The three labels.
pub proof fn law_labels(severity: Severity)
    ensures
        label(severity) == "breaking"@ <==> severity == Severity::Breaking,
        label(severity) == "risky"@ <==> severity == Severity::Risky,
        label(severity) == "info"@ <==> severity == Severity::Info,
{
    reveal_strlit("breaking");
    reveal_strlit("risky");
    reveal_strlit("info");
    assert("breaking"@[0] == 'b');
    assert("risky"@[0] == 'r');
    assert("info"@[0] == 'i');
}

} // verus!
