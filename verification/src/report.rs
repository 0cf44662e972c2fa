//! Reports: the findings as text for people and as JSON for programs.

use vstd::prelude::*;

use crate::diff;
use crate::diff::diff_manifests;
use crate::findings;
use crate::findings::{exit_code, severity_label, worst_severity, Finding, FindingView, Severity};
use crate::manifest::Manifest;
use crate::text;

verus! {

// ---------------------------------------------------------------------
// The text report
// ---------------------------------------------------------------------

/// The line of a finding of that severity; none of another.
pub open spec fn line_step(severity: Severity) -> spec_fn(FindingView) -> Seq<char> {
    |f: FindingView|
        if f.severity == severity {
            "  - "@ + f.message + "\n"@
        } else {
            seq![]
        }
}

/// The section of a severity: a heading, one line for each finding and an empty line. A
/// severity without findings has no section.
pub open spec fn section(
    heading: Seq<char>,
    severity: Severity,
    findings: Seq<FindingView>,
) -> Seq<char> {
    if findings::has_severity(findings, severity) {
        heading + ":\n"@ + findings.flat_map(line_step(severity)) + "\n"@
    } else {
        seq![]
    }
}

/// The report on the findings between two files.
pub open spec fn report_text(
    before: Seq<char>,
    after: Seq<char>,
    findings: Seq<FindingView>,
) -> Seq<char> {
    "manifestdiff: "@ + before + " -> "@ + after + "\n\n"@ + if findings.len() == 0 {
        "no risky or breaking changes detected\n"@
    } else {
        section("BREAKING CHANGES"@, Severity::Breaking, findings) + section(
            "RISKY CHANGES"@,
            Severity::Risky,
            findings,
        ) + section("INFO"@, Severity::Info, findings)
    }
}

/// The lines of the findings of one severity.
fn lines(severity: Severity, findings: &[Finding]) -> (r: String)
    ensures
        r@ == findings::finding_views(findings@).flat_map(line_step(severity)),
        findings::has_severity(findings::finding_views(findings@), severity) <==> r@.len() > 0,
{
    let ghost views = findings::finding_views(findings@);
    let ghost step = line_step(severity);
    let mut r = String::new();
    let mut i: usize = 0;
    proof {
        text::lemma_flat_map_none(views.take(0), step);
        reveal_strlit("\n");
    }
    while i < findings.len()
        invariant
            i <= findings@.len(),
            views == findings::finding_views(findings@),
            step == line_step(severity),
            r@ == views.take(i as int).flat_map(step),
            "\n"@.len() == 1,
            r@.len() > 0 ==> findings::has_severity(views, severity),
            forall|j: int|
                0 <= j < i && (#[trigger] views[j]).severity == severity ==> r@.len() > 0,
        decreases findings@.len() - i,
    {
        proof {
            views.lemma_flat_map_take_append(step, i as int);
            assert(views[i as int] == findings@[i as int]@);
        }
        if findings[i].severity == severity {
            let mut line = "  - ".to_owned();
            line.append(findings[i].message.as_str());
            line.append("\n");
            r.append(line.as_str());
        }
        i += 1;
    }
    assert(views.take(i as int) == views);
    r
}

/// The section of a severity.
fn section_text(heading: &str, severity: Severity, findings: &[Finding]) -> (r: String)
    ensures
        r@ == section(heading@, severity, findings::finding_views(findings@)),
{
    let lines = lines(severity, findings);
    if lines.as_str().is_empty() {
        return String::new();
    }
    let mut r = heading.to_owned();
    r.append(":\n");
    r.append(lines.as_str());
    r.append("\n");
    r
}

/// The report on the findings between two files: what the program prints.
pub fn text_report(before: &str, after: &str, findings: &[Finding]) -> (r: String)
    ensures
        r@ == report_text(before@, after@, findings::finding_views(findings@)),
{
    let mut r = "manifestdiff: ".to_owned();
    r.append(before);
    r.append(" -> ");
    r.append(after);
    r.append("\n\n");
    if findings.len() == 0 {
        r.append("no risky or breaking changes detected\n");
    } else {
        let mut sections = section_text("BREAKING CHANGES", Severity::Breaking, findings);
        sections.append(section_text("RISKY CHANGES", Severity::Risky, findings).as_str());
        sections.append(section_text("INFO", Severity::Info, findings).as_str());
        r.append(sections.as_str());
    }
    r
}

// ---------------------------------------------------------------------
// The JSON report
// ---------------------------------------------------------------------

/// A text member of a JSON object.
#[derive(Debug, Clone)]
pub struct TextMember {
    pub name: String,
    pub text: String,
}

/// The value of a member of the report: null, a text, or a list of objects whose members are
/// texts.
#[derive(Debug, Clone)]
pub enum Json {
    Null,
    Text(String),
    Objects(Vec<Vec<TextMember>>),
}

/// A member of the report.
#[derive(Debug, Clone)]
pub struct Member {
    pub name: String,
    pub value: Json,
}

/// The value of a member of the report, by its texts.
pub enum JsonView {
    Null,
    Text(Seq<char>),
    Objects(Seq<Seq<(Seq<char>, Seq<char>)>>),
}

impl View for TextMember {
    type V = (Seq<char>, Seq<char>);

    open spec fn view(&self) -> (Seq<char>, Seq<char>) {
        (self.name@, self.text@)
    }
}

/// The members of an object, by their texts.
pub open spec fn object_view(members: Seq<TextMember>) -> Seq<(Seq<char>, Seq<char>)> {
    members.map_values(|m: TextMember| m@)
}

impl View for Json {
    type V = JsonView;

    open spec fn view(&self) -> JsonView {
        match self {
            Json::Null => JsonView::Null,
            Json::Text(t) => JsonView::Text(t@),
            Json::Objects(objects) => JsonView::Objects(
                objects@.map_values(|o: Vec<TextMember>| object_view(o@)),
            ),
        }
    }
}

impl View for Member {
    type V = (Seq<char>, JsonView);

    open spec fn view(&self) -> (Seq<char>, JsonView) {
        (self.name@, self.value@)
    }
}

/// The members of the report, by their texts.
pub open spec fn member_views(members: Seq<Member>) -> Seq<(Seq<char>, JsonView)> {
    members.map_values(|m: Member| m@)
}

/// The object that stands for a finding.
pub open spec fn finding_object(f: FindingView) -> Seq<(Seq<char>, Seq<char>)> {
    seq![("severity"@, findings::label(f.severity)), ("message"@, f.message)]
}

/// The members of the report on the findings between two files.
pub open spec fn report_members(
    before: Seq<char>,
    after: Seq<char>,
    findings: Seq<FindingView>,
) -> Seq<(Seq<char>, JsonView)> {
    seq![
        ("before"@, JsonView::Text(before)),
        ("after"@, JsonView::Text(after)),
        (
            "worst_severity"@,
            match findings::worst(findings) {
                Some(s) => JsonView::Text(findings::label(s)),
                None => JsonView::Null,
            },
        ),
        ("findings"@, JsonView::Objects(findings.map_values(|f: FindingView| finding_object(f)))),
    ]
}

/// The object that stands for a finding.
fn finding_members(f: &Finding) -> (r: Vec<TextMember>)
    ensures
        object_view(r@) == finding_object(f@),
{
    let mut r: Vec<TextMember> = Vec::new();
    r.push(
        TextMember { name: "severity".to_owned(), text: severity_label(f.severity).to_owned() },
    );
    r.push(TextMember { name: "message".to_owned(), text: f.message.clone() });
    r
}

/// The members of the report on the findings between two files.
pub fn json_members(before: &str, after: &str, findings: &[Finding]) -> (r: Vec<Member>)
    ensures
        member_views(r@) == report_members(before@, after@, findings::finding_views(findings@)),
{
    let ghost views = findings::finding_views(findings@);
    let mut objects: Vec<Vec<TextMember>> = Vec::new();
    let mut i: usize = 0;
    while i < findings.len()
        invariant
            i <= findings@.len(),
            objects@.len() == i,
            views == findings::finding_views(findings@),
            forall|j: int|
                0 <= j < i ==> object_view((#[trigger] objects@[j])@) == finding_object(views[j]),
        decreases findings@.len() - i,
    {
        objects.push(finding_members(&findings[i]));
        i += 1;
    }
    let worst: Json = match worst_severity(findings) {
        Some(s) => Json::Text(severity_label(s).to_owned()),
        None => Json::Null,
    };
    let mut r: Vec<Member> = Vec::new();
    r.push(Member { name: "before".to_owned(), value: Json::Text(before.to_owned()) });
    r.push(Member { name: "after".to_owned(), value: Json::Text(after.to_owned()) });
    r.push(Member { name: "worst_severity".to_owned(), value: worst });
    r.push(Member { name: "findings".to_owned(), value: Json::Objects(objects) });
    proof {
        let listed = objects@.map_values(|o: Vec<TextMember>| object_view(o@));
        assert(listed == views.map_values(|f: FindingView| finding_object(f)));
    }
    r
}

#[verifier::external_type_specification]
#[verifier::external_body]
pub struct ExJsonError(serde_json::Error);

/// Why a report could not be written.
#[derive(Debug)]
pub enum ReportError {
    Json(serde_json::Error),
}

/// The text that `serde_json::to_string_pretty` gives for a JSON object with these members.
pub uninterp spec fn pretty_json(members: Seq<(Seq<char>, JsonView)>) -> Seq<char>;

/// Calls `serde_json::to_string_pretty` on the JSON object with these members. Taken on trust:
/// it succeeds, as every key is a string and nothing in the object refuses to be written, and
/// the text depends on the members alone.
#[verifier::external_body]
fn to_pretty(members: Vec<Member>) -> (r: Result<String, serde_json::Error>)
    ensures
        r is Ok,
        r->Ok_0@ == pretty_json(member_views(members@)),
{
    let mut object = serde_json::Map::new();
    for m in members {
        let value = match m.value {
            Json::Null => serde_json::Value::Null,
            Json::Text(t) => serde_json::Value::String(t),
            Json::Objects(list) => serde_json::Value::Array(
                list.into_iter()
                    .map(|o| o.into_iter().map(|t| (t.name, t.text)).collect())
                    .collect(),
            ),
        };
        object.insert(m.name, value);
    }
    serde_json::to_string_pretty(&serde_json::Value::Object(object))
}

/// The report on the findings between two files as a JSON document.
pub fn json_report(before: &str, after: &str, findings: &[Finding]) -> (r: Result<
    String,
    ReportError,
>)
    ensures
        r is Ok,
        r->Ok_0@ == pretty_json(
            report_members(before@, after@, findings::finding_views(findings@)),
        ),
{
    match to_pretty(json_members(before, after, findings)) {
        Ok(s) => Ok(s),
        Err(e) => Err(ReportError::Json(e)),
    }
}

// ---------------------------------------------------------------------
// A run of the program
// ---------------------------------------------------------------------

/// What a run of the program prints and the code with which it ends.
#[derive(Debug, Clone)]
pub struct Outcome {
    pub output: String,
    pub code: u8,
}

/// Compares two manifests, read from files of the given names, and reports as text or as JSON.
pub fn compare(
    before_name: &str,
    before: &Manifest,
    after_name: &str,
    after: &Manifest,
    json: bool,
) -> (r: Result<Outcome, ReportError>)
    ensures
        r is Ok,
        r->Ok_0.code == findings::exit_status(diff::manifest_findings(*before, *after)),
        r->Ok_0.output@ == if json {
            pretty_json(
                report_members(
                    before_name@,
                    after_name@,
                    diff::manifest_findings(*before, *after),
                ),
            ) + "\n"@
        } else {
            report_text(before_name@, after_name@, diff::manifest_findings(*before, *after))
        },
{
    let findings = diff_manifests(before, after);
    let code: u8 = exit_code(&findings);
    if json {
        match json_report(before_name, after_name, &findings) {
            Ok(mut output) => {
                output.append("\n");
                Ok(Outcome { output, code })
            },
            Err(e) => Err(e),
        }
    } else {
        Ok(Outcome { output: text_report(before_name, after_name, &findings), code })
    }
}

// ---------------------------------------------------------------------
// What the reports tell
// ---------------------------------------------------------------------

/// The heading under which the text report lists findings of a severity.
pub open spec fn heading_of(severity: Severity) -> Seq<char> {
    match severity {
        Severity::Breaking => "BREAKING CHANGES"@,
        Severity::Risky => "RISKY CHANGES"@,
        Severity::Info => "INFO"@,
    }
}

/// The messages of the findings of a severity, each on a line of its own.
pub open spec fn listing(findings: Seq<FindingView>, severity: Severity) -> Seq<char> {
    findings.filter(|f: FindingView| f.severity == severity).flat_map(
        |f: FindingView| "  - "@ + f.message + "\n"@,
    )
}

/// What the text report says of the findings of a severity.
pub open spec fn told_under(findings: Seq<FindingView>, severity: Severity) -> Seq<char> {
    if exists|i: int| 0 <= i < findings.len() && (#[trigger] findings[i]).severity == severity {
        heading_of(severity) + ":\n"@ + listing(findings, severity) + "\n"@
    } else {
        seq![]
    }
}

/// Choosing the findings of a severity first and writing them down then is the same as writing
/// them down where they stand.
proof fn lemma_listing(findings: Seq<FindingView>, severity: Severity)
    ensures
        findings.flat_map(line_step(severity)) == listing(findings, severity),
    decreases findings.len(),
{
    let keep = |f: FindingView| f.severity == severity;
    let write = |f: FindingView| "  - "@ + f.message + "\n"@;
    let step = line_step(severity);
    if findings.len() == 0 {
        text::lemma_flat_map_none(findings, step);
        assert(findings.filter(keep) == findings) by {
            reveal(Seq::filter);
        }
        text::lemma_flat_map_none(findings, write);
    } else {
        let rest = findings.drop_last();
        let last = findings.last();
        assert(findings == rest.push(last));
        lemma_listing(rest, severity);
        rest.lemma_flat_map_push(step, last);
        rest.lemma_filter_push(last, keep);
        rest.filter(keep).lemma_flat_map_push(write, last);
        assert(rest.flat_map(step) + Seq::<char>::empty() == rest.flat_map(step));
    }
}

/// Whether a text names the two files and, after an empty line, lists the breaking findings, the
/// risky ones and those worth noting, each under its heading and in their order, with an empty
/// line after each list; or says that there are none, where there are none.
pub open spec fn text_told(
    text: Seq<char>,
    before: Seq<char>,
    after: Seq<char>,
    findings: Seq<FindingView>,
) -> bool {
    text == "manifestdiff: "@ + before + " -> "@ + after + "\n\n"@ + if findings.len() == 0 {
        "no risky or breaking changes detected\n"@
    } else {
        told_under(findings, Severity::Breaking) + told_under(findings, Severity::Risky)
            + told_under(findings, Severity::Info)
    }
}

/// The text report names the two files and lists the findings by their severity.
pub proof fn law_text_report(before: Seq<char>, after: Seq<char>, findings: Seq<FindingView>)
    ensures
        text_told(report_text(before, after, findings), before, after, findings),
{
    lemma_listing(findings, Severity::Breaking);
    lemma_listing(findings, Severity::Risky);
    lemma_listing(findings, Severity::Info);
}

/// Whether a line stands in a text below others, under a heading.
pub open spec fn stands_under(
    text: Seq<char>,
    front: Seq<char>,
    heading: Seq<char>,
    above: Seq<char>,
    line: Seq<char>,
    rest: Seq<char>,
) -> bool {
    text == front + heading + ":\n"@ + above + line + rest
}

/// Each finding has its line in the text report, under the heading of its severity and below
/// the lines of the earlier findings of that severity alone.
pub proof fn law_each_finding_has_its_line(
    before: Seq<char>,
    after: Seq<char>,
    findings: Seq<FindingView>,
    i: int,
)
    requires
        0 <= i < findings.len(),
    ensures
        exists|front: Seq<char>, rest: Seq<char>| #[trigger]
            stands_under(
                report_text(before, after, findings),
                front,
                heading_of(findings[i].severity),
                listing(findings.take(i), findings[i].severity),
                "  - "@ + findings[i].message + "\n"@,
                rest,
            ),
{
    let f = findings[i];
    let s = f.severity;
    let head = "manifestdiff: "@ + before + " -> "@ + after + "\n\n"@;
    let line = "  - "@ + f.message + "\n"@;
    let text = report_text(before, after, findings);
    let above = listing(findings.take(i), s);
    let below = lemma_line_listed(findings, i);
    let breaking = told_under(findings, Severity::Breaking);
    let risky = told_under(findings, Severity::Risky);
    let info = told_under(findings, Severity::Info);
    law_text_report(before, after, findings);
    lemma_joined(head, breaking, risky, info);
    let (front, tail) = match s {
        Severity::Breaking => (head, risky + info),
        Severity::Risky => (head + breaking, info),
        Severity::Info => (head + breaking + risky, Seq::<char>::empty()),
    };
    assert(text == front + told_under(findings, s) + tail);
    lemma_line_joined(front, heading_of(s), above, line, below, tail);
    assert(stands_under(text, front, heading_of(s), above, line, below + "\n"@ + tail));
}

/// How texts are joined makes no difference.
proof fn lemma_joined(a: Seq<char>, b: Seq<char>, c: Seq<char>, d: Seq<char>)
    ensures
        a + (b + c + d) == a + b + (c + d),
        a + (b + c + d) == a + b + c + d,
        a + b + c + d == a + b + c + d + Seq::<char>::empty(),
{
}

/// How the texts of a section are joined makes no difference.
proof fn lemma_line_joined(
    front: Seq<char>,
    heading: Seq<char>,
    above: Seq<char>,
    line: Seq<char>,
    below: Seq<char>,
    tail: Seq<char>,
)
    ensures
        front + (heading + ":\n"@ + (above + line + below) + "\n"@) + tail == front + heading
            + ":\n"@ + above + line + (below + "\n"@ + tail),
{
}

/// A listing holds the line of each of its findings, below those of the earlier ones.
proof fn lemma_line_listed(findings: Seq<FindingView>, i: int) -> (below: Seq<char>)
    requires
        0 <= i < findings.len(),
    ensures
        listing(findings, findings[i].severity) == listing(
            findings.take(i),
            findings[i].severity,
        ) + ("  - "@ + findings[i].message + "\n"@) + below,
    decreases findings.len(),
{
    let s = findings[i].severity;
    let step = line_step(s);
    let rest = findings.drop_last();
    let last = findings.last();
    assert(findings == rest.push(last));
    rest.lemma_flat_map_push(step, last);
    lemma_listing(findings, s);
    lemma_listing(rest, s);
    if i == findings.len() - 1 {
        assert(findings.take(i) == rest);
        Seq::empty()
    } else {
        let below = lemma_line_listed(rest, i);
        assert(rest.take(i) == findings.take(i));
        assert(listing(findings, s) == listing(findings.take(i), s) + ("  - "@
            + findings[i].message + "\n"@) + (below + step(last)));
        below + step(last)
    }
}

/// That nothing was detected is what the text report says where there are no findings, and
/// nowhere else.
pub proof fn law_nothing_detected(before: Seq<char>, after: Seq<char>, findings: Seq<FindingView>)
    ensures
        report_text(before, after, findings) == "manifestdiff: "@ + before + " -> "@ + after
            + "\n\n"@ + "no risky or breaking changes detected\n"@ <==> findings.len() == 0,
{
    law_text_report(before, after, findings);
    if findings.len() > 0 {
        reveal_strlit("no risky or breaking changes detected\n");
        reveal_strlit("BREAKING CHANGES");
        reveal_strlit("RISKY CHANGES");
        reveal_strlit("INFO");
        let head = "manifestdiff: "@ + before + " -> "@ + after + "\n\n"@;
        let breaking = told_under(findings, Severity::Breaking);
        let risky = told_under(findings, Severity::Risky);
        let info = told_under(findings, Severity::Info);
        let told = breaking + risky + info;
        let sentence = "no risky or breaking changes detected\n"@;
        let s = findings[0].severity;
        assert(told_under(findings, s).len() > 0);
        if breaking.len() > 0 {
            assert(breaking[0] == 'B');
            assert(told[0] == 'B');
        } else if risky.len() > 0 {
            assert(risky[0] == 'R');
            assert(told[0] == 'R');
        } else {
            assert(info[0] == 'I');
            assert(told[0] == 'I');
        }
        assert((head + told)[head.len() as int] == told[0]);
        assert((head + sentence)[head.len() as int] == 'n');
    }
}

/// What a JSON object tells of a finding: its severity and its message.
pub open spec fn object_told(f: FindingView) -> Seq<(Seq<char>, Seq<char>)> {
    seq![
        (
            "severity"@,
            match f.severity {
                Severity::Breaking => "breaking"@,
                Severity::Risky => "risky"@,
                Severity::Info => "info"@,
            },
        ),
        ("message"@, f.message),
    ]
}

/// Whether members tell the two file names, the worst severity and the findings, each finding
/// with its severity and its message, in their order. The worst severity is the label of the
/// highest severity that a listed finding has, and null where none is listed.
pub open spec fn members_told(
    members: Seq<(Seq<char>, JsonView)>,
    before: Seq<char>,
    after: Seq<char>,
    findings: Seq<FindingView>,
) -> bool {
    &&& members.len() == 4
    &&& members[0] == ("before"@, JsonView::Text(before))
    &&& members[1] == ("after"@, JsonView::Text(after))
    &&& members[2].0 == "worst_severity"@
    &&& members[3].0 == "findings"@
    &&& members[3].1 is Objects
    &&& members[3].1->Objects_0.len() == findings.len()
    &&& forall|i: int|
        0 <= i < findings.len() ==> #[trigger] members[3].1->Objects_0[i] == object_told(
            findings[i],
        )
    &&& members[2].1 is Null <==> findings.len() == 0
    &&& members[2].1 is Text <==> findings.len() > 0
    &&& members[2].1 is Text ==> exists|i: int|
        0 <= i < findings.len() && #[trigger] members[3].1->Objects_0[i][0] == (
            "severity"@,
            members[2].1->Text_0,
        )
    &&& (exists|i: int|
        0 <= i < findings.len() && (#[trigger] findings[i]).severity == Severity::Breaking)
        ==> members[2].1 == JsonView::Text("breaking"@)
    &&& (exists|i: int|
        0 <= i < findings.len() && (#[trigger] findings[i]).severity == Severity::Risky) ==> (
    members[2].1 == JsonView::Text("breaking"@) || members[2].1 == JsonView::Text("risky"@))
}

/// The members of the JSON report tell the two file names, the worst severity and the findings.
pub proof fn law_json_report(before: Seq<char>, after: Seq<char>, findings: Seq<FindingView>)
    ensures
        members_told(report_members(before, after, findings), before, after, findings),
{
    let members = report_members(before, after, findings);
    let objects = members[3].1->Objects_0;
    assert forall|i: int| 0 <= i < findings.len() implies #[trigger] objects[i] == object_told(
        findings[i],
    ) by {
        assert(objects[i] =~= object_told(findings[i]));
    }
    findings::law_worst_severity(findings);
    if findings.len() > 0 {
        let s = findings::worst(findings)->0;
        findings::law_worst_is_the_highest(findings);
        let i = choose|i: int| 0 <= i < findings.len() && (#[trigger] findings[i]).severity == s;
        assert(objects[i][0] == ("severity"@, members[2].1->Text_0));
    }
}

/// The view of the members of a report has the texts of each, in its place.
pub proof fn law_views_keep_each_member(members: Seq<Member>)
    ensures
        member_views(members).len() == members.len(),
        forall|i: int|
            0 <= i < members.len() ==> (#[trigger] member_views(members)[i]).0 == members[i].name@
                && match members[i].value {
                Json::Null => member_views(members)[i].1 is Null,
                Json::Text(t) => member_views(members)[i].1 == JsonView::Text(t@),
                Json::Objects(list) => member_views(members)[i].1 matches JsonView::Objects(objects)
                    && objects.len() == list@.len() && forall|j: int|
                    0 <= j < objects.len() ==> (#[trigger] objects[j]).len() == list@[j]@.len()
                        && forall|k: int|
                        0 <= k < objects[j].len() ==> #[trigger] objects[j][k] == (
                            list@[j]@[k].name@,
                            list@[j]@[k].text@,
                        ),
            },
{
}

} // verus!
