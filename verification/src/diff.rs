//! The checks: what changed between two manifests, and how much each change matters.

use vstd::prelude::*;

use crate::findings;
use crate::findings::{finding, Finding, FindingView, Severity};
use crate::image;
use crate::image::parse_image;
use crate::manifest;
use crate::manifest::{Container, EnvVar, Manifest, VolumeMount};
use crate::names;
use crate::names::Named;
use crate::pairing;
use crate::text;
use crate::yaml;
use crate::yaml::Value;

verus! {

// ---------------------------------------------------------------------
// What the findings are
// ---------------------------------------------------------------------

/// A list of one finding.
pub open spec fn one(severity: Severity, message: Seq<char>) -> Seq<FindingView> {
    seq![FindingView { severity, message }]
}

/// What happened to a container as a whole.
pub open spec fn container_message(container: Seq<char>, what: Seq<char>) -> Seq<char> {
    "container \""@ + container + "\" "@ + what
}

/// What happened inside a container.
pub open spec fn inner_message(container: Seq<char>, what: Seq<char>) -> Seq<char> {
    "container \""@ + container + "\": "@ + what
}

/// How a message writes a named item of a container.
pub open spec fn item(kind: Seq<char>, name: Seq<char>) -> Seq<char> {
    kind + " \""@ + name + "\""@
}

/// A container lost something, which is breaking.
pub open spec fn removal(container: Seq<char>, what: Seq<char>) -> FindingView {
    FindingView {
        severity: Severity::Breaking,
        message: inner_message(container, what + " was removed"@),
    }
}

/// A container gained something, which is only worth noting.
pub open spec fn addition(container: Seq<char>, what: Seq<char>) -> FindingView {
    FindingView {
        severity: Severity::Info,
        message: inner_message(container, what + " was added"@),
    }
}

/// Something in a container changed, which is risky.
pub open spec fn alteration(container: Seq<char>, how: Seq<char>) -> FindingView {
    FindingView { severity: Severity::Risky, message: inner_message(container, how) }
}

/// The change from one text to another.
pub open spec fn change_message(what: Seq<char>, before: Seq<char>, after: Seq<char>) -> Seq<char> {
    what + " changed from "@ + before + " to "@ + after
}

/// A resource type: API version and kind.
pub open spec fn resource_type(m: Manifest) -> Seq<char> {
    m.api_version@ + "/"@ + m.kind@
}

/// A change of the API version or of the kind is breaking.
pub open spec fn type_findings(before: Manifest, after: Manifest) -> Seq<FindingView> {
    if before.kind@ != after.kind@ || before.api_version@ != after.api_version@ {
        one(
            Severity::Breaking,
            change_message("resource type"@, resource_type(before), resource_type(after)),
        )
    } else {
        seq![]
    }
}

/// How many pods a manifest asks for: 1 where it does not say.
pub open spec fn replicas(m: Manifest) -> int {
    match m.spec.replicas {
        Some(n) => n as int,
        None => 1,
    }
}

/// Fewer pods are risky, none at all breaking; more are fine.
pub open spec fn replica_findings(before: int, after: int) -> Seq<FindingView> {
    if after >= before {
        seq![]
    } else if after == 0 {
        one(
            Severity::Breaking,
            "replicas reduced from "@ + text::signed_decimal(before)
                + " to 0 — this scales the deployment to nothing"@,
        )
    } else {
        one(
            Severity::Risky,
            "replicas reduced from "@ + text::signed_decimal(before) + " to "@
                + text::signed_decimal(after),
        )
    }
}

/// How a message writes a tag.
pub open spec fn tag_text(tag: Option<Seq<char>>) -> Seq<char> {
    match tag {
        Some(t) => t,
        None => "<none>"@,
    }
}

/// Another image is risky: another tag of the same repository, or another repository.
pub open spec fn image_findings(
    container: Seq<char>,
    before: Seq<char>,
    after: Seq<char>,
) -> Seq<FindingView> {
    if before == after {
        seq![]
    } else if image::image_repository(before) != image::image_repository(after) {
        seq![
            alteration(container, "image changed from \""@ + before + "\" to \""@ + after + "\""@),
        ]
    } else {
        seq![
            alteration(
                container,
                change_message(
                    "image tag"@,
                    tag_text(image::image_tag(before)),
                    tag_text(image::image_tag(after)),
                ),
            ),
        ]
    }
}

/// What is found of one variable: removed it is breaking, changed risky, added only worth
/// noting.
pub open spec fn env_change(
    container: Seq<char>,
    name: Seq<char>,
    before: Option<EnvVar>,
    after: Option<EnvVar>,
) -> Seq<FindingView> {
    match (before, after) {
        (Some(_), None) => seq![removal(container, item("env var"@, name))],
        (Some(b), Some(a)) => if manifest::same_env_value(b, a) {
            seq![]
        } else {
            seq![alteration(container, item("env var"@, name) + " value changed"@)]
        },
        (None, Some(_)) => seq![addition(container, item("env var"@, name))],
        (None, None) => seq![],
    }
}

/// Whether a volume is mounted at a path.
pub open spec fn mounted(mounts: Seq<VolumeMount>, name: Seq<char>, path: Seq<char>) -> bool {
    exists|i: int|
        0 <= i < mounts.len() && (#[trigger] mounts[i]).name@ == name && mounts[i].mount_path@
            == path
}

/// Whether a mount is one of a volume that the other mounts do not have at that path.
pub open spec fn missing_in(others: Seq<VolumeMount>, name: Seq<char>) -> spec_fn(
    VolumeMount,
) -> bool {
    |m: VolumeMount| m.name@ == name && !mounted(others, name, m.mount_path@)
}

/// The paths of mounts.
pub open spec fn paths(mounts: Seq<VolumeMount>) -> Seq<Seq<char>> {
    mounts.map_values(|m: VolumeMount| m.mount_path@)
}

/// The paths, in their order, at which a volume is mounted here and not there.
pub open spec fn paths_only_in(
    here: Seq<VolumeMount>,
    there: Seq<VolumeMount>,
    name: Seq<char>,
) -> Seq<Seq<char>> {
    names::ordered(paths(here.filter(missing_in(there, name))))
}

/// What is found of one volume, given the paths that it lost and those that it gained: a path
/// that another one replaces is risky; beyond that a lost one is breaking, a gained one only
/// worth noting.
pub open spec fn mount_change(
    container: Seq<char>,
    name: Seq<char>,
    lost: Seq<Seq<char>>,
    gained: Seq<Seq<char>>,
) -> Seq<FindingView> {
    let count = if lost.len() < gained.len() {
        gained.len()
    } else {
        lost.len()
    };
    Seq::new(count, |k: int| mount_finding(container, name, lost, gained, k))
}

/// What is found of the paths at one place of the two lists.
pub open spec fn mount_finding(
    container: Seq<char>,
    name: Seq<char>,
    lost: Seq<Seq<char>>,
    gained: Seq<Seq<char>>,
    k: int,
) -> FindingView {
    if k < lost.len() && k < gained.len() {
        alteration(
            container,
            change_message(item("volumeMount"@, name) + " path"@, lost[k], gained[k]),
        )
    } else if k < lost.len() {
        removal(container, item("volumeMount"@, name))
    } else {
        addition(container, item("volumeMount"@, name))
    }
}

/// Items of a container that are compared name by name.
pub trait Compared: Named + Sized {
    /// What is found of the items of one name.
    spec fn change(
        container: Seq<char>,
        name: Seq<char>,
        before: Seq<Self>,
        after: Seq<Self>,
    ) -> Seq<FindingView>;

    /// Compares the items of one name.
    fn report_change(
        container: &str,
        name: &String,
        before: &Vec<Self>,
        after: &Vec<Self>,
        findings: &mut Vec<Finding>,
    )
        ensures
            findings::finding_views(final(findings)@) == findings::finding_views(old(findings)@)
                + Self::change(container@, name@, before@, after@),
    ;
}

/// What is found of the items of each name.
pub open spec fn change_step<T: Compared>(
    container: Seq<char>,
    before: Seq<T>,
    after: Seq<T>,
) -> spec_fn(Seq<char>) -> Seq<FindingView> {
    |n: Seq<char>| T::change(container, n, before, after)
}

/// What is found of a list of named items: first of those that were there, then of the new
/// ones, each in the order of their names.
pub open spec fn item_findings<T: Compared>(
    container: Seq<char>,
    before: Seq<T>,
    after: Seq<T>,
) -> Seq<FindingView> {
    names::names_of_both(before, after).flat_map(change_step(container, before, after))
}

/// A lost probe is breaking, one that changed in any way risky, a new one only worth noting.
pub open spec fn probe_findings(
    container: Seq<char>,
    probe: Seq<char>,
    before: Option<Value>,
    after: Option<Value>,
) -> Seq<FindingView> {
    match (before, after) {
        (Some(_), None) => seq![removal(container, probe)],
        (None, Some(_)) => seq![addition(container, probe)],
        (Some(b), Some(a)) => if yaml::same_value(b, a) {
            seq![]
        } else {
            seq![alteration(container, probe + " configuration changed"@)]
        },
        (None, None) => seq![],
    }
}

/// What is found of a container that both manifests have.
pub open spec fn container_findings(before: Container, after: Container) -> Seq<FindingView> {
    let name = before.name@;
    image_findings(name, before.image@, after.image@) + item_findings(
        name,
        before.env@,
        after.env@,
    ) + item_findings(name, before.volume_mounts@, after.volume_mounts@) + probe_findings(
        name,
        "livenessProbe"@,
        before.liveness_probe,
        after.liveness_probe,
    ) + probe_findings(name, "readinessProbe"@, before.readiness_probe, after.readiness_probe)
}

/// The containers of a manifest.
pub open spec fn containers(m: Manifest) -> Seq<Container> {
    m.spec.template.spec.containers@
}

/// Whether two containers, each given by its place, share a name and, if so asked, nothing is
/// found of the two.
pub open spec fn namesakes(
    before: Seq<Container>,
    after: Seq<Container>,
    unchanged: bool,
) -> spec_fn(int, int) -> bool {
    |i: int, j: int|
        before[i].name@ == after[j].name@ && (unchanged ==> container_findings(
            before[i],
            after[j],
        ).len() == 0)
}

/// Which container each one is held against: one of its name, and no two are held against the
/// same one. Where several share a name, those that are found unchanged go together first, and
/// then the rest in their order.
pub open spec fn partners(before: Seq<Container>, after: Seq<Container>) -> Seq<Option<int>> {
    let unchanged = pairing::claims(
        pairing::nobody(before.len()),
        namesakes(before, after, true),
        after.len() as int,
        before.len() as int,
    );
    pairing::claims(
        unchanged,
        namesakes(before, after, false),
        after.len() as int,
        before.len() as int,
    )
}

/// What is found of a container that was there: that it was removed, which is breaking, or
/// what changed in it.
pub open spec fn kept_findings(
    before: Seq<Container>,
    after: Seq<Container>,
    i: int,
) -> Seq<FindingView> {
    match partners(before, after)[i] {
        None => one(Severity::Breaking, container_message(before[i].name@, "was removed"@)),
        Some(j) => container_findings(before[i], after[j]),
    }
}

/// What is found of a container that is there now: whether it is new.
pub open spec fn added_findings(
    before: Seq<Container>,
    after: Seq<Container>,
    j: int,
) -> Seq<FindingView> {
    if pairing::free(partners(before, after), j) {
        one(Severity::Info, container_message(after[j].name@, "was added"@))
    } else {
        seq![]
    }
}

/// What is found of each container that was there.
pub open spec fn all_kept(before: Seq<Container>, after: Seq<Container>) -> Seq<
    Seq<FindingView>,
> {
    Seq::new(before.len(), |i: int| kept_findings(before, after, i))
}

/// What is found of each container that is there now.
pub open spec fn all_added(before: Seq<Container>, after: Seq<Container>) -> Seq<
    Seq<FindingView>,
> {
    Seq::new(after.len(), |j: int| added_findings(before, after, j))
}

/// All findings: on the resource type, on the replicas, on the containers that were there, in
/// their order, and on the new containers, in theirs.
pub open spec fn manifest_findings(before: Manifest, after: Manifest) -> Seq<FindingView> {
    type_findings(before, after) + replica_findings(replicas(before), replicas(after)) + all_kept(
        containers(before),
        containers(after),
    ).flatten() + all_added(containers(before), containers(after)).flatten()
}

/// Partners share a name, no two have the same one, and whoever is left without one has no
/// namesake that is free.
pub proof fn lemma_partners(before: Seq<Container>, after: Seq<Container>)
    ensures
        partners(before, after).len() == before.len(),
        pairing::within(partners(before, after), after.len() as int),
        pairing::apart(partners(before, after)),
        forall|i: int|
            0 <= i < before.len() && (#[trigger] partners(before, after)[i]) is Some
                ==> before[i].name@ == after[partners(before, after)[i]->0].name@,
        forall|i: int, j: int|
            0 <= i < before.len() && 0 <= j < after.len() && partners(before, after)[i] is None
                && (#[trigger] before[i]).name@ == (#[trigger] after[j]).name@
                ==> !pairing::free(partners(before, after), j),
{
    let end = after.len() as int;
    let count = before.len() as int;
    let same = namesakes(before, after, false);
    let first = pairing::claims(
        pairing::nobody(before.len()),
        namesakes(before, after, true),
        end,
        count,
    );
    pairing::lemma_claims(
        pairing::nobody(before.len()),
        namesakes(before, after, true),
        end,
        count,
    );
    pairing::lemma_claims(first, same, end, count);
    assert forall|i: int, j: int|
        0 <= i < before.len() && 0 <= j < after.len() && partners(before, after)[i] is None && (
        #[trigger] before[i]).name@ == (#[trigger] after[j]).name@ implies !pairing::free(
        partners(before, after),
        j,
    ) by {
        assert(same(i, j));
    }
    assert forall|i: int| 0 <= i < before.len() && (#[trigger] partners(before, after)[i]) is Some
        implies before[i].name@ == after[partners(before, after)[i]->0].name@ by {
        if first[i] is Some {
            assert(partners(before, after)[i] == first[i]);
        }
    }
}

// ---------------------------------------------------------------------
// Messages
// ---------------------------------------------------------------------

/// Writes what happened to a container as a whole.
fn container_text(container: &str, what: &str) -> (r: String)
    ensures
        r@ == container_message(container@, what@),
{
    let mut r = "container \"".to_owned();
    r.append(container);
    r.append("\" ");
    r.append(what);
    r
}

/// Writes what happened inside a container.
fn inner_text(container: &str, what: &str) -> (r: String)
    ensures
        r@ == inner_message(container@, what@),
{
    let mut r = "container \"".to_owned();
    r.append(container);
    r.append("\": ");
    r.append(what);
    r
}

/// Writes a named item of a container.
fn item_text(kind: &str, name: &str) -> (r: String)
    ensures
        r@ == item(kind@, name@),
{
    let mut r = kind.to_owned();
    r.append(" \"");
    r.append(name);
    r.append("\"");
    r
}

/// Writes the change from one text to another.
fn change_text(what: &str, before: &str, after: &str) -> (r: String)
    ensures
        r@ == change_message(what@, before@, after@),
{
    let mut r = what.to_owned();
    r.append(" changed from ");
    r.append(before);
    r.append(" to ");
    r.append(after);
    r
}

/// Writes a resource type.
fn resource_type_text(m: &Manifest) -> (r: String)
    ensures
        r@ == resource_type(*m),
{
    let mut r = m.api_version.clone();
    r.append("/");
    r.append(m.kind.as_str());
    r
}

// ---------------------------------------------------------------------
// The checks
// ---------------------------------------------------------------------

/// Reports one finding.
fn report(findings: &mut Vec<Finding>, severity: Severity, message: String)
    ensures
        findings::finding_views(final(findings)@) == findings::finding_views(old(findings)@) + one(
            severity,
            message@,
        ),
{
    findings.push(finding(severity, message));
}

/// Reports what a container lost.
fn report_removal(findings: &mut Vec<Finding>, container: &str, what: String)
    ensures
        findings::finding_views(final(findings)@) == findings::finding_views(old(findings)@)
            + seq![removal(container@, what@)],
{
    let mut message = what;
    message.append(" was removed");
    report(findings, Severity::Breaking, inner_text(container, message.as_str()));
}

/// Reports what a container gained.
fn report_addition(findings: &mut Vec<Finding>, container: &str, what: String)
    ensures
        findings::finding_views(final(findings)@) == findings::finding_views(old(findings)@)
            + seq![addition(container@, what@)],
{
    let mut message = what;
    message.append(" was added");
    report(findings, Severity::Info, inner_text(container, message.as_str()));
}

/// Reports what changed in a container.
fn report_alteration(findings: &mut Vec<Finding>, container: &str, how: &str)
    ensures
        findings::finding_views(final(findings)@) == findings::finding_views(old(findings)@)
            + seq![alteration(container@, how@)],
{
    report(findings, Severity::Risky, inner_text(container, how));
}

/// Compares the number of replicas.
pub fn check_replicas(before: &Manifest, after: &Manifest, findings: &mut Vec<Finding>)
    ensures
        findings::finding_views(final(findings)@) == findings::finding_views(old(findings)@)
            + replica_findings(replicas(*before), replicas(*after)),
{
    let before_replicas: i64 = match before.spec.replicas {
        Some(n) => n,
        None => 1,
    };
    let after_replicas: i64 = match after.spec.replicas {
        Some(n) => n,
        None => 1,
    };
    if after_replicas < before_replicas {
        let mut message = "replicas reduced from ".to_owned();
        message.append(text::integer_text(before_replicas).as_str());
        if after_replicas == 0 {
            message.append(" to 0 — this scales the deployment to nothing");
            report(findings, Severity::Breaking, message);
        } else {
            message.append(" to ");
            message.append(text::integer_text(after_replicas).as_str());
            report(findings, Severity::Risky, message);
        }
    }
}

/// Compares the image of a container.
fn diff_image(container: &String, before: &String, after: &String, findings: &mut Vec<Finding>)
    ensures
        findings::finding_views(final(findings)@) == findings::finding_views(old(findings)@)
            + image_findings(container@, before@, after@),
{
    if *before == *after {
        return;
    }
    let (before_repo, before_tag) = parse_image(before.as_str());
    let (after_repo, after_tag) = parse_image(after.as_str());
    if before_repo == after_repo {
        let what = change_text("image tag", tag_or_none(&before_tag), tag_or_none(&after_tag));
        report_alteration(findings, container.as_str(), what.as_str());
    } else {
        let mut what = "image changed from \"".to_owned();
        what.append(before.as_str());
        what.append("\" to \"");
        what.append(after.as_str());
        what.append("\"");
        report_alteration(findings, container.as_str(), what.as_str());
    }
}

/// How a message writes a tag.
fn tag_or_none(tag: &Option<String>) -> (r: &str)
    ensures
        r@ == tag_text(text::optional_text(*tag)),
{
    match tag {
        Some(t) => t.as_str(),
        None => "<none>",
    }
}

impl Compared for EnvVar {
    /// Where a name occurs twice, the last one counts.
    open spec fn change(
        container: Seq<char>,
        name: Seq<char>,
        before: Seq<EnvVar>,
        after: Seq<EnvVar>,
    ) -> Seq<FindingView> {
        env_change(
            container,
            name,
            names::last_named(before, name),
            names::last_named(after, name),
        )
    }

    fn report_change(
        container: &str,
        name: &String,
        before: &Vec<EnvVar>,
        after: &Vec<EnvVar>,
        findings: &mut Vec<Finding>,
    ) {
        let variable = item_text("env var", name.as_str());
        match (names::find_last(before, name), names::find_last(after, name)) {
            (Some(_), None) => {
                report_removal(findings, container, variable);
            },
            (Some(b), Some(a)) => {
                if !manifest::env_value_equal(b, a) {
                    let mut how = variable;
                    how.append(" value changed");
                    report_alteration(findings, container, how.as_str());
                }
            },
            (None, Some(_)) => {
                report_addition(findings, container, variable);
            },
            (None, None) => {},
        }
    }
}

impl Compared for VolumeMount {
    /// A volume may be mounted at several paths. Those that it keeps are not reported.
    open spec fn change(
        container: Seq<char>,
        name: Seq<char>,
        before: Seq<VolumeMount>,
        after: Seq<VolumeMount>,
    ) -> Seq<FindingView> {
        mount_change(
            container,
            name,
            paths_only_in(before, after, name),
            paths_only_in(after, before, name),
        )
    }

    fn report_change(
        container: &str,
        name: &String,
        before: &Vec<VolumeMount>,
        after: &Vec<VolumeMount>,
        findings: &mut Vec<Finding>,
    ) {
        let lost = list_paths_only_in(before, after, name);
        let gained = list_paths_only_in(after, before, name);
        let ghost start = findings::finding_views(findings@);
        let ghost lost_paths = names::texts(lost@);
        let ghost gained_paths = names::texts(gained@);
        let ghost change = mount_change(container@, name@, lost_paths, gained_paths);
        let mut k: usize = 0;
        while k < lost.len() || k < gained.len()
            invariant
                lost_paths == names::texts(lost@),
                gained_paths == names::texts(gained@),
                change == mount_change(container@, name@, lost_paths, gained_paths),
                k <= change.len(),
                findings::finding_views(findings@) == start + change.take(k as int),
            decreases change.len() - k,
        {
            let mount = item_text("volumeMount", name.as_str());
            assert(change.take(k + 1) == change.take(k as int) + seq![change[k as int]]);
            if k < lost.len() && k < gained.len() {
                let mut what = mount;
                what.append(" path");
                let how = change_text(what.as_str(), lost[k].as_str(), gained[k].as_str());
                report_alteration(findings, container, how.as_str());
            } else if k < lost.len() {
                report_removal(findings, container, mount);
            } else {
                report_addition(findings, container, mount);
            }
            k += 1;
        }
        assert(change.take(k as int) == change);
    }
}

/// Whether a volume is mounted at a path.
fn is_mounted(mounts: &Vec<VolumeMount>, name: &String, path: &String) -> (r: bool)
    ensures
        r == mounted(mounts@, name@, path@),
{
    let mut i: usize = 0;
    while i < mounts.len()
        invariant
            i <= mounts@.len(),
            forall|k: int|
                0 <= k < i ==> (#[trigger] mounts@[k]).name@ != name@ || mounts@[k].mount_path@
                    != path@,
        decreases mounts@.len() - i,
    {
        if mounts[i].name == *name && mounts[i].mount_path == *path {
            return true;
        }
        i += 1;
    }
    false
}

/// Lists the paths at which a volume is mounted here and not there.
fn list_paths_only_in<'a>(
    here: &'a Vec<VolumeMount>,
    there: &Vec<VolumeMount>,
    name: &String,
) -> (r: Vec<&'a String>)
    ensures
        names::texts(r@) == paths_only_in(here@, there@, name@),
{
    let ghost missing = missing_in(there@, name@);
    let mut r: Vec<&'a String> = Vec::new();
    let mut i: usize = 0;
    assert(names::texts(r@) == paths(here@.take(0).filter(missing))) by {
        reveal(Seq::filter);
    }
    while i < here.len()
        invariant
            i <= here@.len(),
            missing == missing_in(there@, name@),
            names::texts(r@) == paths(here@.take(i as int).filter(missing)),
        decreases here@.len() - i,
    {
        let mount = &here[i];
        let ghost kept = here@.take(i as int).filter(missing);
        proof {
            assert(here@.take(i + 1) == here@.take(i as int).push(*mount));
            here@.take(i as int).lemma_filter_push(*mount, missing);
        }
        if mount.name == *name && !is_mounted(there, name, &mount.mount_path) {
            let ghost so_far = names::texts(r@);
            r.push(&mount.mount_path);
            assert(names::texts(r@) == so_far.push(mount.mount_path@));
            assert(paths(kept.push(*mount)) == paths(kept).push(mount.mount_path@));
        }
        i += 1;
    }
    assert(here@.take(i as int) == here@);
    names::ordered_texts(&r)
}

/// Compares a list of named items of a container.
fn diff_items<T: Compared>(
    container: &str,
    before: &Vec<T>,
    after: &Vec<T>,
    findings: &mut Vec<Finding>,
)
    ensures
        findings::finding_views(final(findings)@) == findings::finding_views(old(findings)@)
            + item_findings(container@, before@, after@),
{
    let ghost step = change_step(container@, before@, after@);
    let ghost start = findings::finding_views(findings@);
    let list = names::all_names(before, after);
    let ghost listed = names::texts(list@);
    let mut i: usize = 0;
    proof {
        text::lemma_flat_map_none(listed.take(0), step);
    }
    while i < list.len()
        invariant
            i <= list@.len(),
            listed == names::texts(list@),
            step == change_step(container@, before@, after@),
            findings::finding_views(findings@) == start + listed.take(i as int).flat_map(step),
        decreases list@.len() - i,
    {
        let name = list[i];
        proof {
            listed.lemma_flat_map_take_append(step, i as int);
            assert(listed[i as int] == name@);
        }
        T::report_change(container, name, before, after, findings);
        i += 1;
    }
    assert(listed.take(i as int) == listed);
}

/// Compares one probe of a container, as a whole.
pub fn diff_probe(
    container_name: &str,
    probe_name: &str,
    before: &Option<Value>,
    after: &Option<Value>,
    findings: &mut Vec<Finding>,
)
    ensures
        findings::finding_views(final(findings)@) == findings::finding_views(old(findings)@)
            + probe_findings(container_name@, probe_name@, *before, *after),
{
    let probe = probe_name.to_owned();
    match (before, after) {
        (Some(_), None) => {
            report_removal(findings, container_name, probe);
        },
        (None, Some(_)) => {
            report_addition(findings, container_name, probe);
        },
        (Some(b), Some(a)) => {
            if !yaml::value_equal(b, a) {
                let mut how = probe;
                how.append(" configuration changed");
                report_alteration(findings, container_name, how.as_str());
            }
        },
        (None, None) => {},
    }
}

/// Compares a container with its counterpart.
pub fn diff_container(before: &Container, after: &Container, findings: &mut Vec<Finding>)
    ensures
        findings::finding_views(final(findings)@) == findings::finding_views(old(findings)@)
            + container_findings(*before, *after),
{
    let name = before.name.as_str();
    diff_image(&before.name, &before.image, &after.image, findings);
    diff_items(name, &before.env, &after.env, findings);
    diff_items(name, &before.volume_mounts, &after.volume_mounts, findings);
    diff_probe(name, "livenessProbe", &before.liveness_probe, &after.liveness_probe, findings);
    diff_probe(name, "readinessProbe", &before.readiness_probe, &after.readiness_probe, findings);
}

/// Whether two containers share a name and, if so asked, nothing is found of the two.
fn are_namesakes(before: &Container, after: &Container, unchanged: bool) -> (r: bool)
    ensures
        r == (before.name@ == after.name@ && (unchanged ==> container_findings(
            *before,
            *after,
        ).len() == 0)),
{
    if before.name != after.name {
        return false;
    }
    if !unchanged {
        return true;
    }
    let mut changes: Vec<Finding> = Vec::new();
    diff_container(before, after, &mut changes);
    assert(findings::finding_views(changes@) == container_findings(*before, *after));
    changes.len() == 0
}

/// Finds the first container of the name, and unchanged if so asked, that is not taken.
fn find_partner(
    before: &Vec<Container>,
    after: &Vec<Container>,
    taken: &Vec<Option<usize>>,
    unchanged: bool,
    i: usize,
) -> (r: Option<usize>)
    requires
        i < before@.len(),
    ensures
        pairing::place(r) == pairing::first_free(
            pairing::places(taken@),
            namesakes(before@, after@, unchanged),
            i as int,
            0,
            after@.len() as int,
        ),
{
    let ghost fits = namesakes(before@, after@, unchanged);
    let ghost all = pairing::places(taken@);
    let mut j: usize = 0;
    while j < after.len()
        invariant
            i < before@.len(),
            j <= after@.len(),
            fits == namesakes(before@, after@, unchanged),
            all == pairing::places(taken@),
            pairing::first_free(all, fits, i as int, 0, after@.len() as int)
                == pairing::first_free(all, fits, i as int, j as int, after@.len() as int),
        decreases after@.len() - j,
    {
        assert(fits(i as int, j as int) == (before@[i as int].name@ == after@[j as int].name@ && (
        unchanged ==> container_findings(before@[i as int], after@[j as int]).len() == 0)));
        if pairing::is_free(taken, j) && are_namesakes(&before[i], &after[j], unchanged) {
            return Some(j);
        }
        j += 1;
    }
    None
}

/// Lets each container that has no partner yet take the first one that fits.
fn claim_partners(
    before: &Vec<Container>,
    after: &Vec<Container>,
    unchanged: bool,
    taken: &mut Vec<Option<usize>>,
)
    requires
        old(taken)@.len() == before@.len(),
    ensures
        pairing::places(final(taken)@) == pairing::claims(
            pairing::places(old(taken)@),
            namesakes(before@, after@, unchanged),
            after@.len() as int,
            before@.len() as int,
        ),
{
    let ghost fits = namesakes(before@, after@, unchanged);
    let ghost start = pairing::places(taken@);
    let ghost end = after@.len() as int;
    let mut i: usize = 0;
    while i < before.len()
        invariant
            i <= before@.len(),
            taken@.len() == before@.len(),
            end == after@.len(),
            fits == namesakes(before@, after@, unchanged),
            pairing::places(taken@) == pairing::claims(start, fits, end, i as int),
        decreases before@.len() - i,
    {
        let ghost so_far = pairing::places(taken@);
        assert(so_far[i as int] == pairing::place(taken@[i as int]));
        if taken[i].is_none() {
            let found = find_partner(before, after, taken, unchanged, i);
            taken.set(i, found);
            assert(pairing::places(taken@) == so_far.update(i as int, pairing::place(found)));
        }
        i += 1;
    }
}

/// Pairs the containers.
fn pair_containers(before: &Vec<Container>, after: &Vec<Container>) -> (r: Vec<Option<usize>>)
    ensures
        pairing::places(r@) == partners(before@, after@),
{
    let mut taken: Vec<Option<usize>> = Vec::new();
    let mut i: usize = 0;
    while i < before.len()
        invariant
            i <= before@.len(),
            taken@.len() == i,
            forall|k: int| 0 <= k < i ==> (#[trigger] taken@[k]) is None,
        decreases before@.len() - i,
    {
        taken.push(None);
        i += 1;
    }
    assert(pairing::places(taken@) == pairing::nobody(before@.len()));
    claim_partners(before, after, true, &mut taken);
    proof {
        pairing::lemma_claims_len(
            pairing::nobody(before@.len()),
            namesakes(before@, after@, true),
            after@.len() as int,
            before@.len() as int,
        );
    }
    claim_partners(before, after, false, &mut taken);
    taken
}

/// Compares two manifests and returns every finding, in a stable order: on the resource type,
/// on the replicas, on the containers in the order in which `before` has them, and on the
/// containers that `after` adds. Labels and all that is not modelled are not compared, nor is
/// the order of containers and volume mounts. Nor is the order of variables, but that of two
/// of one name the last one counts.
pub fn diff_manifests(before: &Manifest, after: &Manifest) -> (r: Vec<Finding>)
    ensures
        findings::finding_views(r@) == manifest_findings(*before, *after),
{
    let mut findings: Vec<Finding> = Vec::new();
    if before.kind != after.kind || before.api_version != after.api_version {
        let before_type = resource_type_text(before);
        let after_type = resource_type_text(after);
        report(
            &mut findings,
            Severity::Breaking,
            change_text("resource type", before_type.as_str(), after_type.as_str()),
        );
    }
    assert(findings::finding_views(findings@) == type_findings(*before, *after));
    check_replicas(before, after, &mut findings);

    let before_containers = &before.spec.template.spec.containers;
    let after_containers = &after.spec.template.spec.containers;
    let pairs = pair_containers(before_containers, after_containers);
    proof {
        lemma_partners(before_containers@, after_containers@);
    }

    let ghost start = findings::finding_views(findings@);
    let ghost kept = all_kept(before_containers@, after_containers@);
    let mut i: usize = 0;
    assert(kept.take(0).flatten() == Seq::<FindingView>::empty());
    while i < before_containers.len()
        invariant
            i <= before_containers@.len(),
            pairs@.len() == before_containers@.len(),
            pairing::places(pairs@) == partners(before_containers@, after_containers@),
            pairing::within(pairing::places(pairs@), after_containers@.len() as int),
            kept == all_kept(before_containers@, after_containers@),
            findings::finding_views(findings@) == start + kept.take(i as int).flatten(),
        decreases before_containers@.len() - i,
    {
        let b = &before_containers[i];
        proof {
            assert(kept.take(i + 1) == kept.take(i as int).push(kept[i as int]));
            kept.take(i as int).lemma_flatten_push(kept[i as int]);
            assert(pairing::places(pairs@)[i as int] == pairing::place(pairs@[i as int]));
        }
        match pairs[i] {
            None => {
                report(
                    &mut findings,
                    Severity::Breaking,
                    container_text(b.name.as_str(), "was removed"),
                );
            },
            Some(j) => {
                diff_container(b, &after_containers[j], &mut findings);
            },
        }
        i += 1;
    }
    assert(kept.take(i as int) == kept);

    let ghost middle = findings::finding_views(findings@);
    let ghost added = all_added(before_containers@, after_containers@);
    let mut k: usize = 0;
    assert(added.take(0).flatten() == Seq::<FindingView>::empty());
    while k < after_containers.len()
        invariant
            k <= after_containers@.len(),
            pairing::places(pairs@) == partners(before_containers@, after_containers@),
            added == all_added(before_containers@, after_containers@),
            findings::finding_views(findings@) == middle + added.take(k as int).flatten(),
        decreases after_containers@.len() - k,
    {
        let a = &after_containers[k];
        proof {
            assert(added.take(k + 1) == added.take(k as int).push(added[k as int]));
            added.take(k as int).lemma_flatten_push(added[k as int]);
        }
        if pairing::is_free(&pairs, k) {
            report(
                &mut findings,
                Severity::Info,
                container_text(a.name.as_str(), "was added"),
            );
        }
        k += 1;
    }
    assert(added.take(k as int) == added);
    findings
}

} // verus!
