//! What holds of the findings as a whole.

use vstd::prelude::*;

use crate::diff;
use crate::diff::Compared;
use crate::findings;
use crate::findings::{FindingView, Severity};
use crate::image;
use crate::manifest;
use crate::manifest::{
    Container, DeploymentSpec, EnvVar, Manifest, Metadata, PodTemplate, VolumeMount,
};
use crate::names;
use crate::names::Named;
use crate::pairing;
use crate::yaml;
use crate::yaml::{Entry, Value};

verus! {

// ---------------------------------------------------------------------
// When a severity occurs
// ---------------------------------------------------------------------

/// A severity occurs in joined lists where it occurs in one of them.
proof fn lemma_severity_joined(a: Seq<FindingView>, b: Seq<FindingView>, s: Severity)
    ensures
        findings::has_severity(a + b, s) <==> (findings::has_severity(a, s)
            || findings::has_severity(b, s)),
{
    let all = a + b;
    if findings::has_severity(a, s) {
        let i = choose|i: int| 0 <= i < a.len() && (#[trigger] a[i]).severity == s;
        assert(all[i] == a[i]);
    }
    if findings::has_severity(b, s) {
        let i = choose|i: int| 0 <= i < b.len() && (#[trigger] b[i]).severity == s;
        assert(all[a.len() + i] == b[i]);
    }
    if findings::has_severity(all, s) {
        let i = choose|i: int| 0 <= i < all.len() && (#[trigger] all[i]).severity == s;
        if i < a.len() {
            assert(all[i] == a[i]);
        } else {
            assert(all[i] == b[i - a.len()]);
        }
    }
}

/// A severity occurs in lists put together where it occurs in one of them.
proof fn lemma_severity_of_pieces(pieces: Seq<Seq<FindingView>>, s: Severity)
    ensures
        findings::has_severity(pieces.flatten(), s) <==> exists|i: int|
            0 <= i < pieces.len() && findings::has_severity(#[trigger] pieces[i], s),
    decreases pieces.len(),
{
    if pieces.len() > 0 {
        let rest = pieces.drop_last();
        let last = pieces.last();
        assert(pieces == rest.push(last));
        rest.lemma_flatten_push(last);
        lemma_severity_of_pieces(rest, s);
        lemma_severity_joined(rest.flatten(), last, s);
        if findings::has_severity(rest.flatten(), s) {
            let i = choose|i: int|
                0 <= i < rest.len() && findings::has_severity(#[trigger] rest[i], s);
            assert(pieces[i] == rest[i]);
        }
        if findings::has_severity(last, s) {
            assert(pieces[pieces.len() - 1] == last);
        }
        if exists|i: int| 0 <= i < pieces.len() && findings::has_severity(#[trigger] pieces[i], s) {
            let i = choose|i: int|
                0 <= i < pieces.len() && findings::has_severity(#[trigger] pieces[i], s);
            if i < rest.len() {
                assert(rest[i] == pieces[i]);
            }
        }
    }
}

/// Which severities are found of named items: those found of the items of one name.
proof fn lemma_severity_of_named<T: Compared>(
    container: Seq<char>,
    before: Seq<T>,
    after: Seq<T>,
    s: Severity,
)
    requires
        forall|n: Seq<char>|
            !names::names_of(before).contains(n) && !names::names_of(after).contains(n)
                ==> (#[trigger] T::change(container, n, before, after)).len() == 0,
    ensures
        (exists|n: Seq<char>|
            findings::has_severity(#[trigger] T::change(container, n, before, after), s))
            <==> findings::has_severity(diff::item_findings(container, before, after), s),
{
    let step = diff::change_step(container, before, after);
    let listed = names::names_of_both(before, after);
    let pieces = listed.map_values(step);
    lemma_severity_of_pieces(pieces, s);
    names::law_names_of_both(before, after);
    if exists|i: int| 0 <= i < pieces.len() && findings::has_severity(#[trigger] pieces[i], s) {
        let i = choose|i: int|
            0 <= i < pieces.len() && findings::has_severity(#[trigger] pieces[i], s);
        assert(pieces[i] == T::change(container, listed[i], before, after));
    }
    if exists|n: Seq<char>|
        findings::has_severity(#[trigger] T::change(container, n, before, after), s) {
        let n = choose|n: Seq<char>|
            findings::has_severity(#[trigger] T::change(container, n, before, after), s);
        assert(listed.contains(n));
        let i = choose|i: int| 0 <= i < listed.len() && listed[i] == n;
        assert(pieces[i] == step(n));
    }
}

/// What was there and is gone.
pub open spec fn lost<T>(before: Option<T>, after: Option<T>) -> bool {
    before is Some && after is None
}

/// What was not there and is now.
pub open spec fn gained<T>(before: Option<T>, after: Option<T>) -> bool {
    before is None && after is Some
}

/// A variable that both have, with another value.
pub open spec fn env_altered(before: Option<EnvVar>, after: Option<EnvVar>) -> bool {
    before is Some && after is Some && !manifest::same_env_value(before->0, after->0)
}

/// A probe that both have, with another body.
pub open spec fn probe_altered(before: Option<Value>, after: Option<Value>) -> bool {
    before is Some && after is Some && !yaml::same_value(before->0, after->0)
}

/// The variable of a name.
pub open spec fn env_of(c: Container, name: Seq<char>) -> Option<EnvVar> {
    names::last_named(c.env@, name)
}

/// The paths at which a container mounts a volume and another one does not.
pub open spec fn paths_only_in(here: Container, there: Container, name: Seq<char>) -> Seq<
    Seq<char>,
> {
    diff::paths_only_in(here.volume_mounts@, there.volume_mounts@, name)
}

/// Whether a volume is mounted at fewer paths than before, those aside that it keeps.
pub open spec fn mount_lost(before: Container, after: Container, name: Seq<char>) -> bool {
    paths_only_in(before, after, name).len() > paths_only_in(after, before, name).len()
}

/// Whether a volume is mounted at other paths in place of some that it loses.
pub open spec fn mount_altered(before: Container, after: Container, name: Seq<char>) -> bool {
    paths_only_in(before, after, name).len() > 0 && paths_only_in(after, before, name).len() > 0
}

/// Whether a volume is mounted at more paths than before, those aside that it keeps.
pub open spec fn mount_gained(before: Container, after: Container, name: Seq<char>) -> bool {
    paths_only_in(before, after, name).len() < paths_only_in(after, before, name).len()
}

/// Whether a container loses a variable, a volume mount or a probe.
pub open spec fn loses(before: Container, after: Container) -> bool {
    ||| exists|n: Seq<char>| lost(#[trigger] env_of(before, n), env_of(after, n))
    ||| exists|n: Seq<char>| mount_lost(before, after, n)
    ||| lost(before.liveness_probe, after.liveness_probe)
    ||| lost(before.readiness_probe, after.readiness_probe)
}

/// Whether a container changes its image, or a variable, a volume mount or a probe that it
/// keeps.
pub open spec fn alters(before: Container, after: Container) -> bool {
    ||| before.image@ != after.image@
    ||| exists|n: Seq<char>| env_altered(#[trigger] env_of(before, n), env_of(after, n))
    ||| exists|n: Seq<char>| mount_altered(before, after, n)
    ||| probe_altered(before.liveness_probe, after.liveness_probe)
    ||| probe_altered(before.readiness_probe, after.readiness_probe)
}

/// Whether a container gains a variable, a volume mount or a probe.
pub open spec fn gains(before: Container, after: Container) -> bool {
    ||| exists|n: Seq<char>| gained(#[trigger] env_of(before, n), env_of(after, n))
    ||| exists|n: Seq<char>| mount_gained(before, after, n)
    ||| gained(before.liveness_probe, after.liveness_probe)
    ||| gained(before.readiness_probe, after.readiness_probe)
}

/// Which severities are found of the variables of a container.
proof fn lemma_env_severity(before: Container, after: Container, s: Severity)
    ensures
        findings::has_severity(diff::item_findings(before.name@, before.env@, after.env@), s)
            <==> match s {
            Severity::Breaking => exists|n: Seq<char>|
                lost(#[trigger] env_of(before, n), env_of(after, n)),
            Severity::Risky => exists|n: Seq<char>|
                env_altered(#[trigger] env_of(before, n), env_of(after, n)),
            Severity::Info => exists|n: Seq<char>|
                gained(#[trigger] env_of(before, n), env_of(after, n)),
        },
{
    let x = before.env@;
    let y = after.env@;
    let c = before.name@;
    assert forall|n: Seq<char>|
        !names::names_of(x).contains(n) && !names::names_of(y).contains(n) implies (
    #[trigger] EnvVar::change(c, n, x, y)).len() == 0 by {
        names::lemma_last_named(x, n);
        names::lemma_last_named(y, n);
    }
    lemma_severity_of_named(c, x, y, s);
    assert forall|n: Seq<char>|
        #![trigger EnvVar::change(c, n, x, y)]
        #![trigger env_of(before, n)]
        findings::has_severity(EnvVar::change(c, n, x, y), s) <==> match s {
            Severity::Breaking => lost(env_of(before, n), env_of(after, n)),
            Severity::Risky => env_altered(env_of(before, n), env_of(after, n)),
            Severity::Info => gained(env_of(before, n), env_of(after, n)),
        } by {
        let found = EnvVar::change(c, n, x, y);
        if found.len() > 0 {
            assert(found[0].severity == s <==> findings::has_severity(found, s));
        }
    }
}

/// Which severities are found of the volume mounts of a container.
proof fn lemma_mount_severity(before: Container, after: Container, s: Severity)
    ensures
        findings::has_severity(
            diff::item_findings(before.name@, before.volume_mounts@, after.volume_mounts@),
            s,
        ) <==> match s {
            Severity::Breaking => exists|n: Seq<char>| mount_lost(before, after, n),
            Severity::Risky => exists|n: Seq<char>| mount_altered(before, after, n),
            Severity::Info => exists|n: Seq<char>| mount_gained(before, after, n),
        },
{
    let x = before.volume_mounts@;
    let y = after.volume_mounts@;
    let c = before.name@;
    assert forall|n: Seq<char>|
        !names::names_of(x).contains(n) && !names::names_of(y).contains(n) implies (
    #[trigger] VolumeMount::change(c, n, x, y)).len() == 0 by {
        lemma_no_paths(x, y, n);
        lemma_no_paths(y, x, n);
    }
    lemma_severity_of_named(c, x, y, s);
    assert forall|n: Seq<char>|
        #![trigger VolumeMount::change(c, n, x, y)]
        #![trigger mount_lost(before, after, n)]
        #![trigger mount_altered(before, after, n)]
        #![trigger mount_gained(before, after, n)]
        findings::has_severity(VolumeMount::change(c, n, x, y), s) <==> match s {
            Severity::Breaking => mount_lost(before, after, n),
            Severity::Risky => mount_altered(before, after, n),
            Severity::Info => mount_gained(before, after, n),
        } by {
        let found = VolumeMount::change(c, n, x, y);
        let from = paths_only_in(before, after, n);
        let to = paths_only_in(after, before, n);
        assert(forall|k: int|
            0 <= k < found.len() ==> #[trigger] found[k] == diff::mount_finding(c, n, from, to, k));
        if from.len() > 0 && to.len() > 0 {
            assert(found[0].severity == Severity::Risky);
        }
        if from.len() != to.len() {
            assert(found[found.len() - 1].severity == if from.len() > to.len() {
                Severity::Breaking
            } else {
                Severity::Info
            });
        }
    }
}

/// A volume that is not mounted here has no path here alone.
proof fn lemma_no_paths(here: Seq<VolumeMount>, there: Seq<VolumeMount>, name: Seq<char>)
    requires
        !names::names_of(here).contains(name),
    ensures
        diff::paths_only_in(here, there, name).len() == 0,
{
    let found = diff::paths_only_in(here, there, name);
    lemma_paths_only_in(here, there, name);
    if found.len() > 0 {
        assert(found.contains(found[0]));
        let i = choose|i: int|
            0 <= i < here.len() && (#[trigger] here[i]).name@ == name && here[i].mount_path@
                == found[0];
        assert(names::names_of(here)[i] == here[i].name_text());
    }
}

/// The paths of a volume here alone are those at which it is mounted here and not there,
/// increasing.
pub proof fn lemma_paths_only_in(here: Seq<VolumeMount>, there: Seq<VolumeMount>, name: Seq<char>)
    ensures
        names::increasing(diff::paths_only_in(here, there, name)),
        forall|path: Seq<char>| #[trigger]
            diff::paths_only_in(here, there, name).contains(path) <==> (diff::mounted(
                here,
                name,
                path,
            ) && !diff::mounted(there, name, path)),
{
    let missing = diff::missing_in(there, name);
    let left = here.filter(missing);
    names::law_ordered_lists_the_names(diff::paths(left));
    assert forall|path: Seq<char>| #[trigger]
        diff::paths_only_in(here, there, name).contains(path) <==> (diff::mounted(here, name, path)
            && !diff::mounted(there, name, path)) by {
        if diff::paths(left).contains(path) {
            let k = choose|k: int| 0 <= k < left.len() && diff::paths(left)[k] == path;
            here.lemma_filter_pred(missing, k);
            assert(left.contains(left[k]));
            here.lemma_filter_contains_rev(missing, left[k]);
            let i = choose|i: int| 0 <= i < here.len() && here[i] == left[k];
            assert(here[i].name@ == name);
        }
        if diff::mounted(here, name, path) && !diff::mounted(there, name, path) {
            let i = choose|i: int|
                0 <= i < here.len() && (#[trigger] here[i]).name@ == name && here[i].mount_path@
                    == path;
            assert(missing(here[i]));
            here.lemma_filter_contains(missing, i);
            let k = choose|k: int| 0 <= k < left.len() && left[k] == here[i];
            assert(diff::paths(left)[k] == path);
        }
    }
}

/// Which severities are found of a probe.
proof fn lemma_probe_severity(
    container: Seq<char>,
    probe: Seq<char>,
    before: Option<Value>,
    after: Option<Value>,
    s: Severity,
)
    ensures
        findings::has_severity(diff::probe_findings(container, probe, before, after), s)
            <==> match s {
            Severity::Breaking => lost(before, after),
            Severity::Risky => probe_altered(before, after),
            Severity::Info => gained(before, after),
        },
{
    let found = diff::probe_findings(container, probe, before, after);
    if found.len() > 0 {
        assert(found[0].severity == s <==> findings::has_severity(found, s));
    }
}

/// Of a container that both manifests have, a loss is breaking and nothing else is; a change
/// is risky and nothing else is; a gain is only worth noting and nothing else is.
pub proof fn law_container_severities(before: Container, after: Container)
    ensures
        findings::has_severity(diff::container_findings(before, after), Severity::Breaking)
            <==> loses(before, after),
        findings::has_severity(diff::container_findings(before, after), Severity::Risky)
            <==> alters(before, after),
        findings::has_severity(diff::container_findings(before, after), Severity::Info)
            <==> gains(before, after),
{
    lemma_container_severity(before, after, Severity::Breaking);
    lemma_container_severity(before, after, Severity::Risky);
    lemma_container_severity(before, after, Severity::Info);
}

/// Which severities are found of a container that both manifests have.
proof fn lemma_container_severity(before: Container, after: Container, s: Severity)
    ensures
        findings::has_severity(diff::container_findings(before, after), s) <==> match s {
            Severity::Breaking => loses(before, after),
            Severity::Risky => alters(before, after),
            Severity::Info => gains(before, after),
        },
{
    let name = before.name@;
    let p1 = diff::image_findings(name, before.image@, after.image@);
    let p2 = diff::item_findings(name, before.env@, after.env@);
    let p3 = diff::item_findings(name, before.volume_mounts@, after.volume_mounts@);
    let p4 = diff::probe_findings(
        name,
        "livenessProbe"@,
        before.liveness_probe,
        after.liveness_probe,
    );
    let p5 = diff::probe_findings(
        name,
        "readinessProbe"@,
        before.readiness_probe,
        after.readiness_probe,
    );
    lemma_severity_joined(p1, p2, s);
    lemma_severity_joined(p1 + p2, p3, s);
    lemma_severity_joined(p1 + p2 + p3, p4, s);
    lemma_severity_joined(p1 + p2 + p3 + p4, p5, s);
    if p1.len() > 0 {
        assert(p1[0].severity == s <==> findings::has_severity(p1, s));
    }
    lemma_env_severity(before, after, s);
    lemma_mount_severity(before, after, s);
    lemma_probe_severity(
        name,
        "livenessProbe"@,
        before.liveness_probe,
        after.liveness_probe,
        s,
    );
    lemma_probe_severity(
        name,
        "readinessProbe"@,
        before.readiness_probe,
        after.readiness_probe,
        s,
    );
}

/// The container that the one at a place is held against.
pub open spec fn partner(before: Manifest, after: Manifest, i: int) -> Option<Container> {
    match diff::partners(diff::containers(before), diff::containers(after))[i] {
        Some(j) => Some(diff::containers(after)[j]),
        None => None,
    }
}

/// Whether no container is held against the one at a place.
pub open spec fn is_new(before: Manifest, after: Manifest, j: int) -> bool {
    pairing::free(diff::partners(diff::containers(before), diff::containers(after)), j)
}

/// Whether two manifests have the same API version and kind.
pub open spec fn same_type(before: Manifest, after: Manifest) -> bool {
    before.kind@ == after.kind@ && before.api_version@ == after.api_version@
}

/// Exactly these changes are breaking: another resource type, replicas reduced to 0, a removed
/// container, and a container that loses a variable, a volume mount or a probe.
pub open spec fn is_breaking(before: Manifest, after: Manifest) -> bool {
    ||| !same_type(before, after)
    ||| diff::replicas(after) < diff::replicas(before) && diff::replicas(after) == 0
    ||| exists|i: int|
        0 <= i < diff::containers(before).len() && match #[trigger] partner(before, after, i) {
            None => true,
            Some(a) => loses(diff::containers(before)[i], a),
        }
}

/// Exactly these changes are risky: replicas reduced to another number, and a container that
/// changes its image or what it keeps.
pub open spec fn is_risky(before: Manifest, after: Manifest) -> bool {
    ||| diff::replicas(after) < diff::replicas(before) && diff::replicas(after) != 0
    ||| exists|i: int|
        0 <= i < diff::containers(before).len() && match #[trigger] partner(before, after, i) {
            None => false,
            Some(a) => alters(diff::containers(before)[i], a),
        }
}

/// Exactly these changes are worth noting only: a new container, and a container that gains a
/// variable, a volume mount or a probe.
pub open spec fn is_noted(before: Manifest, after: Manifest) -> bool {
    ||| exists|i: int|
        0 <= i < diff::containers(before).len() && match #[trigger] partner(before, after, i) {
            None => false,
            Some(a) => gains(diff::containers(before)[i], a),
        }
    ||| exists|j: int|
        0 <= j < diff::containers(after).len() && is_new(before, after, j)
}

/// A severity occurs among the findings exactly where there is a change of that severity.
pub proof fn law_severities(before: Manifest, after: Manifest)
    ensures
        findings::has_severity(diff::manifest_findings(before, after), Severity::Breaking)
            <==> is_breaking(before, after),
        findings::has_severity(diff::manifest_findings(before, after), Severity::Risky)
            <==> is_risky(before, after),
        findings::has_severity(diff::manifest_findings(before, after), Severity::Info)
            <==> is_noted(before, after),
{
    lemma_manifest_severity(before, after, Severity::Breaking);
    lemma_manifest_severity(before, after, Severity::Risky);
    lemma_manifest_severity(before, after, Severity::Info);
}

/// The exit code is 2 exactly where a change is breaking, and otherwise 1 exactly where one is
/// risky.
pub proof fn law_exit_status(before: Manifest, after: Manifest)
    ensures
        findings::exit_status(diff::manifest_findings(before, after)) == if is_breaking(
            before,
            after,
        ) {
            2int
        } else if is_risky(before, after) {
            1
        } else {
            0
        },
{
    law_severities(before, after);
}

/// Which severities are found of two manifests.
proof fn lemma_manifest_severity(before: Manifest, after: Manifest, s: Severity)
    ensures
        findings::has_severity(diff::manifest_findings(before, after), s) <==> match s {
            Severity::Breaking => is_breaking(before, after),
            Severity::Risky => is_risky(before, after),
            Severity::Info => is_noted(before, after),
        },
{
    let p1 = diff::type_findings(before, after);
    let p2 = diff::replica_findings(diff::replicas(before), diff::replicas(after));
    let bs = diff::containers(before);
    let aas = diff::containers(after);
    let kept = diff::all_kept(bs, aas);
    let added = diff::all_added(bs, aas);
    lemma_severity_joined(p1, p2, s);
    lemma_severity_joined(p1 + p2, kept.flatten(), s);
    lemma_severity_joined(p1 + p2 + kept.flatten(), added.flatten(), s);
    if p1.len() > 0 {
        assert(p1[0].severity == s <==> findings::has_severity(p1, s));
    }
    if p2.len() > 0 {
        assert(p2[0].severity == s <==> findings::has_severity(p2, s));
    }
    lemma_severity_of_pieces(kept, s);
    lemma_severity_of_pieces(added, s);
    assert forall|i: int|
        #![trigger kept[i]]
        #![trigger partner(before, after, i)]
        0 <= i < bs.len() implies findings::has_severity(kept[i], s) == (match partner(
        before,
        after,
        i,
    ) {
        None => s == Severity::Breaking,
        Some(a) => match s {
            Severity::Breaking => loses(bs[i], a),
            Severity::Risky => alters(bs[i], a),
            Severity::Info => gains(bs[i], a),
        },
    }) by {
        match partner(before, after, i) {
            None => {
                assert(kept[i][0].severity == Severity::Breaking);
            },
            Some(a) => {
                lemma_container_severity(bs[i], a, s);
            },
        }
    }
    assert forall|j: int|
        #![trigger added[j]]
        #![trigger is_new(before, after, j)]
        0 <= j < aas.len() implies findings::has_severity(added[j], s) == (s == Severity::Info
        && is_new(before, after, j)) by {
        if is_new(before, after, j) {
            assert(added[j][0].severity == Severity::Info);
        }
    }
}

// ---------------------------------------------------------------------
// When there is nothing to report
// ---------------------------------------------------------------------

/// Whether two containers agree in all that is checked.
pub open spec fn alike(before: Container, after: Container) -> bool {
    &&& before.image@ == after.image@
    &&& forall|n: Seq<char>| same_env(#[trigger] env_of(before, n), env_of(after, n))
    &&& forall|n: Seq<char>, path: Seq<char>| #[trigger]
        diff::mounted(before.volume_mounts@, n, path) <==> diff::mounted(
            after.volume_mounts@,
            n,
            path,
        )
    &&& manifest::same_optional_value(before.liveness_probe, after.liveness_probe)
    &&& manifest::same_optional_value(before.readiness_probe, after.readiness_probe)
}

/// Whether a variable is in neither, or in both with one value.
pub open spec fn same_env(before: Option<EnvVar>, after: Option<EnvVar>) -> bool {
    match (before, after) {
        (Some(b), Some(a)) => manifest::same_env_value(b, a),
        (None, None) => true,
        _ => false,
    }
}

/// A container that is alike loses, changes and gains nothing, and the other way round.
pub proof fn lemma_alike(before: Container, after: Container)
    ensures
        alike(before, after) <==> (!loses(before, after) && !alters(before, after) && !gains(
            before,
            after,
        )),
{
    assert forall|n: Seq<char>|
        #![trigger env_of(before, n)]
        same_env(env_of(before, n), env_of(after, n)) <==> !lost(
            env_of(before, n),
            env_of(after, n),
        ) && !env_altered(env_of(before, n), env_of(after, n)) && !gained(
            env_of(before, n),
            env_of(after, n),
        ) by {}
    let x = before.volume_mounts@;
    let y = after.volume_mounts@;
    assert forall|n: Seq<char>|
        #![trigger mount_lost(before, after, n)]
        #![trigger mount_altered(before, after, n)]
        #![trigger mount_gained(before, after, n)]
        (forall|path: Seq<char>| #[trigger]
            diff::mounted(x, n, path) <==> diff::mounted(y, n, path)) <==> !mount_lost(
            before,
            after,
            n,
        ) && !mount_altered(before, after, n) && !mount_gained(before, after, n) by {
        lemma_same_paths(x, y, n);
        lemma_same_paths(y, x, n);
    }
    if !loses(before, after) && !alters(before, after) && !gains(before, after) {
        assert forall|n: Seq<char>, path: Seq<char>| #[trigger]
            diff::mounted(x, n, path) <==> diff::mounted(y, n, path) by {
            assert(!mount_lost(before, after, n));
        }
    }
    if alike(before, after) {
        assert forall|n: Seq<char>|
            !mount_lost(before, after, n) && !mount_altered(before, after, n) && !mount_gained(
                before,
                after,
                n,
            ) by {}
    }
}

/// There is no path of a volume here alone exactly where all its paths here are there too.
proof fn lemma_same_paths(here: Seq<VolumeMount>, there: Seq<VolumeMount>, name: Seq<char>)
    ensures
        diff::paths_only_in(here, there, name).len() == 0 <==> forall|path: Seq<char>| #[trigger]
            diff::mounted(here, name, path) ==> diff::mounted(there, name, path),
{
    let found = diff::paths_only_in(here, there, name);
    lemma_paths_only_in(here, there, name);
    if found.len() > 0 {
        assert(found.contains(found[0]));
    } else {
        assert forall|path: Seq<char>| #[trigger]
            diff::mounted(here, name, path) implies diff::mounted(there, name, path) by {
            assert(!found.contains(path));
        }
    }
}

/// Nothing is found of a container exactly where the two agree in all that is checked.
pub proof fn law_container_is_silent(before: Container, after: Container)
    ensures
        diff::container_findings(before, after).len() == 0 <==> alike(before, after),
{
    law_container_severities(before, after);
    findings::law_worst_is_the_highest(diff::container_findings(before, after));
    lemma_alike(before, after);
}

/// Whether there is nothing to report: the type is the same, the replicas are not reduced, each
/// container is held against one that it agrees with, and no container is new.
pub open spec fn nothing_to_report(before: Manifest, after: Manifest) -> bool {
    &&& same_type(before, after)
    &&& diff::replicas(after) >= diff::replicas(before)
    &&& forall|i: int|
        0 <= i < diff::containers(before).len() ==> match #[trigger] partner(before, after, i) {
            None => false,
            Some(a) => alike(diff::containers(before)[i], a),
        }
    &&& forall|j: int| 0 <= j < diff::containers(after).len() ==> !is_new(before, after, j)
}

/// There are no findings exactly where there is nothing to report.
pub proof fn law_silence(before: Manifest, after: Manifest)
    ensures
        diff::manifest_findings(before, after).len() == 0 <==> nothing_to_report(before, after),
{
    law_severities(before, after);
    findings::law_worst_is_the_highest(diff::manifest_findings(before, after));
    assert forall|b: Container, a: Container| #[trigger] alike(b, a) <==> (!loses(b, a) && !alters(
        b,
        a,
    ) && !gains(b, a)) by {
        lemma_alike(b, a);
    }
    let bs = diff::containers(before);
    if nothing_to_report(before, after) || diff::manifest_findings(before, after).len() == 0 {
        assert forall|i: int| 0 <= i < bs.len() implies (#[trigger] partner(
            before,
            after,
            i,
        )) is Some && alike(bs[i], partner(before, after, i)->0) by {}
    }
}

/// Whether two variables are equal: name and value.
pub open spec fn equal_env(a: EnvVar, b: EnvVar) -> bool {
    a.name@ == b.name@ && manifest::same_env_value(a, b)
}

/// Whether two volume mounts are equal: name and path.
pub open spec fn equal_mount(a: VolumeMount, b: VolumeMount) -> bool {
    a.name@ == b.name@ && a.mount_path@ == b.mount_path@
}

/// Whether two containers are equal, field by field and item by item.
pub open spec fn equal_container(a: Container, b: Container) -> bool {
    &&& a.name@ == b.name@
    &&& a.image@ == b.image@
    &&& a.env@.len() == b.env@.len()
    &&& forall|i: int| 0 <= i < a.env@.len() ==> equal_env(#[trigger] a.env@[i], b.env@[i])
    &&& a.volume_mounts@.len() == b.volume_mounts@.len()
    &&& forall|i: int|
        0 <= i < a.volume_mounts@.len() ==> equal_mount(
            #[trigger] a.volume_mounts@[i],
            b.volume_mounts@[i],
        )
    &&& manifest::same_optional_value(a.liveness_probe, b.liveness_probe)
    &&& manifest::same_optional_value(a.readiness_probe, b.readiness_probe)
}

/// Whether a manifest begins with the containers of another.
pub open spec fn begins_with(after: Manifest, before: Manifest) -> bool {
    &&& diff::containers(before).len() <= diff::containers(after).len()
    &&& forall|i: int|
        0 <= i < diff::containers(before).len() ==> equal_container(
            #[trigger] diff::containers(before)[i],
            diff::containers(after)[i],
        )
}

/// Whether two manifests are equal in all but their names and labels.
pub open spec fn equal_manifest(a: Manifest, b: Manifest) -> bool {
    &&& same_type(a, b)
    &&& diff::replicas(a) == diff::replicas(b)
    &&& diff::containers(a).len() == diff::containers(b).len()
    &&& begins_with(b, a)
}

/// In lists with the same names in the same places, the last item of a name stands in the same
/// place.
proof fn lemma_last_in_place<T: Named>(x: Seq<T>, y: Seq<T>, name: Seq<char>)
    requires
        x.len() == y.len(),
        forall|i: int| 0 <= i < x.len() ==> (#[trigger] x[i]).name_text() == y[i].name_text(),
    ensures
        match names::last_named(x, name) {
            Some(t) => exists|k: int|
                0 <= k < x.len() && #[trigger] x[k] == t && names::last_named(y, name) == Some(
                    y[k],
                ),
            None => names::last_named(y, name) is None,
        },
    decreases x.len(),
{
    if x.len() > 0 {
        let n = x.len() - 1;
        assert(x[n].name_text() == y[n].name_text());
        if x[n].name_text() != name {
            let u = x.drop_last();
            let v = y.drop_last();
            assert forall|i: int| 0 <= i < u.len() implies (#[trigger] u[i]).name_text()
                == v[i].name_text() by {
                assert(x[i].name_text() == y[i].name_text());
            }
            lemma_last_in_place(u, v, name);
            if let Some(t) = names::last_named(u, name) {
                let k = choose|k: int|
                    0 <= k < u.len() && #[trigger] u[k] == t && names::last_named(v, name)
                        == Some(v[k]);
                assert(x[k] == t);
            }
        }
    }
}

/// Equal containers agree in all that is checked.
pub proof fn lemma_equal_is_alike(a: Container, b: Container)
    requires
        equal_container(a, b),
    ensures
        alike(a, b),
{
    let x = a.env@;
    let y = b.env@;
    assert forall|i: int| 0 <= i < x.len() implies (#[trigger] x[i]).name_text()
        == y[i].name_text() by {
        assert(equal_env(x[i], y[i]));
    }
    assert forall|n: Seq<char>| same_env(#[trigger] env_of(a, n), env_of(b, n)) by {
        lemma_last_in_place(x, y, n);
        if let Some(e) = env_of(a, n) {
            let k = choose|k: int|
                0 <= k < x.len() && #[trigger] x[k] == e && names::last_named(y, n) == Some(y[k]);
            assert(equal_env(x[k], y[k]));
        }
    }
    let u = a.volume_mounts@;
    let v = b.volume_mounts@;
    assert forall|n: Seq<char>, path: Seq<char>| #[trigger]
        diff::mounted(u, n, path) <==> diff::mounted(v, n, path) by {
        if diff::mounted(u, n, path) {
            let i = choose|i: int|
                0 <= i < u.len() && (#[trigger] u[i]).name@ == n && u[i].mount_path@ == path;
            assert(equal_mount(u[i], v[i]));
        }
        if diff::mounted(v, n, path) {
            let i = choose|i: int|
                0 <= i < v.len() && (#[trigger] v[i]).name@ == n && v[i].mount_path@ == path;
            assert(equal_mount(u[i], v[i]));
        }
    }
}

/// A container equals itself.
pub proof fn lemma_equal_reflexive(c: Container)
    ensures
        equal_container(c, c),
{
    assert forall|i: int| 0 <= i < c.env@.len() implies equal_env(
        #[trigger] c.env@[i],
        c.env@[i],
    ) by {
        if let Some(v) = c.env@[i].value_from {
            yaml::law_same_value_reflexive(v);
        }
    }
    if let Some(v) = c.liveness_probe {
        yaml::law_same_value_reflexive(v);
    }
    if let Some(v) = c.readiness_probe {
        yaml::law_same_value_reflexive(v);
    }
}

/// Where a manifest begins with the containers of another, each is held against the one in its
/// own place, and all the others are new.
proof fn lemma_own_partners(before: Manifest, after: Manifest)
    requires
        begins_with(after, before),
    ensures
        forall|i: int|
            0 <= i < diff::containers(before).len() ==> #[trigger] partner(before, after, i)
                == Some(diff::containers(after)[i]),
        forall|i: int|
            0 <= i < diff::containers(before).len() ==> alike(
                #[trigger] diff::containers(before)[i],
                diff::containers(after)[i],
            ),
        forall|j: int|
            0 <= j < diff::containers(after).len() ==> (#[trigger] is_new(before, after, j) <==> j
                >= diff::containers(before).len()),
{
    let bs = diff::containers(before);
    let aas = diff::containers(after);
    let end = aas.len() as int;
    let fits = diff::namesakes(bs, aas, true);
    assert forall|i: int| 0 <= i < bs.len() implies alike(#[trigger] bs[i], aas[i]) by {
        lemma_equal_is_alike(bs[i], aas[i]);
    }
    assert forall|i: int| 0 <= i < bs.len() implies #[trigger] fits(i, i) by {
        assert(alike(bs[i], aas[i]));
        law_container_is_silent(bs[i], aas[i]);
    }
    pairing::lemma_claims_own(fits, bs.len(), end, bs.len() as int);
    let first = pairing::claims(pairing::nobody(bs.len()), fits, end, bs.len() as int);
    pairing::lemma_claims_nothing(first, diff::namesakes(bs, aas, false), end, bs.len() as int);
    assert forall|j: int| 0 <= j < aas.len() implies (#[trigger] is_new(before, after, j) <==> j
        >= bs.len()) by {
        if j < bs.len() {
            assert(first[j] == Some(j));
        }
    }
}

/// Two equal manifests have no findings, whatever names they repeat and whatever their labels.
pub proof fn law_equal_manifests_are_silent(before: Manifest, after: Manifest)
    requires
        equal_manifest(before, after),
    ensures
        diff::manifest_findings(before, after).len() == 0,
{
    lemma_own_partners(before, after);
    law_silence(before, after);
}

/// A manifest has no findings against itself.
pub proof fn law_identical_manifests_are_silent(m: Manifest)
    ensures
        diff::manifest_findings(m, m).len() == 0,
{
    assert forall|i: int| 0 <= i < diff::containers(m).len() implies equal_container(
        #[trigger] diff::containers(m)[i],
        diff::containers(m)[i],
    ) by {
        lemma_equal_reflexive(diff::containers(m)[i]);
    }
    law_equal_manifests_are_silent(m, m);
}

/// A manifest with other metadata, and with other metadata of its pod template.
pub open spec fn with_metadata(m: Manifest, own: Metadata, pods: Metadata) -> Manifest {
    Manifest {
        metadata: own,
        spec: DeploymentSpec {
            template: PodTemplate { metadata: pods, ..m.spec.template },
            ..m.spec
        },
        ..m
    }
}

/// Names and labels of either manifest make no difference to the findings.
pub proof fn law_metadata_is_not_compared(
    before: Manifest,
    after: Manifest,
    own_before: Metadata,
    pods_before: Metadata,
    own_after: Metadata,
    pods_after: Metadata,
)
    ensures
        diff::manifest_findings(
            with_metadata(before, own_before, pods_before),
            with_metadata(after, own_after, pods_after),
        ) == diff::manifest_findings(before, after),
{
}

/// An edit of labels alone has no findings.
pub proof fn law_label_edit_is_silent(m: Manifest, own: Metadata, pods: Metadata)
    ensures
        diff::manifest_findings(m, with_metadata(m, own, pods)).len() == 0,
{
    law_identical_manifests_are_silent(m);
    law_metadata_is_not_compared(m, m, m.metadata, m.spec.template.metadata, own, pods);
}

// ---------------------------------------------------------------------
// Additions, names, replicas, images and probes
// ---------------------------------------------------------------------

/// Adding containers alone never raises the overall severity above the lowest: there are
/// findings exactly where there are new containers, and they are only worth noting.
pub proof fn law_adding_containers_is_only_noted(before: Manifest, after: Manifest)
    requires
        same_type(before, after),
        diff::replicas(before) == diff::replicas(after),
        begins_with(after, before),
    ensures
        findings::worst(diff::manifest_findings(before, after)) == if diff::containers(after).len()
            > diff::containers(before).len() {
            Some(Severity::Info)
        } else {
            None
        },
{
    let bs = diff::containers(before);
    let aas = diff::containers(after);
    law_severities(before, after);
    lemma_own_partners(before, after);
    assert forall|i: int| 0 <= i < bs.len() implies !loses(#[trigger] bs[i], aas[i]) && !alters(
        bs[i],
        aas[i],
    ) && !gains(bs[i], aas[i]) by {
        lemma_alike(bs[i], aas[i]);
    }
    if aas.len() > bs.len() {
        assert(is_new(before, after, bs.len() as int));
    }
}

/// Where the names of a manifest's containers all differ, containers are held against one
/// another exactly where they share a name, and one is new exactly where none had its name.
pub proof fn law_containers_are_matched_by_name(before: Manifest, after: Manifest)
    requires
        names::names_of(diff::containers(before)).no_duplicates(),
        names::names_of(diff::containers(after)).no_duplicates(),
    ensures
        forall|i: int|
            0 <= i < diff::containers(before).len() ==> #[trigger] partner(before, after, i)
                == names::last_named(diff::containers(after), diff::containers(before)[i].name@),
        forall|j: int|
            0 <= j < diff::containers(after).len() ==> (#[trigger] is_new(before, after, j)
                <==> names::last_named(diff::containers(before), diff::containers(after)[j].name@)
                is None),
{
    let bs = diff::containers(before);
    let aas = diff::containers(after);
    let p = diff::partners(bs, aas);
    diff::lemma_partners(bs, aas);
    assert forall|i: int| 0 <= i < bs.len() implies #[trigger] partner(before, after, i)
        == names::last_named(aas, bs[i].name@) by {
        let n = bs[i].name@;
        names::lemma_last_named(aas, n);
        if let Some(a) = names::last_named(aas, n) {
            let j = choose|j: int| 0 <= j < aas.len() && aas[j] == a;
            assert(names::names_of(aas)[j] == aas[j].name@);
            match p[i] {
                Some(l) => {
                    assert(names::names_of(aas)[l] == aas[l].name@);
                },
                None => {
                    assert(bs[i].name@ == aas[j].name@);
                    let k = choose|k: int| 0 <= k < p.len() && p[k] == Some(j);
                    assert(names::names_of(bs)[k] == bs[k].name@);
                    assert(names::names_of(bs)[i] == bs[i].name@);
                },
            }
        } else if p[i] is Some {
            assert(aas[p[i]->0].name_text() == n);
        }
    }
    assert forall|j: int| 0 <= j < aas.len() implies (#[trigger] is_new(before, after, j)
        <==> names::last_named(bs, aas[j].name@) is None) by {
        let n = aas[j].name@;
        names::lemma_last_named(bs, n);
        if !is_new(before, after, j) {
            let k = choose|k: int| 0 <= k < p.len() && p[k] == Some(j);
            assert(bs[k].name_text() == n);
        }
        if let Some(b) = names::last_named(bs, n) {
            let i = choose|i: int| 0 <= i < bs.len() && bs[i] == b;
            assert(bs[i].name@ == aas[j].name@);
            if let Some(l) = p[i] {
                assert(names::names_of(aas)[l] == names::names_of(aas)[j]);
                assert(p.contains(Some(j)));
            }
        }
    }
}

/// Where no volume is mounted twice, a volume mount that is gone is breaking, one at another
/// path risky, and a new one only worth noting.
pub proof fn law_volumes_mounted_once(
    container: Seq<char>,
    name: Seq<char>,
    before: Seq<VolumeMount>,
    after: Seq<VolumeMount>,
)
    requires
        names::names_of(before).no_duplicates(),
        names::names_of(after).no_duplicates(),
    ensures
        VolumeMount::change(container, name, before, after) == match (
            names::last_named(before, name),
            names::last_named(after, name),
        ) {
            (Some(_), None) => seq![diff::removal(container, diff::item("volumeMount"@, name))],
            (Some(b), Some(a)) => if b.mount_path@ == a.mount_path@ {
                seq![]
            } else {
                seq![
                    diff::alteration(
                        container,
                        diff::change_message(
                            diff::item("volumeMount"@, name) + " path"@,
                            b.mount_path@,
                            a.mount_path@,
                        ),
                    ),
                ]
            },
            (None, Some(_)) => seq![diff::addition(container, diff::item("volumeMount"@, name))],
            (None, None) => seq![],
        },
{
    lemma_mounted_once(before, name);
    lemma_mounted_once(after, name);
    lemma_paths_of_one(before, after, name);
    lemma_paths_of_one(after, before, name);
}

/// A volume that is mounted once is mounted at that path alone.
proof fn lemma_mounted_once(mounts: Seq<VolumeMount>, name: Seq<char>)
    requires
        names::names_of(mounts).no_duplicates(),
    ensures
        forall|path: Seq<char>| #[trigger]
            diff::mounted(mounts, name, path) <==> (match names::last_named(mounts, name) {
                Some(m) => m.mount_path@ == path,
                None => false,
            }),
{
    names::lemma_last_named(mounts, name);
    if let Some(m) = names::last_named(mounts, name) {
        let k = choose|k: int| 0 <= k < mounts.len() && mounts[k] == m;
        assert(mounts[k].name@ == name);
        assert forall|path: Seq<char>| #[trigger]
            diff::mounted(mounts, name, path) implies m.mount_path@ == path by {
            let i = choose|i: int|
                0 <= i < mounts.len() && (#[trigger] mounts[i]).name@ == name
                    && mounts[i].mount_path@ == path;
            assert(names::names_of(mounts)[i] == mounts[i].name@);
            assert(names::names_of(mounts)[k] == mounts[k].name@);
        }
    } else {
        assert forall|path: Seq<char>| !(#[trigger] diff::mounted(mounts, name, path)) by {
            if diff::mounted(mounts, name, path) {
                let i = choose|i: int|
                    0 <= i < mounts.len() && (#[trigger] mounts[i]).name@ == name
                        && mounts[i].mount_path@ == path;
                assert(mounts[i].name_text() == name);
            }
        }
    }
}

/// The paths here alone of a volume that is mounted once on each side.
proof fn lemma_paths_of_one(here: Seq<VolumeMount>, there: Seq<VolumeMount>, name: Seq<char>)
    requires
        names::names_of(here).no_duplicates(),
        names::names_of(there).no_duplicates(),
    ensures
        diff::paths_only_in(here, there, name) == match names::last_named(here, name) {
            Some(m) => if diff::mounted(there, name, m.mount_path@) {
                seq![]
            } else {
                seq![m.mount_path@]
            },
            None => seq![],
        },
{
    let found = diff::paths_only_in(here, there, name);
    let expected = match names::last_named(here, name) {
        Some(m) => if diff::mounted(there, name, m.mount_path@) {
            seq![]
        } else {
            seq![m.mount_path@]
        },
        None => seq![],
    };
    lemma_mounted_once(here, name);
    lemma_paths_only_in(here, there, name);
    assert forall|path: Seq<char>| found.contains(path) <==> #[trigger] expected.contains(path) by {
        assert(found.contains(path) <==> (diff::mounted(here, name, path) && !diff::mounted(
            there,
            name,
            path,
        )));
        if expected.len() > 0 {
            assert(expected[0] == names::last_named(here, name)->0.mount_path@);
        }
        if found.contains(path) {
            assert(expected[0] == path);
        }
    }
    names::law_increasing_is_unique(found, expected);
}

/// Replicas that stay or grow are not reported; a reduction is one finding, breaking if it
/// leaves none and risky otherwise.
pub proof fn law_replicas(before: int, after: int)
    ensures
        after >= before ==> diff::replica_findings(before, after).len() == 0,
        after < before ==> diff::replica_findings(before, after).len() == 1
            && diff::replica_findings(before, after)[0].severity == if after == 0 {
            Severity::Breaking
        } else {
            Severity::Risky
        },
{
}

/// Another tag of the same repository is reported as a change of the tag.
pub proof fn law_tag_change(
    container: Seq<char>,
    name: Seq<char>,
    before: Seq<char>,
    after: Seq<char>,
)
    requires
        !before.contains('/') && !before.contains(':'),
        !after.contains('/') && !after.contains(':'),
        !name.skip(image::segment_start(name)).contains('@'),
        before != after,
    ensures
        diff::image_findings(
            container,
            name + seq![':'] + before,
            name + seq![':'] + after,
        ) == seq![
            diff::alteration(container, diff::change_message("image tag"@, before, after)),
        ],
{
    image::law_name_and_tag_split(name, before);
    image::law_name_and_tag_split(name, after);
}

/// Another digest is reported as a change of the whole image.
pub proof fn law_digest_change(
    container: Seq<char>,
    name: Seq<char>,
    before: Seq<char>,
    after: Seq<char>,
)
    requires
        before.contains(':') && !before.contains('/'),
        after.contains(':') && !after.contains('/'),
        before != after,
    ensures
        diff::image_findings(
            container,
            name + seq!['@'] + before,
            name + seq!['@'] + after,
        ) == seq![
            diff::alteration(
                container,
                "image changed from \""@ + (name + seq!['@'] + before) + "\" to \""@ + (name
                    + seq!['@'] + after) + "\""@,
            ),
        ],
{
    image::law_digest_is_no_tag(name, before);
    image::law_digest_is_no_tag(name, after);
    let x = name + seq!['@'] + before;
    let y = name + seq!['@'] + after;
    if x == y {
        assert(before == x.skip(name.len() as int + 1));
        assert(after == y.skip(name.len() as int + 1));
    }
}

/// The order in which a probe writes its fields is not compared.
pub proof fn law_probe_field_order_is_not_compared(
    container: Seq<char>,
    probe: Seq<char>,
    before: Vec<Entry>,
    after: Vec<Entry>,
    places: Seq<int>,
)
    requires
        yaml::entries_placed(before@, after@, places),
    ensures
        diff::probe_findings(
            container,
            probe,
            Some(Value::Mapping(before)),
            Some(Value::Mapping(after)),
        ).len() == 0,
{
    yaml::law_entry_order_is_not_compared(before, after, places);
}

} // verus!
