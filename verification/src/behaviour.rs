//! What the findings tell, said of the fields of the manifests and the words of the messages
//! alone.

use vstd::prelude::*;

use crate::diff;
use crate::diff::{check_replicas, diff_container, diff_manifests, diff_probe, Compared};
use crate::findings;
use crate::findings::{
    exit_code, finding, severity_label, worst_severity, Finding, FindingView, Severity,
};
use crate::image;
use crate::image::parse_image;
use crate::laws;
use crate::manifest::{env_value_equal, Container, EnvVar, Manifest, VolumeMount};
use crate::names;
use crate::names::Named;
use crate::order;
use crate::pairing;
use crate::report;
use crate::report::{
    compare, json_members, json_report, text_report, JsonView, Member, Outcome, ReportError,
};
use crate::text;
use crate::yaml;
use crate::yaml::{value_equal, Value};

verus! {

// ---------------------------------------------------------------------
// Lists in the order of their names
// ---------------------------------------------------------------------

/// Whether a text comes before another: up to some place they agree, and there it ends or has
/// the lower code point.
pub open spec fn text_before(a: Seq<char>, b: Seq<char>) -> bool {
    exists|k: int|
        0 <= k <= a.len() && k < b.len() && #[trigger] a.take(k) == b.take(k) && (k == a.len() || (
        a[k] as int) < (b[k] as int))
}

/// Whether each text comes before those that follow it.
pub open spec fn ascending(list: Seq<Seq<char>>) -> bool {
    forall|i: int, j: int|
        0 <= i < j < list.len() ==> text_before(#[trigger] list[i], #[trigger] list[j])
}

/// Whether a list names, in order, all that was there and then, in order, all that is new.
pub open spec fn listed(
    list: Seq<Seq<char>>,
    split: int,
    before: Seq<Seq<char>>,
    after: Seq<Seq<char>>,
) -> bool {
    &&& 0 <= split <= list.len()
    &&& ascending(list.take(split))
    &&& ascending(list.skip(split))
    &&& forall|n: Seq<char>| #[trigger] list.take(split).contains(n) <==> before.contains(n)
    &&& forall|n: Seq<char>| #[trigger]
        list.skip(split).contains(n) <==> after.contains(n) && !before.contains(n)
}

/// Whether findings are made up of one piece for each name.
pub open spec fn pieced(
    found: Seq<FindingView>,
    list: Seq<Seq<char>>,
    pieces: Seq<Seq<FindingView>>,
    told: spec_fn(Seq<char>, Seq<FindingView>) -> bool,
) -> bool {
    &&& pieces.len() == list.len()
    &&& found == pieces.flatten()
    &&& forall|i: int| 0 <= i < list.len() ==> told(list[i], #[trigger] pieces[i])
}

/// Whether findings tell, name by name, what there is to tell.
pub open spec fn told_by_name(
    found: Seq<FindingView>,
    before: Seq<Seq<char>>,
    after: Seq<Seq<char>>,
    told: spec_fn(Seq<char>, Seq<FindingView>) -> bool,
) -> bool {
    exists|list: Seq<Seq<char>>, split: int, pieces: Seq<Seq<FindingView>>|
        #![trigger listed(list, split, before, after), pieced(found, list, pieces, told)]
        listed(list, split, before, after) && pieced(found, list, pieces, told)
}

/// An increasing list is ascending.
proof fn lemma_ascending(list: Seq<Seq<char>>)
    requires
        names::increasing(list),
    ensures
        ascending(list),
{
    assert forall|i: int, j: int| 0 <= i < j < list.len() implies text_before(
        #[trigger] list[i],
        #[trigger] list[j],
    ) by {
        assert(names::precedes(list[i], list[j]));
        names::law_order_of_texts(list[i], list[j]);
    }
}

/// What is found of named items is told name by name.
proof fn lemma_told_by_name<T: Compared>(
    container: Seq<char>,
    x: Seq<T>,
    y: Seq<T>,
    told: spec_fn(Seq<char>, Seq<FindingView>) -> bool,
)
    requires
        forall|n: Seq<char>|
            names::names_of(x).contains(n) || names::names_of(y).contains(n) ==> told(
                n,
                #[trigger] T::change(container, n, x, y),
            ),
    ensures
        told_by_name(
            diff::item_findings(container, x, y),
            names::names_of(x),
            names::names_of(y),
            told,
        ),
{
    let before = names::names_of(x);
    let after = names::names_of(y);
    let new = names::lacked_by(x);
    let there = names::ordered(before);
    let added = names::ordered(after.filter(new));
    let list = names::names_of_both(x, y);
    let split = there.len() as int;
    let step = diff::change_step(container, x, y);
    let pieces = list.map_values(step);
    let found = diff::item_findings(container, x, y);
    names::law_ordered_lists_the_names(before);
    names::law_ordered_lists_the_names(after.filter(new));
    names::law_names_of_both(x, y);
    assert(list.take(split) == there);
    assert(list.skip(split) == added);
    lemma_ascending(there);
    lemma_ascending(added);
    assert forall|n: Seq<char>| #[trigger] added.contains(n) <==> after.contains(n)
        && !before.contains(n) by {
        names::lemma_last_named(x, n);
        order::lemma_filtered(after, new, n);
        assert(added.contains(n) <==> after.filter(new).contains(n));
    }
    assert(listed(list, split, before, after));
    assert forall|i: int| 0 <= i < list.len() implies told(list[i], #[trigger] pieces[i]) by {
        assert(list.contains(list[i]));
        assert(pieces[i] == T::change(container, list[i], x, y));
    }
    assert(pieced(found, list, pieces, told));
}

// ---------------------------------------------------------------------
// Variables
// ---------------------------------------------------------------------

/// The names of variables.
pub open spec fn variable_names(variables: Seq<EnvVar>) -> Seq<Seq<char>> {
    variables.map_values(|v: EnvVar| v.name@)
}

/// Whether the variable at a place is the last one of its name.
pub open spec fn is_last(variables: Seq<EnvVar>, name: Seq<char>, i: int) -> bool {
    &&& 0 <= i < variables.len()
    &&& variables[i].name@ == name
    &&& forall|k: int| i < k < variables.len() ==> (#[trigger] variables[k]).name@ != name
}

/// Whether two variables have the same text as their value or neither has one, and equal
/// sources or neither has one.
pub open spec fn given_alike(a: EnvVar, b: EnvVar) -> bool {
    &&& match (a.value, b.value) {
        (Some(s), Some(t)) => s@ == t@,
        (None, None) => true,
        _ => false,
    }
    &&& match (a.value_from, b.value_from) {
        (Some(v), Some(w)) => yaml::same_value(v, w),
        (None, None) => true,
        _ => false,
    }
}

/// What findings tell of the variables of one name.
pub open spec fn told_of_variable(
    container: Seq<char>,
    x: Seq<EnvVar>,
    y: Seq<EnvVar>,
    name: Seq<char>,
    found: Seq<FindingView>,
) -> bool {
    &&& variable_names(x).contains(name) && !variable_names(y).contains(name) ==> found == seq![
        FindingView {
            severity: Severity::Breaking,
            message: "container \""@ + container + "\": env var \""@ + name + "\" was removed"@,
        },
    ]
    &&& !variable_names(x).contains(name) && variable_names(y).contains(name) ==> found == seq![
        FindingView {
            severity: Severity::Info,
            message: "container \""@ + container + "\": env var \""@ + name + "\" was added"@,
        },
    ]
    &&& forall|i: int, j: int|
        #[trigger] is_last(x, name, i) && #[trigger] is_last(y, name, j) ==> found
            == if given_alike(x[i], y[j]) {
            Seq::<FindingView>::empty()
        } else {
            seq![
                FindingView {
                    severity: Severity::Risky,
                    message: "container \""@ + container + "\": env var \""@ + name
                        + "\" value changed"@,
                },
            ]
        }
}

/// Whether findings tell what became of the variables of a container, in the order of their
/// names, those that were there first.
pub open spec fn tells_of_variables(
    found: Seq<FindingView>,
    container: Seq<char>,
    x: Seq<EnvVar>,
    y: Seq<EnvVar>,
) -> bool {
    told_by_name(
        found,
        variable_names(x),
        variable_names(y),
        |n: Seq<char>, piece: Seq<FindingView>| told_of_variable(container, x, y, n, piece),
    )
}

/// The last variable of a name is the one that is looked up.
proof fn lemma_is_last(variables: Seq<EnvVar>, name: Seq<char>, i: int)
    requires
        is_last(variables, name, i),
    ensures
        names::last_named(variables, name) == Some(variables[i]),
    decreases variables.len(),
{
    let n = variables.len() - 1;
    if i < n {
        assert(variables[n].name@ != name);
        let rest = variables.drop_last();
        assert forall|k: int| i < k < rest.len() implies (#[trigger] rest[k]).name@ != name by {
            assert(variables[k].name@ != name);
        }
        lemma_is_last(rest, name, i);
    }
}

/// Some variable is the last of its name, where there is one of the name.
pub proof fn lemma_has_last(variables: Seq<EnvVar>, name: Seq<char>) -> (i: int)
    requires
        variable_names(variables).contains(name),
    ensures
        is_last(variables, name, i),
    decreases variables.len(),
{
    let k = choose|k: int|
        0 <= k < variables.len() && variable_names(variables)[k] == name;
    let n = variables.len() - 1;
    if variables[n].name@ == name {
        n
    } else {
        let rest = variables.drop_last();
        assert(variable_names(rest)[k] == name);
        let i = lemma_has_last(rest, name);
        assert forall|m: int| i < m < variables.len() implies (#[trigger] variables[m]).name@
            != name by {
            if m < n {
                assert(rest[m].name@ != name);
            }
        }
        i
    }
}

/// How the words of a message on an item are joined makes no difference.
proof fn lemma_item_words(container: Seq<char>, name: Seq<char>)
    ensures
        diff::removal(container, diff::item("env var"@, name)).message == "container \""@
            + container + "\": env var \""@ + name + "\" was removed"@,
        diff::addition(container, diff::item("env var"@, name)).message == "container \""@
            + container + "\": env var \""@ + name + "\" was added"@,
        diff::alteration(container, diff::item("env var"@, name) + " value changed"@).message
            == "container \""@ + container + "\": env var \""@ + name + "\" value changed"@,
        diff::removal(container, diff::item("volumeMount"@, name)).message == "container \""@
            + container + "\": volumeMount \""@ + name + "\" was removed"@,
        diff::addition(container, diff::item("volumeMount"@, name)).message == "container \""@
            + container + "\": volumeMount \""@ + name + "\" was added"@,
{
    reveal_strlit("\": ");
    reveal_strlit("env var");
    reveal_strlit(" \"");
    reveal_strlit("\"");
    reveal_strlit("\": env var \"");
    reveal_strlit("volumeMount");
    reveal_strlit("\": volumeMount \"");
    reveal_strlit(" was removed");
    reveal_strlit("\" was removed");
    reveal_strlit(" was added");
    reveal_strlit("\" was added");
    reveal_strlit(" value changed");
    reveal_strlit("\" value changed");
    assert("\": "@ + "env var"@ + " \""@ == "\": env var \""@);
    assert("\": "@ + "volumeMount"@ + " \""@ == "\": volumeMount \""@);
    assert("\""@ + " was removed"@ == "\" was removed"@);
    assert("\""@ + " was added"@ == "\" was added"@);
    assert("\""@ + " value changed"@ == "\" value changed"@);
    let c = "container \""@;
    lemma_words(c, container, "\": "@, "env var"@, " \""@, name, "\""@, " was removed"@);
    lemma_words(c, container, "\": "@, "env var"@, " \""@, name, "\""@, " was added"@);
    lemma_words(c, container, "\": "@, "env var"@, " \""@, name, "\""@, " value changed"@);
    lemma_words(c, container, "\": "@, "volumeMount"@, " \""@, name, "\""@, " was removed"@);
    lemma_words(c, container, "\": "@, "volumeMount"@, " \""@, name, "\""@, " was added"@);
}

/// How eight texts are joined makes no difference.
proof fn lemma_words(
    a: Seq<char>,
    b: Seq<char>,
    c: Seq<char>,
    d: Seq<char>,
    e: Seq<char>,
    f: Seq<char>,
    g: Seq<char>,
    h: Seq<char>,
)
    ensures
        a + b + c + (d + e + f + g + h) == a + b + (c + d + e) + f + (g + h),
{
}

/// What is found of the variables of a container tells what became of each.
pub proof fn law_variables(container: Seq<char>, x: Seq<EnvVar>, y: Seq<EnvVar>)
    ensures
        tells_of_variables(diff::item_findings(container, x, y), container, x, y),
{
    let told = |n: Seq<char>, piece: Seq<FindingView>|
        told_of_variable(container, x, y, n, piece);
    assert(names::names_of(x) == variable_names(x));
    assert(names::names_of(y) == variable_names(y));
    assert forall|n: Seq<char>|
        names::names_of(x).contains(n) || names::names_of(y).contains(n) implies told(
        n,
        #[trigger] EnvVar::change(container, n, x, y),
    ) by {
        names::lemma_last_named(x, n);
        names::lemma_last_named(y, n);
        lemma_item_words(container, n);
        let found = EnvVar::change(container, n, x, y);
        assert forall|i: int, j: int| #[trigger] is_last(x, n, i) && #[trigger] is_last(y, n, j)
            implies found == if given_alike(x[i], y[j]) {
            Seq::<FindingView>::empty()
        } else {
            seq![
                FindingView {
                    severity: Severity::Risky,
                    message: "container \""@ + container + "\": env var \""@ + n
                        + "\" value changed"@,
                },
            ]
        } by {
            lemma_is_last(x, n, i);
            lemma_is_last(y, n, j);
        }
    }
    lemma_told_by_name(container, x, y, told);
}

// ---------------------------------------------------------------------
// Volumes
// ---------------------------------------------------------------------

/// The names of mounted volumes.
pub open spec fn volume_names(mounts: Seq<VolumeMount>) -> Seq<Seq<char>> {
    mounts.map_values(|m: VolumeMount| m.name@)
}

/// Whether a volume is mounted at a path.
pub open spec fn mounts_at(mounts: Seq<VolumeMount>, name: Seq<char>, path: Seq<char>) -> bool {
    exists|i: int|
        0 <= i < mounts.len() && (#[trigger] mounts[i]).name@ == name && mounts[i].mount_path@
            == path
}

/// Whether a list has, in order, the paths of a volume here that it does not have there.
pub open spec fn paths_listed(
    list: Seq<Seq<char>>,
    here: Seq<VolumeMount>,
    there: Seq<VolumeMount>,
    name: Seq<char>,
) -> bool {
    &&& ascending(list)
    &&& forall|path: Seq<char>| #[trigger]
        list.contains(path) <==> mounts_at(here, name, path) && !mounts_at(there, name, path)
}

/// What findings tell of one volume: each path that it lost goes with one that it gained as
/// long as there are both, and the others were removed or added.
pub open spec fn told_of_volume(
    container: Seq<char>,
    x: Seq<VolumeMount>,
    y: Seq<VolumeMount>,
    name: Seq<char>,
    found: Seq<FindingView>,
) -> bool {
    exists|lost: Seq<Seq<char>>, gained: Seq<Seq<char>>|
        #![trigger paths_listed(lost, x, y, name), paths_listed(gained, y, x, name)]
        {
            &&& paths_listed(lost, x, y, name)
            &&& paths_listed(gained, y, x, name)
            &&& found.len() == if lost.len() < gained.len() {
                gained.len()
            } else {
                lost.len()
            }
            &&& forall|k: int|
                0 <= k < found.len() ==> #[trigger] found[k] == if k < lost.len() && k
                    < gained.len() {
                    FindingView {
                        severity: Severity::Risky,
                        message: "container \""@ + container + "\": volumeMount \""@ + name
                            + "\" path changed from "@ + lost[k] + " to "@ + gained[k],
                    }
                } else if k < lost.len() {
                    FindingView {
                        severity: Severity::Breaking,
                        message: "container \""@ + container + "\": volumeMount \""@ + name
                            + "\" was removed"@,
                    }
                } else {
                    FindingView {
                        severity: Severity::Info,
                        message: "container \""@ + container + "\": volumeMount \""@ + name
                            + "\" was added"@,
                    }
                }
        }
}

/// Whether findings tell what became of the volume mounts of a container, in the order of their
/// names, those that were there first.
pub open spec fn tells_of_volumes(
    found: Seq<FindingView>,
    container: Seq<char>,
    x: Seq<VolumeMount>,
    y: Seq<VolumeMount>,
) -> bool {
    told_by_name(
        found,
        volume_names(x),
        volume_names(y),
        |n: Seq<char>, piece: Seq<FindingView>| told_of_volume(container, x, y, n, piece),
    )
}

/// The paths that only one side has are listed.
proof fn lemma_paths_listed(here: Seq<VolumeMount>, there: Seq<VolumeMount>, name: Seq<char>)
    ensures
        paths_listed(diff::paths_only_in(here, there, name), here, there, name),
{
    laws::lemma_paths_only_in(here, there, name);
    lemma_ascending(diff::paths_only_in(here, there, name));
    assert forall|path: Seq<char>|
        #![trigger diff::mounted(here, name, path)]
        #![trigger diff::mounted(there, name, path)]
        diff::mounted(here, name, path) == mounts_at(here, name, path) && diff::mounted(
            there,
            name,
            path,
        ) == mounts_at(there, name, path) by {}
}

/// How the words of a message on a path are joined makes no difference.
proof fn lemma_path_words(container: Seq<char>, name: Seq<char>, p: Seq<char>, q: Seq<char>)
    ensures
        diff::alteration(
            container,
            diff::change_message(diff::item("volumeMount"@, name) + " path"@, p, q),
        ).message == "container \""@ + container + "\": volumeMount \""@ + name
            + "\" path changed from "@ + p + " to "@ + q,
{
    reveal_strlit("\": ");
    reveal_strlit(" \"");
    reveal_strlit("\"");
    reveal_strlit("volumeMount");
    reveal_strlit("\": volumeMount \"");
    reveal_strlit(" path");
    reveal_strlit(" changed from ");
    reveal_strlit("\" path changed from ");
    assert("\": "@ + "volumeMount"@ + " \""@ == "\": volumeMount \""@);
    assert("\""@ + (" path"@ + " changed from "@) == "\" path changed from "@);
    let tail = " path"@ + " changed from "@;
    let what = diff::item("volumeMount"@, name);
    let c = "container \""@;
    lemma_words(c, container, "\": "@, "volumeMount"@, " \""@, name, "\""@, tail + p + " to "@ + q);
    assert(what + " path"@ + " changed from "@ + p + " to "@ + q == what + (tail + p + " to "@
        + q));
    assert("\""@ + (tail + p + " to "@ + q) == "\""@ + tail + p + " to "@ + q);
    let front = c + container + "\": volumeMount \""@ + name;
    assert(front + ("\""@ + tail + p + " to "@ + q) == front + ("\""@ + tail) + p + " to "@ + q);
}

/// What is found of the volume mounts of a container tells what became of each.
pub proof fn law_volumes(container: Seq<char>, x: Seq<VolumeMount>, y: Seq<VolumeMount>)
    ensures
        tells_of_volumes(diff::item_findings(container, x, y), container, x, y),
{
    let told = |n: Seq<char>, piece: Seq<FindingView>| told_of_volume(container, x, y, n, piece);
    assert(names::names_of(x) == volume_names(x));
    assert(names::names_of(y) == volume_names(y));
    assert forall|n: Seq<char>|
        names::names_of(x).contains(n) || names::names_of(y).contains(n) implies told(
        n,
        #[trigger] VolumeMount::change(container, n, x, y),
    ) by {
        let found = VolumeMount::change(container, n, x, y);
        let lost = diff::paths_only_in(x, y, n);
        let gained = diff::paths_only_in(y, x, n);
        lemma_paths_listed(x, y, n);
        lemma_paths_listed(y, x, n);
        lemma_item_words(container, n);
        assert forall|k: int| 0 <= k < found.len() implies #[trigger] found[k] == if k < lost.len()
            && k < gained.len() {
            FindingView {
                severity: Severity::Risky,
                message: "container \""@ + container + "\": volumeMount \""@ + n
                    + "\" path changed from "@ + lost[k] + " to "@ + gained[k],
            }
        } else if k < lost.len() {
            FindingView {
                severity: Severity::Breaking,
                message: "container \""@ + container + "\": volumeMount \""@ + n
                    + "\" was removed"@,
            }
        } else {
            FindingView {
                severity: Severity::Info,
                message: "container \""@ + container + "\": volumeMount \""@ + n
                    + "\" was added"@,
            }
        } by {
            assert(found[k] == diff::mount_finding(container, n, lost, gained, k));
            if k < lost.len() && k < gained.len() {
                lemma_path_words(container, n, lost[k], gained[k]);
            }
        }
        assert(told_of_volume(container, x, y, n, found));
    }
    lemma_told_by_name(container, x, y, told);
}

// ---------------------------------------------------------------------
// Images and probes
// ---------------------------------------------------------------------

/// Whether an image reference is made up of that repository and that tag: it is of the form
/// `name:tag`, or of no such form and all repository.
pub open spec fn is_split(image: Seq<char>, repository: Seq<char>, tag: Option<Seq<char>>) -> bool {
    match tag {
        Some(t) => image::is_tagged(image, repository, t),
        None => repository == image && forall|name: Seq<char>, t: Seq<char>|
            !#[trigger] image::is_tagged(image, name, t),
    }
}

/// How a message writes a tag.
pub open spec fn written_tag(tag: Option<Seq<char>>) -> Seq<char> {
    match tag {
        Some(t) => t,
        None => "<none>"@,
    }
}

/// What findings tell of a change of the image, given the parts of both references.
pub open spec fn image_told(
    found: Seq<FindingView>,
    container: Seq<char>,
    x: Seq<char>,
    y: Seq<char>,
    repository: Seq<char>,
    other: Seq<char>,
    tag: Option<Seq<char>>,
    other_tag: Option<Seq<char>>,
) -> bool {
    &&& is_split(x, repository, tag)
    &&& is_split(y, other, other_tag)
    &&& found == seq![
        FindingView {
            severity: Severity::Risky,
            message: if repository != other {
                "container \""@ + container + "\": image changed from \""@ + x + "\" to \""@ + y
                    + "\""@
            } else {
                "container \""@ + container + "\": image tag changed from "@ + written_tag(tag)
                    + " to "@ + written_tag(other_tag)
            },
        },
    ]
}

/// Whether findings tell what became of the image of a container: nothing of the same image;
/// of another repository that the image changed, and of another tag that the tag did.
pub open spec fn tells_of_image(
    found: Seq<FindingView>,
    container: Seq<char>,
    x: Seq<char>,
    y: Seq<char>,
) -> bool {
    if x == y {
        found.len() == 0
    } else {
        exists|
            repository: Seq<char>,
            other: Seq<char>,
            tag: Option<Seq<char>>,
            other_tag: Option<Seq<char>>,
        | #[trigger]
            image_told(found, container, x, y, repository, other, tag, other_tag)
    }
}

/// How the words of a message on an image are joined makes no difference.
proof fn lemma_image_words(container: Seq<char>, x: Seq<char>, y: Seq<char>)
    ensures
        diff::alteration(
            container,
            "image changed from \""@ + x + "\" to \""@ + y + "\""@,
        ).message == "container \""@ + container + "\": image changed from \""@ + x + "\" to \""@
            + y + "\""@,
        diff::alteration(container, diff::change_message("image tag"@, x, y)).message
            == "container \""@ + container + "\": image tag changed from "@ + x + " to "@ + y,
{
    reveal_strlit("\": ");
    reveal_strlit("image changed from \"");
    reveal_strlit("\": image changed from \"");
    reveal_strlit("image tag");
    reveal_strlit(" changed from ");
    reveal_strlit("\": image tag changed from ");
    assert("\": "@ + "image changed from \""@ == "\": image changed from \""@);
    assert("\": "@ + ("image tag"@ + " changed from "@) == "\": image tag changed from "@);
    let front = "container \""@ + container;
    let a = "image changed from \""@;
    let b = "image tag"@ + " changed from "@;
    assert(front + "\": "@ + (a + x + "\" to \""@ + y + "\""@) == front + ("\": "@ + a) + x
        + "\" to \""@ + y + "\""@);
    assert(front + "\": "@ + (b + x + " to "@ + y) == front + ("\": "@ + b) + x + " to "@ + y);
}

/// What is found of an image tells what became of it.
pub proof fn law_image(container: Seq<char>, x: Seq<char>, y: Seq<char>)
    ensures
        tells_of_image(diff::image_findings(container, x, y), container, x, y),
{
    if x != y {
        let r = image::image_repository(x);
        let s = image::image_tag(x);
        let u = image::image_repository(y);
        let v = image::image_tag(y);
        image::law_repository_and_tag(x);
        image::law_repository_and_tag(y);
        assert(is_split(x, r, s)) by {
            if s is Some {
                assert(image::is_tagged(x, r, s->0));
            }
        }
        assert(is_split(y, u, v)) by {
            if v is Some {
                assert(image::is_tagged(y, u, v->0));
            }
        }
        lemma_image_words(container, x, y);
        lemma_image_words(container, written_tag(s), written_tag(v));
        assert(image_told(
            diff::image_findings(container, x, y),
            container,
            x,
            y,
            r,
            u,
            s,
            v,
        ));
    }
}

/// Another repository, whatever the tags, is reported as a change of the whole image that names
/// both references.
pub proof fn law_another_repository_is_a_swap(
    container: Seq<char>,
    name: Seq<char>,
    tag: Seq<char>,
    other: Seq<char>,
    other_tag: Seq<char>,
)
    requires
        image::without_digest(name) && image::without_digest(other),
        !tag.contains('/') && !tag.contains(':'),
        !other_tag.contains('/') && !other_tag.contains(':'),
        name != other,
    ensures
        diff::image_findings(
            container,
            name + seq![':'] + tag,
            other + seq![':'] + other_tag,
        ) == seq![
            FindingView {
                severity: Severity::Risky,
                message: "container \""@ + container + "\": image changed from \""@ + (name
                    + seq![':'] + tag) + "\" to \""@ + (other + seq![':'] + other_tag) + "\""@,
            },
        ],
{
    let x = name + seq![':'] + tag;
    let y = other + seq![':'] + other_tag;
    image::law_repository_and_tag(x);
    image::law_repository_and_tag(y);
    assert(image::is_tagged(x, name, tag));
    assert(image::is_tagged(y, other, other_tag));
    lemma_image_words(container, x, y);
}

/// Another tag of the same repository is reported as a change of the tag.
pub proof fn law_another_tag_is_a_bump(
    container: Seq<char>,
    name: Seq<char>,
    tag: Seq<char>,
    other_tag: Seq<char>,
)
    requires
        image::without_digest(name),
        !tag.contains('/') && !tag.contains(':'),
        !other_tag.contains('/') && !other_tag.contains(':'),
        tag != other_tag,
    ensures
        diff::image_findings(
            container,
            name + seq![':'] + tag,
            name + seq![':'] + other_tag,
        ) == seq![
            FindingView {
                severity: Severity::Risky,
                message: "container \""@ + container + "\": image tag changed from "@ + tag
                    + " to "@ + other_tag,
            },
        ],
{
    let x = name + seq![':'] + tag;
    let y = name + seq![':'] + other_tag;
    image::law_repository_and_tag(x);
    image::law_repository_and_tag(y);
    assert(image::is_tagged(x, name, tag));
    assert(image::is_tagged(y, name, other_tag));
    lemma_image_words(container, tag, other_tag);
}

/// Whether findings tell what became of a probe.
pub open spec fn tells_of_probe(
    found: Seq<FindingView>,
    container: Seq<char>,
    probe: Seq<char>,
    x: Option<Value>,
    y: Option<Value>,
) -> bool {
    match (x, y) {
        (Some(_), None) => found == seq![
            FindingView {
                severity: Severity::Breaking,
                message: "container \""@ + container + "\": "@ + probe + " was removed"@,
            },
        ],
        (None, Some(_)) => found == seq![
            FindingView {
                severity: Severity::Info,
                message: "container \""@ + container + "\": "@ + probe + " was added"@,
            },
        ],
        (Some(v), Some(w)) => if yaml::same_value(v, w) {
            found.len() == 0
        } else {
            found == seq![
                FindingView {
                    severity: Severity::Risky,
                    message: "container \""@ + container + "\": "@ + probe
                        + " configuration changed"@,
                },
            ]
        },
        (None, None) => found.len() == 0,
    }
}

/// What is found of a probe tells what became of it.
pub proof fn law_probe(
    container: Seq<char>,
    probe: Seq<char>,
    x: Option<Value>,
    y: Option<Value>,
)
    ensures
        tells_of_probe(diff::probe_findings(container, probe, x, y), container, probe, x, y),
{
    let front = "container \""@ + container + "\": "@;
    assert(front + (probe + " was removed"@) == front + probe + " was removed"@);
    assert(front + (probe + " was added"@) == front + probe + " was added"@);
    assert(front + (probe + " configuration changed"@) == front + probe
        + " configuration changed"@);
}

// ---------------------------------------------------------------------
// Containers
// ---------------------------------------------------------------------

/// Whether findings on a container are made up of those on its image, its variables, its volume
/// mounts and its two probes.
pub open spec fn container_parts(
    found: Seq<FindingView>,
    before: Container,
    after: Container,
    parts: Seq<Seq<FindingView>>,
) -> bool {
    let name = before.name@;
    &&& parts.len() == 5
    &&& found == parts[0] + parts[1] + parts[2] + parts[3] + parts[4]
    &&& tells_of_image(parts[0], name, before.image@, after.image@)
    &&& tells_of_variables(parts[1], name, before.env@, after.env@)
    &&& tells_of_volumes(parts[2], name, before.volume_mounts@, after.volume_mounts@)
    &&& tells_of_probe(
        parts[3],
        name,
        "livenessProbe"@,
        before.liveness_probe,
        after.liveness_probe,
    )
    &&& tells_of_probe(
        parts[4],
        name,
        "readinessProbe"@,
        before.readiness_probe,
        after.readiness_probe,
    )
}

/// Whether findings tell what became of a container.
pub open spec fn tells_of_container(
    found: Seq<FindingView>,
    before: Container,
    after: Container,
) -> bool {
    exists|parts: Seq<Seq<FindingView>>| #[trigger] container_parts(found, before, after, parts)
}

/// What is found of a container that both manifests have tells what became of its image, its
/// variables, its volume mounts and its probes, in this order, and nothing else.
pub proof fn law_container(before: Container, after: Container)
    ensures
        tells_of_container(diff::container_findings(before, after), before, after),
{
    let name = before.name@;
    let parts = seq![
        diff::image_findings(name, before.image@, after.image@),
        diff::item_findings(name, before.env@, after.env@),
        diff::item_findings(name, before.volume_mounts@, after.volume_mounts@),
        diff::probe_findings(name, "livenessProbe"@, before.liveness_probe, after.liveness_probe),
        diff::probe_findings(
            name,
            "readinessProbe"@,
            before.readiness_probe,
            after.readiness_probe,
        ),
    ];
    law_image(name, before.image@, after.image@);
    law_variables(name, before.env@, after.env@);
    law_volumes(name, before.volume_mounts@, after.volume_mounts@);
    law_probe(name, "livenessProbe"@, before.liveness_probe, after.liveness_probe);
    law_probe(name, "readinessProbe"@, before.readiness_probe, after.readiness_probe);
    assert(container_parts(diff::container_findings(before, after), before, after, parts));
}

/// A variable that both containers have with different texts as its value, or with one in only
/// one of them, is reported as changed.
pub proof fn law_another_value_is_risky(before: Container, after: Container, name: Seq<char>)
    requires
        exists|i: int, j: int|
            #[trigger] is_last(before.env@, name, i) && #[trigger] is_last(after.env@, name, j)
                && match (before.env@[i].value, after.env@[j].value) {
                (Some(s), Some(t)) => s@ != t@,
                (None, None) => false,
                _ => true,
            },
    ensures
        diff::container_findings(before, after).contains(
            FindingView {
                severity: Severity::Risky,
                message: "container \""@ + before.name@ + "\": env var \""@ + name
                    + "\" value changed"@,
            },
        ),
{
    let (i, j) = choose|i: int, j: int|
        #[trigger] is_last(before.env@, name, i) && #[trigger] is_last(after.env@, name, j)
            && match (before.env@[i].value, after.env@[j].value) {
            (Some(s), Some(t)) => s@ != t@,
            (None, None) => false,
            _ => true,
        };
    lemma_variable_change_found(before, after, name, i, j);
}

/// A variable that both containers have with sources that differ somewhere, or with one in only
/// one of them, is reported as changed.
pub proof fn law_another_source_is_risky(before: Container, after: Container, name: Seq<char>)
    requires
        exists|i: int, j: int|
            #[trigger] is_last(before.env@, name, i) && #[trigger] is_last(after.env@, name, j)
                && match (before.env@[i].value_from, after.env@[j].value_from) {
                (Some(v), Some(w)) => yaml::differ_somewhere(v, w),
                (None, None) => false,
                _ => true,
            },
    ensures
        diff::container_findings(before, after).contains(
            FindingView {
                severity: Severity::Risky,
                message: "container \""@ + before.name@ + "\": env var \""@ + name
                    + "\" value changed"@,
            },
        ),
{
    let (i, j) = choose|i: int, j: int|
        #[trigger] is_last(before.env@, name, i) && #[trigger] is_last(after.env@, name, j)
            && match (before.env@[i].value_from, after.env@[j].value_from) {
            (Some(v), Some(w)) => yaml::differ_somewhere(v, w),
            (None, None) => false,
            _ => true,
        };
    if let (Some(v), Some(w)) = (before.env@[i].value_from, after.env@[j].value_from) {
        yaml::law_a_difference_is_seen(v, w);
    }
    lemma_variable_change_found(before, after, name, i, j);
}

/// A variable that is not given alike is among the findings.
proof fn lemma_variable_change_found(
    before: Container,
    after: Container,
    name: Seq<char>,
    i: int,
    j: int,
)
    requires
        is_last(before.env@, name, i),
        is_last(after.env@, name, j),
        !given_alike(before.env@[i], after.env@[j]),
    ensures
        diff::container_findings(before, after).contains(
            FindingView {
                severity: Severity::Risky,
                message: "container \""@ + before.name@ + "\": env var \""@ + name
                    + "\" value changed"@,
            },
        ),
{
    let c = before.name@;
    let x = before.env@;
    let y = after.env@;
    let f = FindingView {
        severity: Severity::Risky,
        message: "container \""@ + c + "\": env var \""@ + name + "\" value changed"@,
    };
    let list = names::names_of_both(x, y);
    let pieces = list.map_values(diff::change_step(c, x, y));
    lemma_is_last(x, name, i);
    lemma_is_last(y, name, j);
    lemma_item_words(c, name);
    names::law_names_of_both(x, y);
    assert(names::names_of(x)[i] == name);
    assert(list.contains(name));
    let k = choose|k: int| 0 <= k < list.len() && list[k] == name;
    assert(pieces[k] == EnvVar::change(c, name, x, y));
    assert(pieces[k] == seq![f]);
    assert(pieces[k][0] == f);
    lemma_found_in_piece(pieces, k, f);
    let image = diff::image_findings(c, before.image@, after.image@);
    let found = diff::item_findings(c, x, y);
    let m = choose|m: int| 0 <= m < found.len() && found[m] == f;
    assert(diff::container_findings(before, after)[image.len() + m] == f);
}

/// What is in one of many lists is in all of them put together.
proof fn lemma_found_in_piece(pieces: Seq<Seq<FindingView>>, k: int, f: FindingView)
    requires
        0 <= k < pieces.len(),
        pieces[k].contains(f),
    ensures
        pieces.flatten().contains(f),
    decreases pieces.len(),
{
    let rest = pieces.drop_last();
    let last = pieces.last();
    assert(pieces == rest.push(last));
    rest.lemma_flatten_push(last);
    if k == pieces.len() - 1 {
        let m = choose|m: int| 0 <= m < last.len() && last[m] == f;
        assert(pieces.flatten()[rest.flatten().len() + m] == f);
    } else {
        assert(rest[k] == pieces[k]);
        lemma_found_in_piece(rest, k, f);
        let m = choose|m: int| 0 <= m < rest.flatten().len() && rest.flatten()[m] == f;
        assert(pieces.flatten()[m] == f);
    }
}

/// A probe that differs anywhere from what it was is reported as changed.
pub proof fn law_another_probe_is_risky(before: Container, after: Container)
    ensures
        before.liveness_probe is Some && after.liveness_probe is Some && yaml::differ_somewhere(
            before.liveness_probe->0,
            after.liveness_probe->0,
        ) ==> diff::container_findings(before, after).contains(
            FindingView {
                severity: Severity::Risky,
                message: "container \""@ + before.name@
                    + "\": livenessProbe configuration changed"@,
            },
        ),
        before.readiness_probe is Some && after.readiness_probe is Some && yaml::differ_somewhere(
            before.readiness_probe->0,
            after.readiness_probe->0,
        ) ==> diff::container_findings(before, after).contains(
            FindingView {
                severity: Severity::Risky,
                message: "container \""@ + before.name@
                    + "\": readinessProbe configuration changed"@,
            },
        ),
{
    let c = before.name@;
    let front = "container \""@ + c;
    let found = diff::container_findings(before, after);
    let live = diff::probe_findings(
        c,
        "livenessProbe"@,
        before.liveness_probe,
        after.liveness_probe,
    );
    let ready = diff::probe_findings(
        c,
        "readinessProbe"@,
        before.readiness_probe,
        after.readiness_probe,
    );
    reveal_strlit("\": ");
    reveal_strlit("livenessProbe");
    reveal_strlit("readinessProbe");
    reveal_strlit(" configuration changed");
    reveal_strlit("\": livenessProbe configuration changed");
    reveal_strlit("\": readinessProbe configuration changed");
    assert("\": "@ + "livenessProbe"@ + " configuration changed"@
        == "\": livenessProbe configuration changed"@);
    assert("\": "@ + "readinessProbe"@ + " configuration changed"@
        == "\": readinessProbe configuration changed"@);
    assert(front + "\": "@ + ("livenessProbe"@ + " configuration changed"@) == front + ("\": "@
        + "livenessProbe"@ + " configuration changed"@));
    assert(front + "\": "@ + ("readinessProbe"@ + " configuration changed"@) == front + ("\": "@
        + "readinessProbe"@ + " configuration changed"@));
    if before.liveness_probe is Some && after.liveness_probe is Some && yaml::differ_somewhere(
        before.liveness_probe->0,
        after.liveness_probe->0,
    ) {
        yaml::law_a_difference_is_seen(before.liveness_probe->0, after.liveness_probe->0);
        assert(found[found.len() - ready.len() - 1] == live[0]);
    }
    if before.readiness_probe is Some && after.readiness_probe is Some && yaml::differ_somewhere(
        before.readiness_probe->0,
        after.readiness_probe->0,
    ) {
        yaml::law_a_difference_is_seen(before.readiness_probe->0, after.readiness_probe->0);
        assert(found[found.len() - 1] == ready[0]);
    }
}

// ---------------------------------------------------------------------
// Manifests
// ---------------------------------------------------------------------

/// The number of pods that is asked for: 1 where it is left out.
pub open spec fn pods(m: Manifest) -> int {
    if m.spec.replicas is Some {
        m.spec.replicas->0 as int
    } else {
        1
    }
}

/// What there is to tell of the resource type.
pub open spec fn type_told(before: Manifest, after: Manifest) -> Seq<FindingView> {
    if before.api_version@ == after.api_version@ && before.kind@ == after.kind@ {
        seq![]
    } else {
        seq![
            FindingView {
                severity: Severity::Breaking,
                message: "resource type changed from "@ + before.api_version@ + "/"@
                    + before.kind@ + " to "@ + after.api_version@ + "/"@ + after.kind@,
            },
        ]
    }
}

/// What there is to tell of the replicas.
pub open spec fn replicas_told(before: Manifest, after: Manifest) -> Seq<FindingView> {
    if pods(before) <= pods(after) {
        seq![]
    } else if pods(after) == 0 {
        seq![
            FindingView {
                severity: Severity::Breaking,
                message: "replicas reduced from "@ + text::signed_decimal(pods(before))
                    + " to 0 — this scales the deployment to nothing"@,
            },
        ]
    } else {
        seq![
            FindingView {
                severity: Severity::Risky,
                message: "replicas reduced from "@ + text::signed_decimal(pods(before)) + " to "@
                    + text::signed_decimal(pods(after)),
            },
        ]
    }
}

/// Whether containers are paired by name, no two with the same one, and none is left alone as
/// long as another one of its name is.
pub open spec fn paired(
    partners: Seq<Option<int>>,
    before: Seq<Container>,
    after: Seq<Container>,
) -> bool {
    &&& partners.len() == before.len()
    &&& forall|i: int|
        0 <= i < before.len() && (#[trigger] partners[i]) is Some ==> 0 <= partners[i]->0
            < after.len() && before[i].name@ == after[partners[i]->0].name@
    &&& forall|i: int, k: int|
        0 <= i < k < before.len() && (#[trigger] partners[i]) is Some ==> partners[i]
            != #[trigger] partners[k]
    &&& forall|i: int, j: int|
        0 <= i < before.len() && 0 <= j < after.len() && partners[i] is None && (
        #[trigger] before[i]).name@ == (#[trigger] after[j]).name@ ==> partners.contains(Some(j))
}

/// Whether, of the containers of one name in which something is found to have changed, the
/// earlier are paired with the earlier, and the later ones are left alone.
pub open spec fn paired_in_order(
    partners: Seq<Option<int>>,
    before: Seq<Container>,
    kept: Seq<Seq<FindingView>>,
) -> bool {
    forall|i: int, k: int|
        0 <= i < k < before.len() && before[i].name@ == before[k].name@ && kept[i].len() > 0
            && kept[k].len() > 0 && (#[trigger] partners[k]) is Some ==> (
        #[trigger] partners[i]) is Some && partners[i]->0 < partners[k]->0
}

/// Whether findings are made up of those on the resource type, on the replicas, on each
/// container that was there and on each that is there now.
pub open spec fn manifest_parts(
    found: Seq<FindingView>,
    before: Manifest,
    after: Manifest,
    partners: Seq<Option<int>>,
    kept: Seq<Seq<FindingView>>,
    added: Seq<Seq<FindingView>>,
) -> bool {
    let bs = before.spec.template.spec.containers@;
    let aas = after.spec.template.spec.containers@;
    &&& paired(partners, bs, aas)
    &&& paired_in_order(partners, bs, kept)
    &&& kept.len() == bs.len()
    &&& added.len() == aas.len()
    &&& found == type_told(before, after) + replicas_told(before, after) + kept.flatten()
        + added.flatten()
    &&& forall|i: int|
        0 <= i < bs.len() ==> match partners[i] {
            Some(j) => tells_of_container(#[trigger] kept[i], bs[i], aas[j]),
            None => kept[i] == seq![
                FindingView {
                    severity: Severity::Breaking,
                    message: "container \""@ + bs[i].name@ + "\" was removed"@,
                },
            ],
        }
    &&& forall|j: int|
        0 <= j < aas.len() ==> #[trigger] added[j] == if partners.contains(Some(j)) {
            Seq::<FindingView>::empty()
        } else {
            seq![
                FindingView {
                    severity: Severity::Info,
                    message: "container \""@ + aas[j].name@ + "\" was added"@,
                },
            ]
        }
}

/// Whether findings tell what became of a manifest.
pub open spec fn tells_of_manifest(
    found: Seq<FindingView>,
    before: Manifest,
    after: Manifest,
) -> bool {
    exists|
        partners: Seq<Option<int>>,
        kept: Seq<Seq<FindingView>>,
        added: Seq<Seq<FindingView>>,
    | #[trigger]
        manifest_parts(found, before, after, partners, kept, added)
}

/// What is found of two manifests tells what became of the resource type, of the replicas, of
/// the containers in their order, and which containers are new, and nothing else.
pub proof fn law_manifest(before: Manifest, after: Manifest)
    ensures
        tells_of_manifest(diff::manifest_findings(before, after), before, after),
{
    let bs = before.spec.template.spec.containers@;
    let aas = after.spec.template.spec.containers@;
    let partners = diff::partners(bs, aas);
    let kept = diff::all_kept(bs, aas);
    let added = diff::all_added(bs, aas);
    let found = diff::manifest_findings(before, after);
    diff::lemma_partners(bs, aas);
    lemma_paired_in_order(bs, aas);
    law_resource_type(before, after);
    law_replicas_told(before, after);
    assert forall|i: int| 0 <= i < bs.len() implies match partners[i] {
        Some(j) => tells_of_container(#[trigger] kept[i], bs[i], aas[j]),
        None => kept[i] == seq![
            FindingView {
                severity: Severity::Breaking,
                message: "container \""@ + bs[i].name@ + "\" was removed"@,
            },
        ],
    } by {
        lemma_container_words(bs[i].name@);
        if let Some(j) = partners[i] {
            law_container(bs[i], aas[j]);
        }
    }
    assert forall|j: int| 0 <= j < aas.len() implies #[trigger] added[j] == if partners.contains(
        Some(j),
    ) {
        Seq::<FindingView>::empty()
    } else {
        seq![
            FindingView {
                severity: Severity::Info,
                message: "container \""@ + aas[j].name@ + "\" was added"@,
            },
        ]
    } by {
        lemma_container_words(aas[j].name@);
    }
    assert(manifest_parts(found, before, after, partners, kept, added));
}

/// What is found of the resource type tells what it was and what it is, where it changed.
pub proof fn law_resource_type(before: Manifest, after: Manifest)
    ensures
        diff::type_findings(before, after) == type_told(before, after),
{
    let a = "resource type"@;
    let b = " changed from "@;
    reveal_strlit("resource type");
    reveal_strlit(" changed from ");
    reveal_strlit("resource type changed from ");
    assert(a + b == "resource type changed from "@);
    let x = before.api_version@;
    let k = before.kind@;
    let y = after.api_version@;
    let l = after.kind@;
    assert(a + b + (x + "/"@ + k) + " to "@ + (y + "/"@ + l) == (a + b) + x + "/"@ + k + " to "@ + y
        + "/"@ + l);
}

/// What is found of the replicas tells of a reduction and of nothing else.
pub proof fn law_replicas_told(before: Manifest, after: Manifest)
    ensures
        diff::replica_findings(diff::replicas(before), diff::replicas(after)) == replicas_told(
            before,
            after,
        ),
{
}

/// How the words of a message on a whole container are joined makes no difference.
proof fn lemma_container_words(name: Seq<char>)
    ensures
        diff::container_message(name, "was removed"@) == "container \""@ + name
            + "\" was removed"@,
        diff::container_message(name, "was added"@) == "container \""@ + name + "\" was added"@,
{
    reveal_strlit("\" ");
    reveal_strlit("was removed");
    reveal_strlit("\" was removed");
    reveal_strlit("was added");
    reveal_strlit("\" was added");
    assert("\" "@ + "was removed"@ == "\" was removed"@);
    assert("\" "@ + "was added"@ == "\" was added"@);
    let front = "container \""@ + name;
    assert(front + "\" "@ + "was removed"@ == front + ("\" "@ + "was removed"@));
    assert(front + "\" "@ + "was added"@ == front + ("\" "@ + "was added"@));
}

/// Containers that changed are paired in their order.
proof fn lemma_paired_in_order(bs: Seq<Container>, aas: Seq<Container>)
    ensures
        paired_in_order(diff::partners(bs, aas), bs, diff::all_kept(bs, aas)),
{
    let end = aas.len() as int;
    let count = bs.len() as int;
    let none = pairing::nobody(bs.len());
    let unchanged = diff::namesakes(bs, aas, true);
    let same = diff::namesakes(bs, aas, false);
    let first = pairing::claims(none, unchanged, end, count);
    let partners = diff::partners(bs, aas);
    let kept = diff::all_kept(bs, aas);
    pairing::lemma_claims(none, unchanged, end, count);
    pairing::lemma_claims(first, same, end, count);
    pairing::lemma_claims_in_order(first, same, end, count);
    assert forall|i: int| 0 <= i < bs.len() && (#[trigger] kept[i]).len() > 0 implies first[i]
        is None by {
        if first[i] is Some {
            assert(partners[i] == first[i]);
            assert(unchanged(i, first[i]->0));
        }
    }
    assert forall|i: int, k: int|
        0 <= i < k < bs.len() && bs[i].name@ == bs[k].name@ && kept[i].len() > 0 && kept[k].len()
            > 0 && (#[trigger] partners[k]) is Some implies (#[trigger] partners[i]) is Some
        && partners[i]->0 < partners[k]->0 by {
        assert(first[i] is None && first[k] is None);
        assert forall|j: int| 0 <= j < end implies same(i, j) == #[trigger] same(k, j) by {}
    }
}

// ---------------------------------------------------------------------
// What callers get
// ---------------------------------------------------------------------

/// The findings with their messages as texts.
pub open spec fn told(list: Seq<Finding>) -> Seq<FindingView> {
    Seq::new(
        list.len(),
        |i: int| FindingView { severity: list[i].severity, message: list[i].message@ },
    )
}

/// Whether a code is the one for these findings: 2 where some are breaking, otherwise 1 where
/// some are risky, otherwise 0.
pub open spec fn code_told(code: int, found: Seq<FindingView>) -> bool {
    &&& code == 2 <==> exists|i: int|
        0 <= i < found.len() && (#[trigger] found[i]).severity == Severity::Breaking
    &&& code == 0 <==> forall|i: int|
        0 <= i < found.len() ==> (#[trigger] found[i]).severity == Severity::Info
    &&& 0 <= code <= 2
}

/// Findings are viewed by their severities and the texts of their messages.
proof fn lemma_told(list: Seq<Finding>)
    ensures
        findings::finding_views(list) == told(list),
{
}

/// What `diff_manifests` returns tells what became of the manifest.
pub proof fn law_diff_manifests(before: &Manifest, after: &Manifest, r: Vec<Finding>)
    requires
        call_ensures(diff_manifests, (before, after), r),
    ensures
        tells_of_manifest(told(r@), *before, *after),
{
    law_manifest(*before, *after);
    lemma_told(r@);
}

/// What `compare` prints tells the findings between the two manifests, as text or as JSON, and
/// its code is the one for them.
pub proof fn law_compare(
    before_name: &str,
    before: &Manifest,
    after_name: &str,
    after: &Manifest,
    json: bool,
    r: Result<Outcome, ReportError>,
)
    requires
        call_ensures(compare, (before_name, before, after_name, after, json), r),
    ensures
        r is Ok,
        exists|found: Seq<FindingView>| #[trigger]
            tells_of_manifest(found, *before, *after) && code_told(r->Ok_0.code as int, found) && (
            if json {
                exists|members: Seq<(Seq<char>, JsonView)>| #[trigger]
                    report::members_told(members, before_name@, after_name@, found)
                        && r->Ok_0.output@ == report::pretty_json(members) + "\n"@
            } else {
                report::text_told(r->Ok_0.output@, before_name@, after_name@, found)
            }),
{
    let found = diff::manifest_findings(*before, *after);
    let members = report::report_members(before_name@, after_name@, found);
    law_manifest(*before, *after);
    findings::law_exit_code(found);
    report::law_text_report(before_name@, after_name@, found);
    report::law_json_report(before_name@, after_name@, found);
    assert(report::members_told(members, before_name@, after_name@, found));
    assert(tells_of_manifest(found, *before, *after));
}

/// What `text_report` returns tells the findings.
pub proof fn law_text_report_returns(before: &str, after: &str, list: &[Finding], r: String)
    requires
        call_ensures(text_report, (before, after, list), r),
    ensures
        report::text_told(r@, before@, after@, told(list@)),
{
    lemma_told(list@);
    report::law_text_report(before@, after@, told(list@));
}

/// What `json_members` returns tells the findings.
pub proof fn law_json_members_returns(before: &str, after: &str, list: &[Finding], r: Vec<Member>)
    requires
        call_ensures(json_members, (before, after, list), r),
    ensures
        report::members_told(report::member_views(r@), before@, after@, told(list@)),
{
    lemma_told(list@);
    report::law_json_report(before@, after@, told(list@));
}

/// What `json_report` returns is the JSON document of members that tell the findings.
pub proof fn law_json_report_returns(
    before: &str,
    after: &str,
    list: &[Finding],
    r: Result<String, ReportError>,
)
    requires
        call_ensures(json_report, (before, after, list), r),
    ensures
        r is Ok,
        exists|members: Seq<(Seq<char>, JsonView)>| #[trigger]
            report::members_told(members, before@, after@, told(list@)) && r->Ok_0@
                == report::pretty_json(members),
{
    let members = report::report_members(before@, after@, told(list@));
    lemma_told(list@);
    report::law_json_report(before@, after@, told(list@));
    assert(report::members_told(members, before@, after@, told(list@)));
}

/// What `exit_code` returns is the code for the findings.
pub proof fn law_exit_code_returns(list: &[Finding], r: u8)
    requires
        call_ensures(exit_code, (list,), r),
    ensures
        code_told(r as int, told(list@)),
{
    lemma_told(list@);
    findings::law_exit_code(told(list@));
}

/// What `worst_severity` returns is a severity that some finding has and that none exceeds, or
/// nothing where there are no findings.
pub proof fn law_worst_severity_returns(list: &[Finding], r: Option<Severity>)
    requires
        call_ensures(worst_severity, (list,), r),
    ensures
        r is None <==> list@.len() == 0,
        r is Some ==> exists|i: int| 0 <= i < list@.len() && (#[trigger] list@[i]).severity == r->0,
        forall|i: int|
            0 <= i < list@.len() ==> {
                &&& (#[trigger] list@[i]).severity == Severity::Breaking ==> r == Some(
                    Severity::Breaking,
                )
                &&& list@[i].severity == Severity::Risky ==> r != Some(Severity::Info)
            },
{
    let views = told(list@);
    lemma_told(list@);
    findings::law_worst_severity(views);
    findings::law_worst_is_the_highest(views);
    assert forall|i: int| 0 <= i < list@.len() implies (#[trigger] list@[i]).severity
        == views[i].severity by {}
    if r is Some {
        let i = choose|i: int| 0 <= i < views.len() && (#[trigger] views[i]).severity == r->0;
        assert(list@[i].severity == r->0);
    }
}

/// What `severity_label` returns is one of three words, each for one severity.
pub proof fn law_severity_label_returns(s: Severity, r: &'static str)
    requires
        call_ensures(severity_label, (s,), r),
    ensures
        s == Severity::Breaking ==> r@ == "breaking"@,
        s == Severity::Risky ==> r@ == "risky"@,
        s == Severity::Info ==> r@ == "info"@,
{
}

/// What `finding` returns has the severity and the message that it was given.
pub proof fn law_finding_returns(severity: Severity, message: String, r: Finding)
    requires
        call_ensures(finding, (severity, message), r),
    ensures
        r.severity == severity,
        r.message@ == message@,
{
}

/// What `parse_image` returns are the repository and the tag of the reference.
pub proof fn law_parse_image_returns(image: &str, r: (String, Option<String>))
    requires
        call_ensures(parse_image, (image,), r),
    ensures
        r.1 is Some ==> is_split(image@, r.0@, Some(r.1->0@)),
        r.1 is None ==> is_split(image@, r.0@, None),
{
    image::law_repository_and_tag(image@);
    if r.1 is Some {
        assert(image::is_tagged(image@, r.0@, r.1->0@));
    }
}

/// What `value_equal` returns is false of values that differ somewhere, and true of those that
/// are written the same.
pub proof fn law_value_equal_returns(a: &Value, b: &Value, r: bool)
    requires
        call_ensures(value_equal, (a, b), r),
    ensures
        r == yaml::same_value(*a, *b),
        yaml::differ_somewhere(*a, *b) ==> !r,
        yaml::identical(*a, *b) ==> r,
{
    if yaml::differ_somewhere(*a, *b) {
        yaml::law_a_difference_is_seen(*a, *b);
    }
    if yaml::identical(*a, *b) {
        yaml::law_identical_values_are_equal(*a, *b);
    }
}

/// What `env_value_equal` returns is whether two variables are given alike.
pub proof fn law_env_value_equal_returns(a: &EnvVar, b: &EnvVar, r: bool)
    requires
        call_ensures(env_value_equal, (a, b), r),
    ensures
        r == given_alike(*a, *b),
{
}

/// What `check_replicas` adds to a list tells of the replicas.
pub proof fn law_check_replicas_adds(before: &Manifest, after: &Manifest)
    ensures
        forall|list: &mut Vec<Finding>| #[trigger]
            call_ensures(check_replicas, (before, after, list), ()) ==> told(final(list)@) == told(
                (*list)@,
            ) + replicas_told(*before, *after),
{
    law_replicas_told(*before, *after);
    assert forall|list: &mut Vec<Finding>| #[trigger]
        call_ensures(check_replicas, (before, after, list), ()) implies told(final(list)@) == told(
        (*list)@,
    ) + replicas_told(*before, *after) by {
        lemma_told(final(list)@);
        lemma_told((*list)@);
    }
}

/// What `diff_probe` adds to a list tells of the probe.
pub proof fn law_diff_probe_adds(
    container: &str,
    probe: &str,
    before: &Option<Value>,
    after: &Option<Value>,
)
    ensures
        forall|list: &mut Vec<Finding>| #[trigger]
            call_ensures(diff_probe, (container, probe, before, after, list), ()) ==> exists|
                found: Seq<FindingView>,
            | #[trigger]
                tells_of_probe(found, container@, probe@, *before, *after) && told(final(list)@)
                    == told((*list)@) + found,
{
    let found = diff::probe_findings(container@, probe@, *before, *after);
    law_probe(container@, probe@, *before, *after);
    assert forall|list: &mut Vec<Finding>| #[trigger]
        call_ensures(diff_probe, (container, probe, before, after, list), ()) implies exists|
        found: Seq<FindingView>,
    | #[trigger]
        tells_of_probe(found, container@, probe@, *before, *after) && told(final(list)@) == told(
            (*list)@,
        ) + found by {
        lemma_told(final(list)@);
        lemma_told((*list)@);
        assert(tells_of_probe(found, container@, probe@, *before, *after));
    }
}

/// What `diff_container` adds to a list tells of the container.
pub proof fn law_diff_container_adds(before: &Container, after: &Container)
    ensures
        forall|list: &mut Vec<Finding>| #[trigger]
            call_ensures(diff_container, (before, after, list), ()) ==> exists|
                found: Seq<FindingView>,
            | #[trigger]
                tells_of_container(found, *before, *after) && told(final(list)@) == told((*list)@)
                    + found,
{
    let found = diff::container_findings(*before, *after);
    law_container(*before, *after);
    assert forall|list: &mut Vec<Finding>| #[trigger]
        call_ensures(diff_container, (before, after, list), ()) implies exists|
        found: Seq<FindingView>,
    | #[trigger]
        tells_of_container(found, *before, *after) && told(final(list)@) == told((*list)@)
            + found by {
        lemma_told(final(list)@);
        lemma_told((*list)@);
        assert(tells_of_container(found, *before, *after));
    }
}

} // verus!
