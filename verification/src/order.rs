//! What does not matter to the findings: the order of containers, variables and volume mounts,
//! and which of equal manifests is compared.

use vstd::prelude::*;

use crate::diff;
use crate::diff::Compared;
use crate::findings;
use crate::findings::{FindingView, Severity};
use crate::laws;
use crate::manifest;
use crate::manifest::{Container, EnvVar, Manifest, VolumeMount};
use crate::names;
use crate::names::Named;
use crate::pairing;
use crate::yaml;
use crate::yaml::Value;

verus! {

// ---------------------------------------------------------------------
// Within a container
// ---------------------------------------------------------------------

/// Whether two lists hold equal items, in whatever order and however often.
pub open spec fn equal_but_for_order<T>(
    x: Seq<T>,
    y: Seq<T>,
    equal: spec_fn(T, T) -> bool,
) -> bool {
    &&& forall|i: int|
        0 <= i < x.len() ==> exists|j: int|
            0 <= j < y.len() && equal(#[trigger] x[i], #[trigger] y[j])
    &&& forall|j: int|
        0 <= j < y.len() ==> exists|i: int|
            0 <= i < x.len() && equal(#[trigger] x[i], #[trigger] y[j])
}

/// Whether the variables of one name have one value. Otherwise the last one counts, and so
/// their order matters.
pub open spec fn unambiguous(c: Container) -> bool {
    forall|i: int, j: int|
        0 <= i < c.env@.len() && 0 <= j < c.env@.len() && (#[trigger] c.env@[i]).name@ == (
        #[trigger] c.env@[j]).name@ ==> manifest::same_env_value(c.env@[i], c.env@[j])
}

/// Whether two containers are the same but for the order of their variables and volume mounts.
pub open spec fn same_but_for_order(before: Container, after: Container) -> bool {
    &&& before.name@ == after.name@
    &&& before.image@ == after.image@
    &&& equal_but_for_order(before.env@, after.env@, |a: EnvVar, b: EnvVar| laws::equal_env(a, b))
    &&& equal_but_for_order(
        before.volume_mounts@,
        after.volume_mounts@,
        |a: VolumeMount, b: VolumeMount| laws::equal_mount(a, b),
    )
    &&& manifest::same_optional_value(before.liveness_probe, after.liveness_probe)
    &&& manifest::same_optional_value(before.readiness_probe, after.readiness_probe)
}

/// Whether the YAML value, if there is one, is well-formed.
pub open spec fn optional_well_formed(value: Option<Value>) -> bool {
    match value {
        Some(v) => yaml::well_formed(v),
        None => true,
    }
}

/// Whether all YAML values of a container are well-formed.
pub open spec fn container_well_formed(c: Container) -> bool {
    &&& forall|i: int|
        0 <= i < c.env@.len() ==> optional_well_formed((#[trigger] c.env@[i]).value_from)
    &&& optional_well_formed(c.liveness_probe)
    &&& optional_well_formed(c.readiness_probe)
}

/// Variables given their value like one are given it alike.
proof fn lemma_same_env_value_transitive(a: EnvVar, b: EnvVar, c: EnvVar)
    requires
        manifest::same_env_value(a, b),
        manifest::same_env_value(b, c),
    ensures
        manifest::same_env_value(a, c),
{
    lemma_same_optional_value_transitive(a.value_from, b.value_from, c.value_from);
}

/// Optional values that equal one equal each other.
proof fn lemma_same_optional_value_transitive(a: Option<Value>, b: Option<Value>, c: Option<Value>)
    requires
        manifest::same_optional_value(a, b),
        manifest::same_optional_value(b, c),
    ensures
        manifest::same_optional_value(a, c),
{
    if a is Some {
        yaml::law_same_value_transitive(a->0, b->0, c->0);
    }
}

/// Equality of optional values goes both ways.
pub proof fn lemma_same_optional_value_symmetric(a: Option<Value>, b: Option<Value>)
    requires
        optional_well_formed(a),
        manifest::same_optional_value(a, b),
    ensures
        manifest::same_optional_value(b, a),
{
    if a is Some {
        yaml::law_same_value_symmetric(a->0, b->0);
    }
}

/// The variable of a name in a well-formed container is well-formed.
pub proof fn lemma_env_well_formed(c: Container, name: Seq<char>)
    requires
        container_well_formed(c),
        laws::env_of(c, name) is Some,
    ensures
        optional_well_formed(laws::env_of(c, name)->0.value_from),
{
    names::lemma_last_named(c.env@, name);
    let i = choose|i: int| 0 <= i < c.env@.len() && c.env@[i] == laws::env_of(c, name)->0;
    assert(optional_well_formed(c.env@[i].value_from));
}

/// Containers that are the same but for the order have each variable and mount alike.
proof fn lemma_items_alike(before: Container, after: Container)
    requires
        unambiguous(before),
        same_but_for_order(before, after),
    ensures
        laws::alike(before, after),
{
    let env_equal = |a: EnvVar, b: EnvVar| laws::equal_env(a, b);
    let mount_equal = |a: VolumeMount, b: VolumeMount| laws::equal_mount(a, b);
    let x = before.env@;
    let y = after.env@;
    assert forall|n: Seq<char>|
        laws::same_env(#[trigger] laws::env_of(before, n), laws::env_of(after, n)) by {
        names::lemma_last_named(x, n);
        names::lemma_last_named(y, n);
        match (laws::env_of(before, n), laws::env_of(after, n)) {
            (Some(b), Some(a)) => {
                let k = choose|k: int| 0 <= k < x.len() && x[k] == b;
                let j = choose|j: int| 0 <= j < y.len() && y[j] == a;
                let i = choose|i: int| 0 <= i < x.len() && env_equal(#[trigger] x[i], y[j]);
                assert(x[k].name@ == x[i].name@);
                lemma_same_env_value_transitive(x[k], x[i], y[j]);
            },
            (Some(b), None) => {
                let k = choose|k: int| 0 <= k < x.len() && x[k] == b;
                let j = choose|j: int| 0 <= j < y.len() && env_equal(x[k], #[trigger] y[j]);
                assert(y[j].name_text() == n);
            },
            (None, Some(a)) => {
                let j = choose|j: int| 0 <= j < y.len() && y[j] == a;
                let i = choose|i: int| 0 <= i < x.len() && env_equal(#[trigger] x[i], y[j]);
                assert(x[i].name_text() == n);
            },
            (None, None) => {},
        }
    }
    let u = before.volume_mounts@;
    let v = after.volume_mounts@;
    assert forall|n: Seq<char>, path: Seq<char>| #[trigger]
        diff::mounted(u, n, path) <==> diff::mounted(v, n, path) by {
        if diff::mounted(u, n, path) {
            let i = choose|i: int|
                0 <= i < u.len() && (#[trigger] u[i]).name@ == n && u[i].mount_path@ == path;
            let j = choose|j: int| 0 <= j < v.len() && mount_equal(u[i], #[trigger] v[j]);
            assert(v[j].name@ == n);
        }
        if diff::mounted(v, n, path) {
            let j = choose|j: int|
                0 <= j < v.len() && (#[trigger] v[j]).name@ == n && v[j].mount_path@ == path;
            let i = choose|i: int| 0 <= i < u.len() && mount_equal(#[trigger] u[i], v[j]);
            assert(u[i].name@ == n);
        }
    }
}

/// The order of a container's variables and volume mounts is not compared.
pub proof fn law_item_order_is_not_compared(before: Container, after: Container)
    requires
        unambiguous(before),
        same_but_for_order(before, after),
    ensures
        diff::container_findings(before, after).len() == 0,
{
    lemma_items_alike(before, after);
    laws::law_container_is_silent(before, after);
}

/// A container alike one that is alike a third is alike the third.
proof fn lemma_alike_transitive(a: Container, b: Container, c: Container)
    requires
        laws::alike(a, b),
        laws::alike(b, c),
    ensures
        laws::alike(a, c),
{
    assert forall|n: Seq<char>|
        laws::same_env(#[trigger] laws::env_of(a, n), laws::env_of(c, n)) by {
        assert(laws::same_env(laws::env_of(a, n), laws::env_of(b, n)));
        assert(laws::same_env(laws::env_of(b, n), laws::env_of(c, n)));
        if laws::env_of(a, n) is Some {
            lemma_same_env_value_transitive(
                laws::env_of(a, n)->0,
                laws::env_of(b, n)->0,
                laws::env_of(c, n)->0,
            );
        }
    }
    lemma_same_optional_value_transitive(a.liveness_probe, b.liveness_probe, c.liveness_probe);
    lemma_same_optional_value_transitive(a.readiness_probe, b.readiness_probe, c.readiness_probe);
}

/// A container is alike one that is alike it.
proof fn lemma_alike_symmetric(a: Container, b: Container)
    requires
        container_well_formed(a),
        laws::alike(a, b),
    ensures
        laws::alike(b, a),
{
    assert forall|n: Seq<char>|
        laws::same_env(#[trigger] laws::env_of(b, n), laws::env_of(a, n)) by {
        assert(laws::same_env(laws::env_of(a, n), laws::env_of(b, n)));
        if laws::env_of(a, n) is Some {
            lemma_env_well_formed(a, n);
            lemma_same_optional_value_symmetric(
                laws::env_of(a, n)->0.value_from,
                laws::env_of(b, n)->0.value_from,
            );
        }
    }
    lemma_same_optional_value_symmetric(a.liveness_probe, b.liveness_probe);
    lemma_same_optional_value_symmetric(a.readiness_probe, b.readiness_probe);
}

// ---------------------------------------------------------------------
// Within a manifest
// ---------------------------------------------------------------------

/// Whether places, one for each container, are all different and hold the same containers but
/// for the order within them.
pub open spec fn placed(before: Seq<Container>, after: Seq<Container>, places: Seq<int>) -> bool {
    &&& places.len() == before.len()
    &&& places.no_duplicates()
    &&& forall|i: int|
        0 <= i < before.len() ==> 0 <= #[trigger] places[i] < after.len() && same_but_for_order(
            before[i],
            after[places[i]],
        )
}

/// Whether each container of one manifest is in another, the same but for the order within it.
pub open spec fn keeps_containers(before: Manifest, after: Manifest) -> bool {
    exists|places: Seq<int>|
        placed(diff::containers(before), diff::containers(after), places)
}

/// Whether two manifests have the same type and replicas, and the same containers but for their
/// order and the order within them.
pub open spec fn reordered(before: Manifest, after: Manifest) -> bool {
    &&& laws::same_type(before, after)
    &&& diff::replicas(before) == diff::replicas(after)
    &&& diff::containers(before).len() == diff::containers(after).len()
    &&& keeps_containers(before, after)
}

/// Whether no order within a container matters.
pub open spec fn all_unambiguous(m: Manifest) -> bool {
    forall|i: int|
        0 <= i < diff::containers(m).len() ==> unambiguous(#[trigger] diff::containers(m)[i])
}

/// Whether all YAML values of a manifest are well-formed.
pub open spec fn manifest_well_formed(m: Manifest) -> bool {
    forall|i: int|
        0 <= i < diff::containers(m).len() ==> container_well_formed(
            #[trigger] diff::containers(m)[i],
        )
}

/// Where all containers are kept, in whatever order, each is held against one that it agrees
/// with.
proof fn lemma_kept_partners(before: Manifest, after: Manifest)
    requires
        manifest_well_formed(before),
        all_unambiguous(before),
        keeps_containers(before, after),
    ensures
        forall|i: int|
            0 <= i < diff::containers(before).len() ==> (#[trigger] laws::partner(
                before,
                after,
                i,
            )) is Some && laws::alike(
                diff::containers(before)[i],
                laws::partner(before, after, i)->0,
            ),
        (exists|j: int|
            0 <= j < diff::containers(after).len() && laws::is_new(before, after, j))
            <==> diff::containers(after).len() > diff::containers(before).len(),
{
    let bs = diff::containers(before);
    let aas = diff::containers(after);
    let end = aas.len() as int;
    let count = bs.len() as int;
    let fits = diff::namesakes(bs, aas, true);
    let places = choose|places: Seq<int>| placed(bs, aas, places);
    assert forall|i: int, j: int| 0 <= i < bs.len() && 0 <= j < aas.len() implies (
    #[trigger] fits(i, j) <==> bs[i].name@ == aas[j].name@ && laws::alike(bs[i], aas[j])) by {
        laws::law_container_is_silent(bs[i], aas[j]);
    }
    assert forall|i: int| 0 <= i < bs.len() implies 0 <= #[trigger] places[i] < end && fits(
        i,
        places[i],
    ) by {
        lemma_items_alike(bs[i], aas[places[i]]);
    }
    assert(pairing::matching(places, fits, bs.len(), end));
    assert forall|i: int, k: int, j: int, l: int|
        0 <= i < bs.len() && 0 <= k < bs.len() && 0 <= j < end && 0 <= l < end && #[trigger] fits(
            i,
            j,
        ) && #[trigger] fits(k, j) && #[trigger] fits(k, l) implies fits(i, l) by {
        lemma_alike_symmetric(bs[k], aas[j]);
        lemma_alike_transitive(bs[i], aas[j], bs[k]);
        lemma_alike_transitive(bs[i], bs[k], aas[l]);
    }
    let matched = pairing::lemma_claims_matched(places, fits, bs.len(), end, count);
    let first = pairing::claims(pairing::nobody(bs.len()), fits, end, count);
    pairing::lemma_claims_nothing(first, diff::namesakes(bs, aas, false), end, count);
    assert forall|i: int| 0 <= i < bs.len() implies (#[trigger] laws::partner(
        before,
        after,
        i,
    )) is Some && laws::alike(bs[i], laws::partner(before, after, i)->0) by {
        assert(fits(i, matched[i]));
    }
    if aas.len() > bs.len() {
        pairing::lemma_leaves_one(matched, end);
        let j = choose|j: int| 0 <= j < end && !matched.contains(j);
        assert(laws::is_new(before, after, j)) by {
            if first.contains(Some(j)) {
                let i = choose|i: int| 0 <= i < first.len() && first[i] == Some(j);
                assert(matched[i] == j);
            }
        }
    } else {
        pairing::lemma_fits_in(matched, end);
        assert forall|j: int| 0 <= j < aas.len() implies !laws::is_new(before, after, j) by {
            pairing::lemma_injective_reaches_all(matched, j);
            let i = choose|i: int| 0 <= i < matched.len() && matched[i] == j;
            assert(first[i] == Some(j));
        }
    }
}

/// The order of containers, and of the variables and volume mounts in them, is not compared:
/// a manifest that differs from another in nothing else has no findings.
pub proof fn law_order_is_not_compared(before: Manifest, after: Manifest)
    requires
        manifest_well_formed(before),
        all_unambiguous(before),
        reordered(before, after),
    ensures
        diff::manifest_findings(before, after).len() == 0,
{
    lemma_kept_partners(before, after);
    laws::law_silence(before, after);
}

/// Nor does it matter where among the others containers are added: there are findings exactly
/// where there are more containers, and they are only worth noting.
pub proof fn law_adding_anywhere_is_only_noted(before: Manifest, after: Manifest)
    requires
        manifest_well_formed(before),
        all_unambiguous(before),
        laws::same_type(before, after),
        diff::replicas(before) == diff::replicas(after),
        keeps_containers(before, after),
    ensures
        findings::worst(diff::manifest_findings(before, after)) == if diff::containers(after).len()
            > diff::containers(before).len() {
            Some(Severity::Info)
        } else {
            None
        },
{
    let bs = diff::containers(before);
    lemma_kept_partners(before, after);
    laws::law_severities(before, after);
    assert forall|i: int| 0 <= i < bs.len() implies !laws::loses(
        bs[i],
        (#[trigger] laws::partner(before, after, i))->0,
    ) && !laws::alters(bs[i], laws::partner(before, after, i)->0) && !laws::gains(
        bs[i],
        laws::partner(before, after, i)->0,
    ) by {
        laws::lemma_alike(bs[i], laws::partner(before, after, i)->0);
    }
}

// ---------------------------------------------------------------------
// Of what is compared
// ---------------------------------------------------------------------

/// Variables are found to change alike where they are equal.
proof fn lemma_same_change(
    before: Option<EnvVar>,
    before_too: Option<EnvVar>,
    after: Option<EnvVar>,
    after_too: Option<EnvVar>,
)
    requires
        laws::same_env(before, before_too),
        laws::same_env(before_too, before),
        laws::same_env(after, after_too),
        laws::same_env(after_too, after),
    ensures
        forall|c: Seq<char>, n: Seq<char>|
            diff::env_change(c, n, before, after) == diff::env_change(c, n, before_too, after_too),
{
    if let (Some(b), Some(d), Some(a), Some(e)) = (before, before_too, after, after_too) {
        if manifest::same_env_value(b, a) {
            lemma_same_env_value_transitive(d, b, a);
            lemma_same_env_value_transitive(d, a, e);
        }
        if manifest::same_env_value(d, e) {
            lemma_same_env_value_transitive(b, d, e);
            lemma_same_env_value_transitive(b, e, a);
        }
    }
}

/// Probes are found to change alike where they are equal.
proof fn lemma_same_probe_change(
    before: Option<Value>,
    before_too: Option<Value>,
    after: Option<Value>,
    after_too: Option<Value>,
)
    requires
        manifest::same_optional_value(before, before_too),
        manifest::same_optional_value(before_too, before),
        manifest::same_optional_value(after, after_too),
        manifest::same_optional_value(after_too, after),
    ensures
        forall|c: Seq<char>, probe: Seq<char>|
            diff::probe_findings(c, probe, before, after) == diff::probe_findings(
                c,
                probe,
                before_too,
                after_too,
            ),
{
    if before is Some && after is Some {
        if manifest::same_optional_value(before, after) {
            lemma_same_optional_value_transitive(before_too, before, after);
            lemma_same_optional_value_transitive(before_too, after, after_too);
        }
        if manifest::same_optional_value(before_too, after_too) {
            lemma_same_optional_value_transitive(before, before_too, after_too);
            lemma_same_optional_value_transitive(before, after_too, after);
        }
    }
}

/// Names that occur alike are listed alike.
proof fn lemma_same_names<T: Named>(
    before: Seq<T>,
    before_too: Seq<T>,
    after: Seq<T>,
    after_too: Seq<T>,
)
    requires
        forall|n: Seq<char>| #[trigger]
            names::names_of(before).contains(n) <==> names::names_of(before_too).contains(n),
        forall|n: Seq<char>| #[trigger]
            names::names_of(after).contains(n) <==> names::names_of(after_too).contains(n),
    ensures
        names::names_of_both(before, after) == names::names_of_both(before_too, after_too),
{
    let new = names::lacked_by(before);
    assert forall|n: Seq<char>| #[trigger] new(n) == names::lacked_by(before_too)(n) by {
        names::lemma_last_named(before, n);
        names::lemma_last_named(before_too, n);
        assert(names::names_of(before).contains(n) <==> names::names_of(before_too).contains(n));
    }
    assert(new =~= names::lacked_by(before_too));
    lemma_ordered_alike(names::names_of(before), names::names_of(before_too));
    let x = names::names_of(after).filter(new);
    let y = names::names_of(after_too).filter(new);
    assert forall|n: Seq<char>| #[trigger] x.contains(n) <==> y.contains(n) by {
        lemma_filtered(names::names_of(after), new, n);
        lemma_filtered(names::names_of(after_too), new, n);
        assert(names::names_of(after).contains(n) <==> names::names_of(after_too).contains(n));
    }
    lemma_ordered_alike(x, y);
}

/// Names that occur alike are ordered alike.
proof fn lemma_ordered_alike(x: Seq<Seq<char>>, y: Seq<Seq<char>>)
    requires
        forall|n: Seq<char>| #[trigger] x.contains(n) <==> y.contains(n),
    ensures
        names::ordered(x) == names::ordered(y),
{
    names::law_ordered_lists_the_names(x);
    names::law_ordered_lists_the_names(y);
    assert forall|n: Seq<char>|
        names::ordered(x).contains(n) <==> #[trigger] names::ordered(y).contains(n) by {
        assert(names::ordered(x).contains(n) <==> x.contains(n));
        assert(names::ordered(y).contains(n) <==> y.contains(n));
    }
    names::law_increasing_is_unique(names::ordered(x), names::ordered(y));
}

/// What is left of a list are its items that pass.
pub proof fn lemma_filtered<T>(items: Seq<T>, passes: spec_fn(T) -> bool, t: T)
    ensures
        items.filter(passes).contains(t) <==> (items.contains(t) && passes(t)),
{
    if items.filter(passes).contains(t) {
        items.lemma_filter_contains_rev(passes, t);
        let k = choose|k: int|
            0 <= k < items.filter(passes).len() && items.filter(passes)[k] == t;
        items.lemma_filter_pred(passes, k);
    }
    if items.contains(t) && passes(t) {
        let k = choose|k: int| 0 <= k < items.len() && items[k] == t;
        items.lemma_filter_contains(passes, k);
    }
}

/// What is found of containers is found of any that are alike, both ways, and named alike.
proof fn lemma_alike_keep_the_findings(
    before: Container,
    before_too: Container,
    after: Container,
    after_too: Container,
)
    requires
        before.name@ == before_too.name@,
        laws::alike(before, before_too),
        laws::alike(before_too, before),
        laws::alike(after, after_too),
        laws::alike(after_too, after),
    ensures
        diff::container_findings(before, after) == diff::container_findings(before_too, after_too),
{
    let c = before.name@;

    let x = before.env@;
    let x_too = before_too.env@;
    let y = after.env@;
    let y_too = after_too.env@;
    assert forall|n: Seq<char>| #[trigger]
        EnvVar::change(c, n, x, y) == EnvVar::change(c, n, x_too, y_too) by {
        assert(laws::same_env(laws::env_of(before, n), laws::env_of(before_too, n)));
        assert(laws::same_env(laws::env_of(before_too, n), laws::env_of(before, n)));
        assert(laws::same_env(laws::env_of(after, n), laws::env_of(after_too, n)));
        assert(laws::same_env(laws::env_of(after_too, n), laws::env_of(after, n)));
        lemma_same_change(
            laws::env_of(before, n),
            laws::env_of(before_too, n),
            laws::env_of(after, n),
            laws::env_of(after_too, n),
        );
    }
    assert(diff::change_step(c, x, y) =~= diff::change_step(c, x_too, y_too));
    lemma_variables_named_alike(before, before_too);
    lemma_variables_named_alike(after, after_too);
    lemma_same_names(x, x_too, y, y_too);

    let u = before.volume_mounts@;
    let u_too = before_too.volume_mounts@;
    let v = after.volume_mounts@;
    let v_too = after_too.volume_mounts@;
    assert forall|n: Seq<char>| #[trigger]
        VolumeMount::change(c, n, u, v) == VolumeMount::change(c, n, u_too, v_too) by {
        lemma_same_paths_only_in(u, u_too, v, v_too, n);
        lemma_same_paths_only_in(v, v_too, u, u_too, n);
    }
    assert(diff::change_step(c, u, v) =~= diff::change_step(c, u_too, v_too));
    lemma_volumes_named_alike(before, before_too);
    lemma_volumes_named_alike(after, after_too);
    lemma_same_names(u, u_too, v, v_too);

    lemma_same_probe_change(
        before.liveness_probe,
        before_too.liveness_probe,
        after.liveness_probe,
        after_too.liveness_probe,
    );
    lemma_same_probe_change(
        before.readiness_probe,
        before_too.readiness_probe,
        after.readiness_probe,
        after_too.readiness_probe,
    );
}

/// Containers that are alike have variables of the same names.
proof fn lemma_variables_named_alike(a: Container, b: Container)
    requires
        laws::alike(a, b),
    ensures
        forall|n: Seq<char>| #[trigger]
            names::names_of(a.env@).contains(n) <==> names::names_of(b.env@).contains(n),
{
    assert forall|n: Seq<char>| #[trigger]
        names::names_of(a.env@).contains(n) <==> names::names_of(b.env@).contains(n) by {
        names::lemma_last_named(a.env@, n);
        names::lemma_last_named(b.env@, n);
        assert(laws::same_env(laws::env_of(a, n), laws::env_of(b, n)));
    }
}

/// Containers that are alike mount the same volumes.
proof fn lemma_volumes_named_alike(a: Container, b: Container)
    requires
        laws::alike(a, b),
    ensures
        forall|n: Seq<char>| #[trigger]
            names::names_of(a.volume_mounts@).contains(n) <==> names::names_of(
                b.volume_mounts@,
            ).contains(n),
{
    let u = a.volume_mounts@;
    let v = b.volume_mounts@;
    assert forall|n: Seq<char>| #[trigger]
        names::names_of(u).contains(n) <==> names::names_of(v).contains(n) by {
        lemma_mounted_somewhere(u, n);
        lemma_mounted_somewhere(v, n);
        if names::names_of(u).contains(n) {
            let path = choose|path: Seq<char>| diff::mounted(u, n, path);
            assert(diff::mounted(v, n, path));
        }
        if names::names_of(v).contains(n) {
            let path = choose|path: Seq<char>| diff::mounted(v, n, path);
            assert(diff::mounted(u, n, path));
        }
    }
}

/// A container is found to change in the same way, whatever the order of the variables and
/// volume mounts in the one that it is held against.
pub proof fn law_item_order_keeps_the_findings(
    before: Container,
    after: Container,
    other: Container,
)
    requires
        container_well_formed(after),
        unambiguous(after),
        same_but_for_order(after, other),
    ensures
        diff::container_findings(before, after) == diff::container_findings(before, other),
{
    lemma_items_alike(after, other);
    lemma_alike_symmetric(after, other);
    laws::lemma_equal_reflexive(before);
    laws::lemma_equal_is_alike(before, before);
    lemma_alike_keep_the_findings(before, before, after, other);
}

/// Paths that are mounted alike are listed alike.
proof fn lemma_same_paths_only_in(
    here: Seq<VolumeMount>,
    here_too: Seq<VolumeMount>,
    there: Seq<VolumeMount>,
    there_too: Seq<VolumeMount>,
    name: Seq<char>,
)
    requires
        forall|path: Seq<char>| #[trigger]
            diff::mounted(here, name, path) <==> diff::mounted(here_too, name, path),
        forall|path: Seq<char>| #[trigger]
            diff::mounted(there, name, path) <==> diff::mounted(there_too, name, path),
    ensures
        diff::paths_only_in(here, there, name) == diff::paths_only_in(here_too, there_too, name),
{
    laws::lemma_paths_only_in(here, there, name);
    laws::lemma_paths_only_in(here_too, there_too, name);
    let x = diff::paths_only_in(here, there, name);
    let y = diff::paths_only_in(here_too, there_too, name);
    assert forall|path: Seq<char>| x.contains(path) <==> #[trigger] y.contains(path) by {
        assert(x.contains(path) <==> (diff::mounted(here, name, path) && !diff::mounted(
            there,
            name,
            path,
        )));
    }
    names::law_increasing_is_unique(x, y);
}

/// A volume is named exactly where it is mounted at some path.
proof fn lemma_mounted_somewhere(mounts: Seq<VolumeMount>, name: Seq<char>)
    ensures
        names::names_of(mounts).contains(name) <==> exists|path: Seq<char>|
            diff::mounted(mounts, name, path),
{
    if names::names_of(mounts).contains(name) {
        let i = choose|i: int| 0 <= i < mounts.len() && names::names_of(mounts)[i] == name;
        assert(mounts[i].name@ == name);
        assert(diff::mounted(mounts, name, mounts[i].mount_path@));
    }
    if exists|path: Seq<char>| diff::mounted(mounts, name, path) {
        let path = choose|path: Seq<char>| diff::mounted(mounts, name, path);
        let i = choose|i: int|
            0 <= i < mounts.len() && (#[trigger] mounts[i]).name@ == name && mounts[i].mount_path@
                == path;
        assert(names::names_of(mounts)[i] == mounts[i].name_text());
    }
}

/// Two manifests that are the same but for the order, with each container name used once, are
/// found to differ from a third in the same findings, though perhaps in another order.
pub proof fn law_reordering_keeps_the_findings(
    before: Manifest,
    after: Manifest,
    other: Manifest,
)
    requires
        manifest_well_formed(after),
        all_unambiguous(after),
        names::names_of(diff::containers(after)).no_duplicates(),
        reordered(after, other),
    ensures
        diff::manifest_findings(before, after).to_multiset() == diff::manifest_findings(
            before,
            other,
        ).to_multiset(),
{
    let bs = diff::containers(before);
    let aas = diff::containers(after);
    let others = diff::containers(other);
    let to = choose|places: Seq<int>| placed(aas, others, places);
    lemma_moved_partners(bs, aas, others, to);
    let p = diff::partners(bs, aas);
    let q = diff::partners(bs, others);
    diff::lemma_partners(bs, aas);

    let kept = diff::all_kept(bs, aas);
    let added = diff::all_added(bs, aas);
    let other_added = diff::all_added(bs, others);
    assert(kept =~= diff::all_kept(bs, others)) by {
        assert forall|i: int| 0 <= i < bs.len() implies diff::kept_findings(bs, aas, i)
            == #[trigger] diff::kept_findings(bs, others, i) by {
            if p[i] is Some {
                let j = p[i]->0;
                assert(q[i] == Some(to[j]));
                law_item_order_keeps_the_findings(bs[i], aas[j], others[to[j]]);
            }
        }
    }
    assert forall|j: int| 0 <= j < added.len() implies other_added[to[j]]
        == #[trigger] added[j] by {
        assert(same_but_for_order(aas[j], others[to[j]]));
        if !pairing::free(p, j) {
            let k = choose|k: int| 0 <= k < p.len() && p[k] == Some(j);
            assert(q[k] == Some(to[j]));
        }
        if !pairing::free(q, to[j]) {
            let k = choose|k: int| 0 <= k < q.len() && q[k] == Some(to[j]);
            assert(p[k] is Some && to[p[k]->0] == to[j]);
            assert(p[k] == Some(j));
        }
    }
    lemma_pieces_reordered(added, other_added, to);
    let start = diff::type_findings(before, after) + diff::replica_findings(
        diff::replicas(before),
        diff::replicas(after),
    ) + kept.flatten();
    vstd::seq_lib::lemma_multiset_commutative(start, added.flatten());
    vstd::seq_lib::lemma_multiset_commutative(start, other_added.flatten());
}

/// Each container is held against the same one, wherever that stands.
proof fn lemma_moved_partners(
    bs: Seq<Container>,
    aas: Seq<Container>,
    others: Seq<Container>,
    to: Seq<int>,
)
    requires
        forall|j: int|
            0 <= j < aas.len() ==> container_well_formed(#[trigger] aas[j]) && unambiguous(aas[j]),
        names::names_of(aas).no_duplicates(),
        aas.len() == others.len(),
        placed(aas, others, to),
    ensures
        diff::partners(bs, others) == pairing::moved(diff::partners(bs, aas), to),
{
    let end = aas.len() as int;
    let count = bs.len() as int;
    let fits = diff::namesakes(bs, aas, true);
    let other_fits = diff::namesakes(bs, others, true);
    let same = diff::namesakes(bs, aas, false);
    let other_same = diff::namesakes(bs, others, false);
    assert forall|i: int, j: int| 0 <= i < bs.len() && 0 <= j < aas.len() implies #[trigger] fits(
        i,
        j,
    ) == other_fits(i, to[j]) by {
        assert(same_but_for_order(aas[j], others[to[j]]));
        law_item_order_keeps_the_findings(bs[i], aas[j], others[to[j]]);
    }
    assert forall|i: int, j: int| 0 <= i < bs.len() && 0 <= j < aas.len() implies #[trigger] same(
        i,
        j,
    ) == other_same(i, to[j]) by {
        assert(same_but_for_order(aas[j], others[to[j]]));
    }
    assert forall|j: int, k: int|
        0 <= j < aas.len() && 0 <= k < aas.len() && (#[trigger] aas[j]).name@ == (
        #[trigger] aas[k]).name@ implies j == k by {
        assert(names::names_of(aas)[j] == aas[j].name@);
        assert(names::names_of(aas)[k] == aas[k].name@);
    }
    let none = pairing::nobody(bs.len());
    assert(pairing::moved(none, to) == none);
    pairing::lemma_claims_moved(none, fits, other_fits, to, count);
    pairing::lemma_claims(none, fits, end, count);
    let first = pairing::claims(none, fits, end, count);
    pairing::lemma_claims_moved(first, same, other_same, to, count);
}

/// Equal manifests, compared with equal ones, give the same findings in the same order,
/// whatever their names and labels.
pub proof fn law_equal_manifests_compare_alike(
    before: Manifest,
    before_too: Manifest,
    after: Manifest,
    after_too: Manifest,
)
    requires
        manifest_well_formed(before),
        manifest_well_formed(after),
        laws::equal_manifest(before, before_too),
        laws::equal_manifest(after, after_too),
    ensures
        diff::manifest_findings(before, after) == diff::manifest_findings(before_too, after_too),
{
    let bs = diff::containers(before);
    let bs_too = diff::containers(before_too);
    let aas = diff::containers(after);
    let aas_too = diff::containers(after_too);
    assert forall|i: int, j: int| 0 <= i < bs.len() && 0 <= j < aas.len() implies
        #[trigger] diff::container_findings(bs[i], aas[j]) == diff::container_findings(
        bs_too[i],
        aas_too[j],
    ) by {
        laws::lemma_equal_is_alike(bs[i], bs_too[i]);
        laws::lemma_equal_is_alike(aas[j], aas_too[j]);
        lemma_alike_symmetric(bs[i], bs_too[i]);
        lemma_alike_symmetric(aas[j], aas_too[j]);
        lemma_alike_keep_the_findings(bs[i], bs_too[i], aas[j], aas_too[j]);
    }
    let end = aas.len() as int;
    let count = bs.len() as int;
    assert forall|unchanged: bool, i: int, j: int|
        0 <= i < bs.len() && 0 <= j < aas.len() implies #[trigger] diff::namesakes(
        bs,
        aas,
        unchanged,
    )(i, j) == diff::namesakes(bs_too, aas_too, unchanged)(i, j) by {
        assert(laws::equal_container(bs[i], bs_too[i]));
        assert(laws::equal_container(aas[j], aas_too[j]));
        assert(diff::container_findings(bs[i], aas[j]) == diff::container_findings(
            bs_too[i],
            aas_too[j],
        ));
    }
    let none = pairing::nobody(bs.len());
    let fits = diff::namesakes(bs, aas, true);
    let same = diff::namesakes(bs, aas, false);
    let first = pairing::claims(none, fits, end, count);
    pairing::lemma_claims_alike(none, fits, diff::namesakes(bs_too, aas_too, true), end, count);
    pairing::lemma_claims_len(none, fits, end, count);
    pairing::lemma_claims_alike(first, same, diff::namesakes(bs_too, aas_too, false), end, count);
    diff::lemma_partners(bs, aas);
    assert(diff::all_kept(bs, aas) =~= diff::all_kept(bs_too, aas_too)) by {
        assert forall|i: int| 0 <= i < bs.len() implies diff::kept_findings(bs, aas, i)
            == #[trigger] diff::kept_findings(bs_too, aas_too, i) by {
            assert(laws::equal_container(bs[i], bs_too[i]));
            if let Some(j) = diff::partners(bs, aas)[i] {
                assert(diff::container_findings(bs[i], aas[j]) == diff::container_findings(
                    bs_too[i],
                    aas_too[j],
                ));
            }
        }
    }
    assert(diff::all_added(bs, aas) =~= diff::all_added(bs_too, aas_too)) by {
        assert forall|j: int| 0 <= j < aas.len() implies diff::added_findings(bs, aas, j)
            == #[trigger] diff::added_findings(bs_too, aas_too, j) by {
            assert(laws::equal_container(aas[j], aas_too[j]));
        }
    }
}

/// Lists put together in another order hold the same, and as often.
pub proof fn lemma_pieces_reordered(
    x: Seq<Seq<FindingView>>,
    y: Seq<Seq<FindingView>>,
    to: Seq<int>,
)
    requires
        x.len() == y.len() == to.len(),
        to.no_duplicates(),
        forall|i: int|
            0 <= i < to.len() ==> 0 <= #[trigger] to[i] < to.len() && y[to[i]] == x[i],
    ensures
        x.flatten().to_multiset() == y.flatten().to_multiset(),
    decreases x.len(),
{
    if x.len() == 0 {
        assert(x == y);
    } else {
        let n = x.len() - 1;
        let k = to[n];
        let rest = y.remove(k);
        let back = Seq::new(
            n as nat,
            |i: int|
                if to[i] > k {
                    to[i] - 1
                } else {
                    to[i]
                },
        );
        assert forall|i: int| 0 <= i < n implies 0 <= #[trigger] back[i] < n && rest[back[i]]
            == x.drop_last()[i] by {
            assert(to[i] != k);
            assert(y[to[i]] == x[i]);
        }
        assert(back.no_duplicates());
        lemma_pieces_reordered(x.drop_last(), rest, back);
        assert(x == x.drop_last().push(x[n]));
        x.drop_last().lemma_flatten_push(x[n]);
        vstd::seq_lib::lemma_multiset_commutative(x.drop_last().flatten(), x[n]);
        let front = y.take(k);
        let tail = y.skip(k + 1);
        assert(y == front.push(y[k]) + tail);
        assert(rest == front + tail);
        vstd::seq_lib::lemma_flatten_concat(front.push(y[k]), tail);
        vstd::seq_lib::lemma_flatten_concat(front, tail);
        front.lemma_flatten_push(y[k]);
        vstd::seq_lib::lemma_multiset_commutative(front.flatten() + y[k], tail.flatten());
        vstd::seq_lib::lemma_multiset_commutative(front.flatten(), y[k]);
        vstd::seq_lib::lemma_multiset_commutative(front.flatten(), tail.flatten());
        assert(x.flatten().to_multiset() =~= y.flatten().to_multiset());
    }
}

} // verus!
