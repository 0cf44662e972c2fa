//! What comparing the other way round does to the findings.

use vstd::prelude::*;

use crate::diff;
use crate::diff::Compared;
use crate::findings::{FindingView, Severity};
use crate::laws;
use crate::manifest;
use crate::manifest::{Container, EnvVar, VolumeMount};
use crate::names;
use crate::order;
use crate::yaml::Value;

verus! {

/// How many findings are risky.
pub open spec fn risky_count(found: Seq<FindingView>) -> nat {
    found.filter(risky()).len()
}

/// Whether a finding is risky.
pub open spec fn risky() -> spec_fn(FindingView) -> bool {
    |f: FindingView| f.severity == Severity::Risky
}

/// How often something is found.
pub open spec fn count(found: Seq<FindingView>, finding: FindingView) -> nat {
    found.to_multiset().count(finding)
}

/// Whether two lists of findings on a container mirror one another: they are equally long,
/// with equally many risky findings, and what was removed as often in one was added as often in
/// the other.
pub open spec fn mirrored(
    container: Seq<char>,
    found: Seq<FindingView>,
    other: Seq<FindingView>,
) -> bool {
    &&& found.len() == other.len()
    &&& risky_count(found) == risky_count(other)
    &&& forall|what: Seq<char>|
        count(found, #[trigger] diff::removal(container, what)) == count(
            other,
            diff::addition(container, what),
        )
    &&& forall|what: Seq<char>|
        count(found, #[trigger] diff::addition(container, what)) == count(
            other,
            diff::removal(container, what),
        )
}

/// What is removed or added is told by the finding.
proof fn lemma_finding_tells(container: Seq<char>, x: Seq<char>, y: Seq<char>)
    ensures
        diff::removal(container, x) == diff::removal(container, y) <==> x == y,
        diff::addition(container, x) == diff::addition(container, y) <==> x == y,
{
    let front = "container \""@ + container + "\": "@;
    if diff::removal(container, x) == diff::removal(container, y) {
        let message = diff::removal(container, x).message;
        assert(message == front + (x + " was removed"@));
        assert(message == front + (y + " was removed"@));
        assert(message.subrange(front.len() as int, message.len() - " was removed"@.len()) == x);
        assert(message.subrange(front.len() as int, message.len() - " was removed"@.len()) == y);
    }
    if diff::addition(container, x) == diff::addition(container, y) {
        let message = diff::addition(container, x).message;
        assert(message == front + (x + " was added"@));
        assert(message == front + (y + " was added"@));
        assert(message.subrange(front.len() as int, message.len() - " was added"@.len()) == x);
        assert(message.subrange(front.len() as int, message.len() - " was added"@.len()) == y);
    }
}

/// A list of one finding holds that one once and no other.
proof fn lemma_single(f: FindingView)
    ensures
        forall|x: FindingView| #[trigger] count(seq![f], x) == if x == f {
            1nat
        } else {
            0
        },
        risky_count(seq![f]) == if f.severity == Severity::Risky {
            1nat
        } else {
            0
        },
{
    let none = Seq::<FindingView>::empty();
    assert(seq![f] == none.push(f));
    none.to_multiset_ensures();
    assert(none.push(f).to_multiset() =~= none.to_multiset().insert(f));
    assert(none.to_multiset().len() == 0);
    none.lemma_filter_push(f, risky());
    assert(none.filter(risky()).len() == 0) by {
        reveal(Seq::filter);
    }
}

/// A removal and an addition of the same mirror one another, and so do two changes.
proof fn lemma_mirrored_single(container: Seq<char>, what: Seq<char>, x: Seq<char>, y: Seq<char>)
    ensures
        mirrored(
            container,
            seq![diff::removal(container, what)],
            seq![diff::addition(container, what)],
        ),
        mirrored(
            container,
            seq![diff::addition(container, what)],
            seq![diff::removal(container, what)],
        ),
        mirrored(
            container,
            seq![diff::alteration(container, x)],
            seq![diff::alteration(container, y)],
        ),
{
    lemma_single(diff::removal(container, what));
    lemma_single(diff::addition(container, what));
    lemma_single(diff::alteration(container, x));
    lemma_single(diff::alteration(container, y));
    assert forall|t: Seq<char>|
        (diff::removal(container, t) == diff::removal(container, what) <==> t == what) && (
        diff::addition(container, t) == diff::addition(container, what) <==> t == what) by {
        lemma_finding_tells(container, t, what);
    }
}

/// Nothing mirrors nothing.
proof fn lemma_mirrored_none(container: Seq<char>)
    ensures
        mirrored(container, Seq::empty(), Seq::empty()),
{
    Seq::<FindingView>::empty().to_multiset_ensures();
}

/// Lists put together mirror one another where their parts do.
proof fn lemma_mirrored_joined(
    container: Seq<char>,
    a: Seq<FindingView>,
    b: Seq<FindingView>,
    x: Seq<FindingView>,
    y: Seq<FindingView>,
)
    requires
        mirrored(container, a, x),
        mirrored(container, b, y),
    ensures
        mirrored(container, a + b, x + y),
{
    vstd::seq_lib::lemma_multiset_commutative(a, b);
    vstd::seq_lib::lemma_multiset_commutative(x, y);
    Seq::filter_distributes_over_add(a, b, risky());
    Seq::filter_distributes_over_add(x, y, risky());
    assert forall|f: FindingView| #[trigger] count(a + b, f) == count(a, f) + count(b, f) by {}
    assert forall|f: FindingView| #[trigger] count(x + y, f) == count(x, f) + count(y, f) by {}
    assert forall|what: Seq<char>|
        count(a + b, #[trigger] diff::removal(container, what)) == count(
            x + y,
            diff::addition(container, what),
        ) by {
        assert(count(a, diff::removal(container, what)) == count(
            x,
            diff::addition(container, what),
        ));
    }
    assert forall|what: Seq<char>|
        count(a + b, #[trigger] diff::addition(container, what)) == count(
            x + y,
            diff::removal(container, what),
        ) by {
        assert(count(a, diff::addition(container, what)) == count(
            x,
            diff::removal(container, what),
        ));
    }
}

/// Lists of lists mirror one another where the lists do one by one.
proof fn lemma_mirrored_pieces(
    container: Seq<char>,
    x: Seq<Seq<FindingView>>,
    y: Seq<Seq<FindingView>>,
)
    requires
        x.len() == y.len(),
        forall|i: int| 0 <= i < x.len() ==> mirrored(container, #[trigger] x[i], y[i]),
    ensures
        mirrored(container, x.flatten(), y.flatten()),
    decreases x.len(),
{
    if x.len() == 0 {
        lemma_mirrored_none(container);
    } else {
        let n = x.len() - 1;
        lemma_mirrored_pieces(container, x.drop_last(), y.drop_last());
        assert(mirrored(container, x[n], y[n]));
        assert(x == x.drop_last().push(x[n]));
        assert(y == y.drop_last().push(y[n]));
        x.drop_last().lemma_flatten_push(x[n]);
        y.drop_last().lemma_flatten_push(y[n]);
        lemma_mirrored_joined(
            container,
            x.drop_last().flatten(),
            x[n],
            y.drop_last().flatten(),
            y[n],
        );
    }
}

/// Lists mirror one another where their findings do one by one.
proof fn lemma_mirrored_each(container: Seq<char>, x: Seq<FindingView>, y: Seq<FindingView>)
    requires
        x.len() == y.len(),
        forall|i: int| 0 <= i < x.len() ==> mirrored(container, seq![#[trigger] x[i]], seq![y[i]]),
    ensures
        mirrored(container, x, y),
    decreases x.len(),
{
    if x.len() == 0 {
        assert(x == Seq::<FindingView>::empty());
        assert(y == Seq::<FindingView>::empty());
        lemma_mirrored_none(container);
    } else {
        let n = x.len() - 1;
        lemma_mirrored_each(container, x.drop_last(), y.drop_last());
        assert(mirrored(container, seq![x[n]], seq![y[n]]));
        assert(x == x.drop_last() + seq![x[n]]);
        assert(y == y.drop_last() + seq![y[n]]);
        lemma_mirrored_joined(container, x.drop_last(), seq![x[n]], y.drop_last(), seq![y[n]]);
    }
}

/// Equally many are risky in lists that hold the same.
proof fn lemma_same_risky_count(x: Seq<FindingView>, y: Seq<FindingView>)
    requires
        x.to_multiset() == y.to_multiset(),
    ensures
        risky_count(x) == risky_count(y),
    decreases x.len(),
{
    x.to_multiset_ensures();
    y.to_multiset_ensures();
    if x.len() > 0 {
        let n = x.len() - 1;
        let f = x[n];
        let rest = x.drop_last();
        assert(x == rest + seq![f]);
        assert(x.contains(f));
        assert(y.to_multiset().count(f) > 0);
        assert(y.contains(f));
        let k = choose|k: int| 0 <= k < y.len() && y[k] == f;
        let front = y.take(k);
        let tail = y.skip(k + 1);
        assert(y == front + seq![f] + tail);
        assert(y.remove(k) == front + tail);
        assert(x.remove(n) == rest);
        assert(rest.to_multiset() =~= y.remove(k).to_multiset());
        lemma_same_risky_count(rest, y.remove(k));
        Seq::filter_distributes_over_add(rest, seq![f], risky());
        Seq::filter_distributes_over_add(front + seq![f], tail, risky());
        Seq::filter_distributes_over_add(front, seq![f], risky());
        Seq::filter_distributes_over_add(front, tail, risky());
    } else {
        assert(x == y);
    }
}

/// What is found of named items mirrors what is found of them the other way round, where this
/// holds name by name.
proof fn lemma_mirrored_items<T: Compared>(container: Seq<char>, x: Seq<T>, y: Seq<T>)
    requires
        forall|n: Seq<char>|
            mirrored(
                container,
                #[trigger] T::change(container, n, x, y),
                T::change(container, n, y, x),
            ),
    ensures
        mirrored(
            container,
            diff::item_findings(container, x, y),
            diff::item_findings(container, y, x),
        ),
{
    let there = names::names_of_both(x, y);
    let back = names::names_of_both(y, x);
    let step = diff::change_step(container, x, y);
    let step_back = diff::change_step(container, y, x);
    names::law_names_of_both(x, y);
    names::law_names_of_both(y, x);
    assert forall|n: Seq<char>| there.contains(n) <==> back.contains(n) by {
        assert(there.contains(n) <==> (names::names_of(x).contains(n) || names::names_of(
            y,
        ).contains(n)));
        assert(back.contains(n) <==> (names::names_of(x).contains(n) || names::names_of(
            y,
        ).contains(n)));
    }
    let f = there.map_values(step);
    let g = there.map_values(step_back);
    let h = back.map_values(step_back);
    assert forall|i: int| 0 <= i < f.len() implies mirrored(container, #[trigger] f[i], g[i]) by {
        assert(f[i] == T::change(container, there[i], x, y));
    }
    lemma_mirrored_pieces(container, f, g);
    there.unique_seq_to_set();
    back.unique_seq_to_set();
    assert(there.to_set() =~= back.to_set());
    let to = Seq::new(there.len(), |i: int| back.index_of(there[i]));
    assert forall|i: int| 0 <= i < to.len() implies 0 <= #[trigger] to[i] < to.len() && back[to[i]]
        == there[i] by {
        assert(there.contains(there[i]));
        assert(back.contains(there[i]));
    }
    assert(to.no_duplicates());
    order::lemma_pieces_reordered(g, h, to);
    lemma_same_risky_count(g.flatten(), h.flatten());
    g.flatten().to_multiset_ensures();
    h.flatten().to_multiset_ensures();
}

/// A variable that changes from one to another mirrors one that changes back.
proof fn lemma_mirrored_env(container: Seq<char>, x: Container, y: Container, n: Seq<char>)
    requires
        order::container_well_formed(x),
        order::container_well_formed(y),
    ensures
        mirrored(
            container,
            EnvVar::change(container, n, x.env@, y.env@),
            EnvVar::change(container, n, y.env@, x.env@),
        ),
{
    let what = diff::item("env var"@, n);
    lemma_mirrored_none(container);
    lemma_mirrored_single(container, what, what + " value changed"@, what + " value changed"@);
    if let (Some(a), Some(b)) = (laws::env_of(x, n), laws::env_of(y, n)) {
        order::lemma_env_well_formed(x, n);
        order::lemma_env_well_formed(y, n);
        lemma_same_optional_value_both_ways(a.value_from, b.value_from);
    }
}

/// Well-formed optional values are equal one way exactly where they are the other way.
proof fn lemma_same_optional_value_both_ways(a: Option<Value>, b: Option<Value>)
    requires
        order::optional_well_formed(a),
        order::optional_well_formed(b),
    ensures
        manifest::same_optional_value(a, b) <==> manifest::same_optional_value(b, a),
{
    if manifest::same_optional_value(a, b) {
        order::lemma_same_optional_value_symmetric(a, b);
    }
    if manifest::same_optional_value(b, a) {
        order::lemma_same_optional_value_symmetric(b, a);
    }
}

/// A volume that changes its paths from some to others mirrors one that changes them back.
proof fn lemma_mirrored_mounts(
    container: Seq<char>,
    x: Seq<VolumeMount>,
    y: Seq<VolumeMount>,
    n: Seq<char>,
)
    ensures
        mirrored(
            container,
            VolumeMount::change(container, n, x, y),
            VolumeMount::change(container, n, y, x),
        ),
{
    let lost = diff::paths_only_in(x, y, n);
    let gained = diff::paths_only_in(y, x, n);
    let f = VolumeMount::change(container, n, x, y);
    let g = VolumeMount::change(container, n, y, x);
    let what = diff::item("volumeMount"@, n);
    assert forall|k: int| 0 <= k < f.len() implies mirrored(
        container,
        seq![#[trigger] f[k]],
        seq![g[k]],
    ) by {
        assert(g[k] == diff::mount_finding(container, n, gained, lost, k));
        lemma_mirrored_single(
            container,
            what,
            diff::change_message(what + " path"@, lost[k], gained[k]),
            diff::change_message(what + " path"@, gained[k], lost[k]),
        );
    }
    lemma_mirrored_each(container, f, g);
}

/// A probe that changes from one to another mirrors one that changes back.
proof fn lemma_mirrored_probe(
    container: Seq<char>,
    probe: Seq<char>,
    x: Option<Value>,
    y: Option<Value>,
)
    requires
        order::optional_well_formed(x),
        order::optional_well_formed(y),
    ensures
        mirrored(
            container,
            diff::probe_findings(container, probe, x, y),
            diff::probe_findings(container, probe, y, x),
        ),
{
    let how = probe + " configuration changed"@;
    lemma_mirrored_none(container);
    lemma_mirrored_single(container, probe, how, how);
    lemma_same_optional_value_both_ways(x, y);
}

/// Comparing two containers of one name the other way round turns each removal into an addition
/// and each addition into a removal, and keeps the number of findings and of risky ones.
pub proof fn law_swap(x: Container, y: Container)
    requires
        x.name@ == y.name@,
        order::container_well_formed(x),
        order::container_well_formed(y),
    ensures
        mirrored(x.name@, diff::container_findings(x, y), diff::container_findings(y, x)),
        forall|what: Seq<char>|
            diff::container_findings(x, y).contains(#[trigger] diff::removal(x.name@, what))
                <==> diff::container_findings(y, x).contains(diff::addition(x.name@, what)),
        forall|what: Seq<char>|
            diff::container_findings(x, y).contains(#[trigger] diff::addition(x.name@, what))
                <==> diff::container_findings(y, x).contains(diff::removal(x.name@, what)),
{
    let c = x.name@;
    let f1 = diff::image_findings(c, x.image@, y.image@);
    let g1 = diff::image_findings(c, y.image@, x.image@);
    let f2 = diff::item_findings(c, x.env@, y.env@);
    let g2 = diff::item_findings(c, y.env@, x.env@);
    let f3 = diff::item_findings(c, x.volume_mounts@, y.volume_mounts@);
    let g3 = diff::item_findings(c, y.volume_mounts@, x.volume_mounts@);
    let f4 = diff::probe_findings(c, "livenessProbe"@, x.liveness_probe, y.liveness_probe);
    let g4 = diff::probe_findings(c, "livenessProbe"@, y.liveness_probe, x.liveness_probe);
    let f5 = diff::probe_findings(c, "readinessProbe"@, x.readiness_probe, y.readiness_probe);
    let g5 = diff::probe_findings(c, "readinessProbe"@, y.readiness_probe, x.readiness_probe);
    assert(mirrored(c, f1, g1)) by {
        lemma_mirrored_none(c);
        if f1.len() > 0 {
            lemma_single(f1[0]);
            lemma_single(g1[0]);
            assert(f1 == seq![f1[0]]);
            assert(g1 == seq![g1[0]]);
        } else {
            assert(f1 == Seq::<FindingView>::empty());
            assert(g1 == Seq::<FindingView>::empty());
        }
    }
    assert forall|n: Seq<char>|
        mirrored(
            c,
            #[trigger] EnvVar::change(c, n, x.env@, y.env@),
            EnvVar::change(c, n, y.env@, x.env@),
        ) by {
        lemma_mirrored_env(c, x, y, n);
    }
    lemma_mirrored_items(c, x.env@, y.env@);
    assert forall|n: Seq<char>|
        mirrored(
            c,
            #[trigger] VolumeMount::change(c, n, x.volume_mounts@, y.volume_mounts@),
            VolumeMount::change(c, n, y.volume_mounts@, x.volume_mounts@),
        ) by {
        lemma_mirrored_mounts(c, x.volume_mounts@, y.volume_mounts@, n);
    }
    lemma_mirrored_items(c, x.volume_mounts@, y.volume_mounts@);
    lemma_mirrored_probe(c, "livenessProbe"@, x.liveness_probe, y.liveness_probe);
    lemma_mirrored_probe(c, "readinessProbe"@, x.readiness_probe, y.readiness_probe);
    lemma_mirrored_joined(c, f1, f2, g1, g2);
    lemma_mirrored_joined(c, f1 + f2, f3, g1 + g2, g3);
    lemma_mirrored_joined(c, f1 + f2 + f3, f4, g1 + g2 + g3, g4);
    lemma_mirrored_joined(c, f1 + f2 + f3 + f4, f5, g1 + g2 + g3 + g4, g5);
    diff::container_findings(x, y).to_multiset_ensures();
    diff::container_findings(y, x).to_multiset_ensures();
    assert forall|what: Seq<char>|
        diff::container_findings(x, y).contains(#[trigger] diff::removal(c, what))
            <==> diff::container_findings(y, x).contains(diff::addition(c, what)) by {
        assert(count(diff::container_findings(x, y), diff::removal(c, what)) == count(
            diff::container_findings(y, x),
            diff::addition(c, what),
        ));
    }
    assert forall|what: Seq<char>|
        diff::container_findings(x, y).contains(#[trigger] diff::addition(c, what))
            <==> diff::container_findings(y, x).contains(diff::removal(c, what)) by {
        assert(count(diff::container_findings(x, y), diff::addition(c, what)) == count(
            diff::container_findings(y, x),
            diff::removal(c, what),
        ));
    }
}

} // verus!
