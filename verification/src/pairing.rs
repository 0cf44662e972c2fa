//! Pairing the items of one list with those of another, each by its place.

use vstd::prelude::*;

verus! {

/// Nobody has a partner.
pub open spec fn nobody(count: nat) -> Seq<Option<int>> {
    Seq::new(count, |i: int| None)
}

/// Whether nobody has the partner at a place.
pub open spec fn free(partners: Seq<Option<int>>, j: int) -> bool {
    !partners.contains(Some(j))
}

/// The first place, from one on and before the end, that is free and fits.
pub open spec fn first_free(
    partners: Seq<Option<int>>,
    fits: spec_fn(int, int) -> bool,
    i: int,
    from: int,
    end: int,
) -> Option<int>
    decreases end - from,
{
    if from >= end {
        None
    } else if free(partners, from) && fits(i, from) {
        Some(from)
    } else {
        first_free(partners, fits, i, from + 1, end)
    }
}

/// The partners after each of the first items, in turn, has taken the first place that fits it
/// if it had none.
pub open spec fn claims(
    start: Seq<Option<int>>,
    fits: spec_fn(int, int) -> bool,
    end: int,
    count: int,
) -> Seq<Option<int>>
    decreases count,
{
    if count <= 0 {
        start
    } else {
        let partners = claims(start, fits, end, count - 1);
        if partners[count - 1] is None {
            partners.update(count - 1, first_free(partners, fits, count - 1, 0, end))
        } else {
            partners
        }
    }
}

/// Whether all partners stand before the end.
pub open spec fn within(partners: Seq<Option<int>>, end: int) -> bool {
    forall|i: int|
        0 <= i < partners.len() && (#[trigger] partners[i]) is Some ==> 0 <= partners[i]->0 < end
}

/// Whether no two have the same partner.
pub open spec fn apart(partners: Seq<Option<int>>) -> bool {
    forall|i: int, k: int|
        0 <= i < partners.len() && 0 <= k < partners.len() && i != k && (
        #[trigger] partners[i]) is Some ==> partners[i] != #[trigger] partners[k]
}

/// What the first free place is.
pub proof fn lemma_first_free(
    partners: Seq<Option<int>>,
    fits: spec_fn(int, int) -> bool,
    i: int,
    from: int,
    end: int,
)
    ensures
        match first_free(partners, fits, i, from, end) {
            Some(j) => {
                &&& from <= j < end
                &&& free(partners, j)
                &&& fits(i, j)
                &&& forall|k: int| from <= k < j && #[trigger] fits(i, k) ==> !free(partners, k)
            },
            None => forall|k: int|
                from <= k < end && #[trigger] fits(i, k) ==> !free(partners, k),
        },
    decreases end - from,
{
    if from < end && !(free(partners, from) && fits(i, from)) {
        lemma_first_free(partners, fits, i, from + 1, end);
    }
}

/// Claiming keeps the number of items.
pub proof fn lemma_claims_len(
    start: Seq<Option<int>>,
    fits: spec_fn(int, int) -> bool,
    end: int,
    count: int,
)
    requires
        count <= start.len(),
    ensures
        claims(start, fits, end, count).len() == start.len(),
    decreases count,
{
    if count > 0 {
        lemma_claims_len(start, fits, end, count - 1);
    }
}

/// What claiming does: whoever has a partner keeps it, a new partner fits, and whoever is left
/// without one fits no free place.
pub proof fn lemma_claims(
    start: Seq<Option<int>>,
    fits: spec_fn(int, int) -> bool,
    end: int,
    count: int,
)
    requires
        within(start, end),
        apart(start),
        0 <= count <= start.len(),
    ensures
        claims(start, fits, end, count).len() == start.len(),
        within(claims(start, fits, end, count), end),
        apart(claims(start, fits, end, count)),
        forall|i: int|
            0 <= i < start.len() && (start[i] is Some || i >= count)
                ==> #[trigger] claims(start, fits, end, count)[i] == start[i],
        forall|i: int|
            0 <= i < count && start[i] is None && (#[trigger] claims(
                start,
                fits,
                end,
                count,
            )[i]) is Some ==> fits(i, claims(start, fits, end, count)[i]->0),
        forall|i: int, j: int|
            0 <= i < count && 0 <= j < end && claims(start, fits, end, count)[i] is None
                && #[trigger] fits(i, j) ==> !free(claims(start, fits, end, count), j),
    decreases count,
{
    if count > 0 {
        let n = count - 1;
        let p = claims(start, fits, end, n);
        let q = claims(start, fits, end, count);
        lemma_claims(start, fits, end, n);
        lemma_first_free(p, fits, n, 0, end);
        assert forall|j: int| !free(p, j) implies !#[trigger] free(q, j) by {
            let k = choose|k: int| 0 <= k < p.len() && p[k] == Some(j);
            assert(q[k] == Some(j));
        }
        assert(apart(q)) by {
            if p[n] is None && q[n] is Some {
                assert forall|k: int| 0 <= k < p.len() implies p[k] != q[n] by {
                    if p[k] == q[n] {
                        assert(p.contains(q[n]));
                    }
                }
            }
        }
    }
}

/// Whoever takes a place leaves none before it free that fits.
proof fn lemma_claims_lowest(
    start: Seq<Option<int>>,
    fits: spec_fn(int, int) -> bool,
    end: int,
    count: int,
)
    requires
        within(start, end),
        apart(start),
        0 <= count <= start.len(),
    ensures
        forall|i: int, j: int|
            0 <= i < count && start[i] is None && claims(start, fits, end, count)[i] is Some && 0
                <= j < claims(start, fits, end, count)[i]->0 && #[trigger] fits(i, j) ==> !free(
                claims(start, fits, end, count),
                j,
            ),
    decreases count,
{
    if count > 0 {
        let n = count - 1;
        let p = claims(start, fits, end, n);
        let q = claims(start, fits, end, count);
        lemma_claims_lowest(start, fits, end, n);
        lemma_claims(start, fits, end, n);
        lemma_first_free(p, fits, n, 0, end);
        assert forall|j: int| !free(p, j) implies !#[trigger] free(q, j) by {
            let k = choose|k: int| 0 <= k < p.len() && p[k] == Some(j);
            assert(q[k] == Some(j));
        }
    }
}

/// Items that fit the same places take them in their order, and the earlier ones before the
/// later ones are left without.
pub proof fn lemma_claims_in_order(
    start: Seq<Option<int>>,
    fits: spec_fn(int, int) -> bool,
    end: int,
    count: int,
)
    requires
        within(start, end),
        apart(start),
        0 <= count <= start.len(),
    ensures
        forall|i: int, k: int|
            #![trigger claims(start, fits, end, count)[i], claims(start, fits, end, count)[k]]
            0 <= i < k < count && start[i] is None && start[k] is None && (forall|j: int|
                0 <= j < end ==> fits(i, j) == #[trigger] fits(k, j)) && claims(
                start,
                fits,
                end,
                count,
            )[k] is Some ==> claims(start, fits, end, count)[i] is Some && claims(
                start,
                fits,
                end,
                count,
            )[i]->0 < claims(start, fits, end, count)[k]->0,
    decreases count,
{
    if count > 0 {
        let n = count - 1;
        let p = claims(start, fits, end, n);
        let q = claims(start, fits, end, count);
        lemma_claims_in_order(start, fits, end, n);
        lemma_claims_lowest(start, fits, end, n);
        lemma_claims(start, fits, end, n);
        lemma_first_free(p, fits, n, 0, end);
        assert forall|i: int, k: int|
            #![trigger q[i], q[k]]
            0 <= i < k < count && start[i] is None && start[k] is None && (forall|j: int|
                0 <= j < end ==> fits(i, j) == #[trigger] fits(k, j)) && q[k] is Some implies q[i]
            is Some && q[i]->0 < q[k]->0 by {
            assert(q[i] == p[i]);
            if k == n {
                let l = q[n]->0;
                assert(p[n] == start[n]);
                assert(fits(n, l));
                assert(fits(i, l));
                if p[i] is Some {
                    assert(p.contains(p[i]));
                }
            } else {
                assert(q[k] == p[k]);
            }
        }
    }
}

/// Where each item fits the place that is its own, in a list that may go on behind, and where
/// nothing was claimed before, each takes its own.
pub proof fn lemma_claims_own(fits: spec_fn(int, int) -> bool, size: nat, end: int, count: int)
    requires
        0 <= count <= size <= end,
        forall|i: int| 0 <= i < size ==> #[trigger] fits(i, i),
    ensures
        claims(nobody(size), fits, end, count) == Seq::new(
            size,
            |i: int|
                if i < count {
                    Some(i)
                } else {
                    None
                },
        ),
    decreases count,
{
    if count > 0 {
        let n = count - 1;
        let p = claims(nobody(size), fits, end, n);
        lemma_claims_own(fits, size, end, n);
        lemma_first_free(p, fits, n, 0, end);
        assert(free(p, n));
        assert(fits(n, n));
        let j = first_free(p, fits, n, 0, end)->0;
        if j < n {
            assert(p[j] == Some(j));
        }
    }
}

/// Places that fit alike are claimed alike.
pub proof fn lemma_claims_alike(
    start: Seq<Option<int>>,
    fits: spec_fn(int, int) -> bool,
    fits_too: spec_fn(int, int) -> bool,
    end: int,
    count: int,
)
    requires
        forall|i: int, j: int|
            0 <= i < count && 0 <= j < end ==> #[trigger] fits(i, j) == fits_too(i, j),
    ensures
        claims(start, fits, end, count) == claims(start, fits_too, end, count),
    decreases count,
{
    if count > 0 {
        let n = count - 1;
        lemma_claims_alike(start, fits, fits_too, end, n);
        lemma_first_free_alike(claims(start, fits, end, n), fits, fits_too, n, 0, end);
    }
}

/// Places that fit alike are found alike.
proof fn lemma_first_free_alike(
    partners: Seq<Option<int>>,
    fits: spec_fn(int, int) -> bool,
    fits_too: spec_fn(int, int) -> bool,
    i: int,
    from: int,
    end: int,
)
    requires
        0 <= from,
        forall|j: int| 0 <= j < end ==> #[trigger] fits(i, j) == fits_too(i, j),
    ensures
        first_free(partners, fits, i, from, end) == first_free(partners, fits_too, i, from, end),
    decreases end - from,
{
    if from < end {
        assert(fits(i, from) == fits_too(i, from));
        lemma_first_free_alike(partners, fits, fits_too, i, from + 1, end);
    }
}

/// Whether places, one for each item, are all different, stand before the end and fit.
pub open spec fn matching(
    matched: Seq<int>,
    fits: spec_fn(int, int) -> bool,
    size: nat,
    end: int,
) -> bool {
    &&& matched.len() == size
    &&& matched.no_duplicates()
    &&& forall|i: int|
        0 <= i < size ==> 0 <= #[trigger] matched[i] < end && fits(i, matched[i])
}

/// Whether whatever fits one place fits all the same places.
pub open spec fn exchangeable(fits: spec_fn(int, int) -> bool, size: nat, end: int) -> bool {
    forall|i: int, k: int, j: int, l: int|
        0 <= i < size && 0 <= k < size && 0 <= j < end && 0 <= l < end && #[trigger] fits(i, j)
            && #[trigger] fits(k, j) && #[trigger] fits(k, l) ==> fits(i, l)
}

/// Where all items can be matched, and items that fit one place fit all the same places,
/// claiming in turn matches all of them.
pub proof fn lemma_claims_matched(
    matched: Seq<int>,
    fits: spec_fn(int, int) -> bool,
    size: nat,
    end: int,
    count: int,
) -> (r: Seq<int>)
    requires
        matching(matched, fits, size, end),
        exchangeable(fits, size, end),
        0 <= count <= size,
    ensures
        matching(r, fits, size, end),
        claims(nobody(size), fits, end, count) == Seq::new(
            size,
            |i: int|
                if i < count {
                    Some(r[i])
                } else {
                    None
                },
        ),
    decreases count,
{
    if count == 0 {
        assert(nobody(size) == Seq::new(
            size,
            |i: int|
                if i < count {
                    Some(matched[i])
                } else {
                    None
                },
        ));
        matched
    } else {
        let n = count - 1;
        let m = lemma_claims_matched(matched, fits, size, end, n);
        let p = claims(nobody(size), fits, end, n);
        lemma_first_free(p, fits, n, 0, end);
        assert(fits(n, m[n]));
        assert(free(p, m[n]));
        let j = first_free(p, fits, n, 0, end)->0;
        let r = if m.contains(j) {
            let k = choose|k: int| 0 <= k < m.len() && m[k] == j;
            if k < n {
                assert(p[k] == Some(j));
            }
            assert(fits(k, m[k]));
            m.update(k, m[n]).update(n, j)
        } else {
            m.update(n, j)
        };
        assert(matching(r, fits, size, end));
        assert(claims(nobody(size), fits, end, count) == Seq::new(
            size,
            |i: int|
                if i < count {
                    Some(r[i])
                } else {
                    None
                },
        ));
        r
    }
}

/// An injective choice of positions in a range of the same length reaches each of them.
pub proof fn lemma_injective_reaches_all(s: Seq<int>, j: int)
    requires
        s.no_duplicates(),
        forall|i: int| 0 <= i < s.len() ==> 0 <= #[trigger] s[i] < s.len(),
        0 <= j < s.len(),
    ensures
        s.contains(j),
{
    let all = vstd::set_lib::set_int_range(0, s.len() as int);
    vstd::set_lib::lemma_int_range(0, s.len() as int);
    vstd::seq_lib::seq_to_set_is_finite(s);
    s.unique_seq_to_set();
    assert(s.to_set().subset_of(all));
    vstd::set_lib::lemma_subset_equality(s.to_set(), all);
    assert(s.to_set().contains(j));
}

/// Different positions in a range are no more than the range holds.
pub proof fn lemma_fits_in(s: Seq<int>, end: int)
    requires
        0 <= end,
        s.no_duplicates(),
        forall|i: int| 0 <= i < s.len() ==> 0 <= #[trigger] s[i] < end,
    ensures
        s.len() <= end,
{
    let all = vstd::set_lib::set_int_range(0, end);
    vstd::set_lib::lemma_int_range(0, end);
    vstd::seq_lib::seq_to_set_is_finite(s);
    s.unique_seq_to_set();
    assert(s.to_set().subset_of(all));
    vstd::set_lib::lemma_len_subset(s.to_set(), all);
}

/// Fewer positions than a range holds leave one of them out.
pub proof fn lemma_leaves_one(s: Seq<int>, end: int)
    requires
        s.len() < end,
    ensures
        exists|j: int| 0 <= j < end && !s.contains(j),
{
    if forall|j: int| 0 <= j < end ==> s.contains(j) {
        let all = vstd::set_lib::set_int_range(0, end);
        vstd::set_lib::lemma_int_range(0, end);
        vstd::seq_lib::seq_to_set_is_finite(s);
        assert(all.subset_of(s.to_set()));
        vstd::set_lib::lemma_len_subset(all, s.to_set());
        s.lemma_cardinality_of_set();
    }
}

/// Partners that stand elsewhere now.
pub open spec fn moved(partners: Seq<Option<int>>, to: Seq<int>) -> Seq<Option<int>> {
    Seq::new(
        partners.len(),
        |i: int|
            match partners[i] {
                Some(j) => Some(to[j]),
                None => None,
            },
    )
}

/// Where each item fits one place at most, the order of the places makes no difference: each
/// item takes the place that it took, wherever that stands now.
pub proof fn lemma_claims_moved(
    start: Seq<Option<int>>,
    fits: spec_fn(int, int) -> bool,
    fits_moved: spec_fn(int, int) -> bool,
    to: Seq<int>,
    count: int,
)
    requires
        within(start, to.len() as int),
        apart(start),
        0 <= count <= start.len(),
        to.no_duplicates(),
        forall|j: int| 0 <= j < to.len() ==> 0 <= #[trigger] to[j] < to.len(),
        forall|i: int, j: int|
            0 <= i < start.len() && 0 <= j < to.len() ==> #[trigger] fits(i, j) == fits_moved(
                i,
                to[j],
            ),
        forall|i: int, j: int, k: int|
            0 <= i < start.len() && 0 <= j < to.len() && 0 <= k < to.len() && #[trigger] fits(i, j)
                && #[trigger] fits(i, k) ==> j == k,
    ensures
        claims(moved(start, to), fits_moved, to.len() as int, count) == moved(
            claims(start, fits, to.len() as int, count),
            to,
        ),
    decreases count,
{
    let end = to.len() as int;
    if count > 0 {
        let n = count - 1;
        let p = claims(start, fits, end, n);
        let q = claims(moved(start, to), fits_moved, end, n);
        lemma_claims_moved(start, fits, fits_moved, to, n);
        lemma_claims(start, fits, end, n);
        lemma_first_free(p, fits, n, 0, end);
        lemma_first_free(q, fits_moved, n, 0, end);
        assert forall|j: int| 0 <= j < end implies (#[trigger] free(p, j) <==> free(q, to[j])) by {
            if !free(p, j) {
                let k = choose|k: int| 0 <= k < p.len() && p[k] == Some(j);
                assert(q[k] == Some(to[j]));
            }
            if !free(q, to[j]) {
                let k = choose|k: int| 0 <= k < q.len() && q[k] == Some(to[j]);
                assert(p[k] is Some);
                assert(p[k] == Some(j));
            }
        }
        let here = first_free(p, fits, n, 0, end);
        let there = first_free(q, fits_moved, n, 0, end);
        if there is Some {
            lemma_injective_reaches_all(to, there->0);
            let k = choose|k: int| 0 <= k < to.len() && to[k] == there->0;
            assert(fits(n, k));
            assert(free(p, k));
        }
        if here is Some {
            assert(fits(n, here->0));
            assert(free(q, to[here->0]));
        }
        assert(claims(moved(start, to), fits_moved, end, count) == moved(
            claims(start, fits, end, count),
            to,
        ));
    }
}

/// Whoever all have partners claim nothing more.
pub proof fn lemma_claims_nothing(
    start: Seq<Option<int>>,
    fits: spec_fn(int, int) -> bool,
    end: int,
    count: int,
)
    requires
        0 <= count <= start.len(),
        forall|i: int| 0 <= i < start.len() ==> (#[trigger] start[i]) is Some,
    ensures
        claims(start, fits, end, count) == start,
    decreases count,
{
    if count > 0 {
        lemma_claims_nothing(start, fits, end, count - 1);
    }
}

/// Whether a place is free.
pub fn is_free(partners: &Vec<Option<usize>>, j: usize) -> (r: bool)
    ensures
        r == free(places(partners@), j as int),
{
    let ghost all = places(partners@);
    let mut i: usize = 0;
    while i < partners.len()
        invariant
            i <= partners@.len(),
            all == places(partners@),
            forall|k: int| 0 <= k < i ==> #[trigger] all[k] != Some(j as int),
        decreases partners@.len() - i,
    {
        assert(all[i as int] == place(partners@[i as int]));
        if let Some(taken) = partners[i] {
            if taken == j {
                return false;
            }
        }
        i += 1;
    }
    true
}

/// The place of a partner.
pub open spec fn place(partner: Option<usize>) -> Option<int> {
    match partner {
        Some(j) => Some(j as int),
        None => None,
    }
}

/// The places of partners.
pub open spec fn places(partners: Seq<Option<usize>>) -> Seq<Option<int>> {
    Seq::new(partners.len(), |i: int| place(partners[i]))
}

} // verus!
