//! Items that are told apart by name: looking one up, and walking them in the order of
//! their names.

use vstd::prelude::*;

use crate::text::characters;

verus! {

/// An item with a name.
pub trait Named: Sized {
    /// The item's name as text.
    spec fn name_text(&self) -> Seq<char>;

    /// The item's name.
    fn name(&self) -> (r: &String)
        ensures
            r@ == self.name_text(),
    ;
}

/// The names of the items, in the order of the items.
pub open spec fn names_of<T: Named>(items: Seq<T>) -> Seq<Seq<char>> {
    items.map_values(|t: T| t.name_text())
}

/// The last item of that name.
pub open spec fn last_named<T: Named>(items: Seq<T>, name: Seq<char>) -> Option<T>
    decreases items.len(),
{
    if items.len() == 0 {
        None
    } else if items.last().name_text() == name {
        Some(items.last())
    } else {
        last_named(items.drop_last(), name)
    }
}

/// The order of texts: by the code points of the first characters that differ, a text
/// before the longer ones that it begins.
pub open spec fn precedes(a: Seq<char>, b: Seq<char>) -> bool
    decreases a.len(),
{
    if b.len() == 0 {
        false
    } else if a.len() == 0 {
        true
    } else if a[0] != b[0] {
        (a[0] as int) < (b[0] as int)
    } else {
        precedes(a.drop_first(), b.drop_first())
    }
}

/// A name put into its place among ordered names, unless it is there already.
pub open spec fn insert_name(order: Seq<Seq<char>>, name: Seq<char>) -> Seq<Seq<char>>
    decreases order.len(),
{
    if order.len() == 0 {
        seq![name]
    } else if order[0] == name {
        order
    } else if precedes(name, order[0]) {
        seq![name] + order
    } else {
        seq![order[0]] + insert_name(order.drop_first(), name)
    }
}

/// The names in their order, each once.
pub open spec fn ordered(names: Seq<Seq<char>>) -> Seq<Seq<char>>
    decreases names.len(),
{
    if names.len() == 0 {
        seq![]
    } else {
        insert_name(ordered(names.drop_last()), names.last())
    }
}

/// Each name comes before all that follow it, so none occurs twice.
pub open spec fn increasing(order: Seq<Seq<char>>) -> bool {
    forall|i: int, j: int|
        0 <= i < j < order.len() ==> precedes(#[trigger] order[i], #[trigger] order[j])
}

/// No text comes before itself.
pub proof fn law_precedes_irreflexive(a: Seq<char>)
    ensures
        !precedes(a, a),
    decreases a.len(),
{
    if a.len() > 0 {
        law_precedes_irreflexive(a.drop_first());
    }
}

/// What comes before a text comes before all that follow it.
pub proof fn law_precedes_transitive(a: Seq<char>, b: Seq<char>, c: Seq<char>)
    requires
        precedes(a, b),
        precedes(b, c),
    ensures
        precedes(a, c),
    decreases a.len(),
{
    if a.len() > 0 && a[0] == b[0] && b[0] == c[0] {
        law_precedes_transitive(a.drop_first(), b.drop_first(), c.drop_first());
    }
}

/// Of two different texts one comes before the other.
pub proof fn law_precedes_total(a: Seq<char>, b: Seq<char>)
    ensures
        a == b || precedes(a, b) || precedes(b, a),
    decreases a.len(),
{
    if a.len() > 0 && b.len() > 0 && a[0] == b[0] {
        law_precedes_total(a.drop_first(), b.drop_first());
        if a.drop_first() == b.drop_first() {
            assert(a == seq![a[0]] + a.drop_first());
            assert(b == seq![b[0]] + b.drop_first());
        }
    } else if a.len() == 0 && b.len() == 0 {
        assert(a == b);
    }
}

/// Whether `a` comes before `b`.
fn comes_before(a: &str, b: &str) -> (r: bool)
    ensures
        r == precedes(a@, b@),
{
    let x = characters(a);
    let y = characters(b);
    let mut i: usize = 0;
    assert(x@.skip(0) == a@ && y@.skip(0) == b@);
    while i < x.len() && i < y.len() && x[i] == y[i]
        invariant
            i <= x@.len(),
            i <= y@.len(),
            x@ == a@,
            y@ == b@,
            precedes(a@, b@) == precedes(x@.skip(i as int), y@.skip(i as int)),
        decreases x@.len() - i,
    {
        assert(x@.skip(i as int).drop_first() == x@.skip(i + 1));
        assert(y@.skip(i as int).drop_first() == y@.skip(i + 1));
        i += 1;
    }
    if i == y.len() {
        false
    } else if i == x.len() {
        true
    } else {
        x[i] < y[i]
    }
}

/// The place of a name among ordered ones: after all that precede it.
proof fn lemma_insert_place(order: Seq<Seq<char>>, name: Seq<char>, k: int)
    requires
        0 <= k <= order.len(),
        forall|j: int| 0 <= j < k ==> precedes(#[trigger] order[j], name),
        k < order.len() ==> !precedes(order[k], name),
    ensures
        insert_name(order, name) == if k < order.len() && order[k] == name {
            order
        } else {
            order.insert(k, name)
        },
    decreases order.len(),
{
    if order.len() == 0 {
        assert(order.insert(0, name) == seq![name]);
    } else if k == 0 {
        law_precedes_total(order[0], name);
        assert(order.insert(0, name) == seq![name] + order);
    } else {
        assert(precedes(order[0], name));
        law_precedes_irreflexive(name);
        if precedes(name, order[0]) {
            law_precedes_transitive(name, order[0], name);
        }
        let rest = order.drop_first();
        assert forall|j: int| 0 <= j < k - 1 implies precedes(#[trigger] rest[j], name) by {
            assert(rest[j] == order[j + 1]);
        }
        lemma_insert_place(rest, name, k - 1);
        assert(seq![order[0]] + rest == order);
        assert(seq![order[0]] + rest.insert(k - 1, name) == order.insert(k, name));
    }
}

/// Putting a name into its place keeps the order and adds that name only.
proof fn lemma_insert_name(order: Seq<Seq<char>>, name: Seq<char>)
    requires
        increasing(order),
    ensures
        increasing(insert_name(order, name)),
        forall|n: Seq<char>| #[trigger]
            insert_name(order, name).contains(n) <==> (n == name || order.contains(n)),
    decreases order.len(),
{
    let r = insert_name(order, name);
    if order.len() == 0 {
        assert(r[0] == name);
    } else if order[0] == name {
        assert(order.contains(name));
    } else if precedes(name, order[0]) {
        assert forall|j: int| 0 < j < r.len() implies precedes(name, #[trigger] r[j]) by {
            assert(r[j] == order[j - 1]);
            if j > 1 {
                law_precedes_transitive(name, order[0], order[j - 1]);
            }
        }
        assert forall|i: int, j: int| 0 <= i < j < r.len() implies precedes(
            #[trigger] r[i],
            #[trigger] r[j],
        ) by {
            if i > 0 {
                assert(r[i] == order[i - 1] && r[j] == order[j - 1]);
            }
        }
        assert forall|n: Seq<char>|
            #[trigger] r.contains(n) <==> (n == name || order.contains(n)) by {
            assert(r[0] == name);
            if order.contains(n) {
                let k = choose|k: int| 0 <= k < order.len() && order[k] == n;
                assert(r[k + 1] == n);
            }
        }
    } else {
        let rest = order.drop_first();
        assert forall|i: int, j: int| 0 <= i < j < rest.len() implies precedes(
            #[trigger] rest[i],
            #[trigger] rest[j],
        ) by {
            assert(rest[i] == order[i + 1] && rest[j] == order[j + 1]);
        }
        lemma_insert_name(rest, name);
        let tail = insert_name(rest, name);
        law_precedes_total(order[0], name);
        assert forall|j: int| 0 <= j < tail.len() implies precedes(
            order[0],
            #[trigger] tail[j],
        ) by {
            assert(tail.contains(tail[j]));
            if tail[j] != name {
                assert(rest.contains(tail[j]));
                let k = choose|k: int| 0 <= k < rest.len() && rest[k] == tail[j];
                assert(rest[k] == order[k + 1]);
            }
        }
        assert forall|i: int, j: int| 0 <= i < j < r.len() implies precedes(
            #[trigger] r[i],
            #[trigger] r[j],
        ) by {
            assert(r[j] == tail[j - 1]);
            if i > 0 {
                assert(r[i] == tail[i - 1]);
            }
        }
        assert forall|n: Seq<char>|
            #[trigger] r.contains(n) <==> (n == name || order.contains(n)) by {
            assert(r[0] == order[0]);
            if r.contains(n) && n != order[0] {
                let k = choose|k: int| 0 <= k < r.len() && r[k] == n;
                assert(tail[k - 1] == n);
                assert(tail.contains(n));
            }
            if tail.contains(n) {
                let k = choose|k: int| 0 <= k < tail.len() && tail[k] == n;
                assert(r[k + 1] == n);
            }
            if rest.contains(n) {
                let k = choose|k: int| 0 <= k < rest.len() && rest[k] == n;
                assert(order[k + 1] == n);
            }
            if order.contains(n) && n != order[0] {
                let k = choose|k: int| 0 <= k < order.len() && order[k] == n;
                assert(rest[k - 1] == n);
            }
        }
    }
}

/// The ordered names are increasing and are exactly the names that there are.
pub proof fn law_ordered_lists_the_names(names: Seq<Seq<char>>)
    ensures
        increasing(ordered(names)),
        forall|n: Seq<char>| #[trigger] ordered(names).contains(n) <==> names.contains(n),
    decreases names.len(),
{
    if names.len() > 0 {
        let rest = names.drop_last();
        law_ordered_lists_the_names(rest);
        lemma_insert_name(ordered(rest), names.last());
        assert(ordered(names) == insert_name(ordered(rest), names.last()));
        assert forall|n: Seq<char>|
            #[trigger] ordered(names).contains(n) <==> names.contains(n) by {
            assert(names.last() == names[names.len() - 1]);
            assert(ordered(names).contains(n) <==> (n == names.last() || ordered(rest).contains(
                n,
            )));
            assert(ordered(rest).contains(n) <==> rest.contains(n));
            if rest.contains(n) {
                let k = choose|k: int| 0 <= k < rest.len() && rest[k] == n;
                assert(names[k] == n);
            }
            if names.contains(n) && n != names.last() {
                let k = choose|k: int| 0 <= k < names.len() && names[k] == n;
                assert(rest[k] == n);
            }
        }
    }
}

/// An increasing listing of names is determined by which names it lists.
pub proof fn law_increasing_is_unique(a: Seq<Seq<char>>, b: Seq<Seq<char>>)
    requires
        increasing(a),
        increasing(b),
        forall|n: Seq<char>| a.contains(n) <==> #[trigger] b.contains(n),
    ensures
        a == b,
    decreases a.len(),
{
    if a.len() == 0 {
        if b.len() > 0 {
            assert(b.contains(b[0]));
        }
        assert(a == b);
    } else {
        assert(a.contains(a[0]));
        assert(b.contains(a[0]));
        assert(b.contains(b[0]));
        assert(a.contains(b[0]));
        let i = choose|i: int| 0 <= i < a.len() && a[i] == b[0];
        let j = choose|j: int| 0 <= j < b.len() && b[j] == a[0];
        if a[0] != b[0] {
            assert(precedes(a[0], a[i]));
            assert(precedes(b[0], b[j]));
            law_precedes_transitive(a[0], b[0], a[0]);
            law_precedes_irreflexive(a[0]);
        }
        let x = a.drop_first();
        let y = b.drop_first();
        assert forall|n: Seq<char>| x.contains(n) <==> #[trigger] y.contains(n) by {
            law_precedes_irreflexive(n);
            if x.contains(n) {
                let k = choose|k: int| 0 <= k < x.len() && x[k] == n;
                assert(a[k + 1] == n);
                assert(precedes(a[0], a[k + 1]));
                assert(a.contains(n));
                assert(b.contains(n));
                let m = choose|m: int| 0 <= m < b.len() && b[m] == n;
                assert(y[m - 1] == n);
            }
            if y.contains(n) {
                let k = choose|k: int| 0 <= k < y.len() && y[k] == n;
                assert(b[k + 1] == n);
                assert(precedes(b[0], b[k + 1]));
                assert(b.contains(n));
                assert(a.contains(n));
                let m = choose|m: int| 0 <= m < a.len() && a[m] == n;
                assert(x[m - 1] == n);
            }
        }
        assert forall|i: int, j: int| 0 <= i < j < x.len() implies precedes(
            #[trigger] x[i],
            #[trigger] x[j],
        ) by {
            assert(x[i] == a[i + 1] && x[j] == a[j + 1]);
        }
        assert forall|i: int, j: int| 0 <= i < j < y.len() implies precedes(
            #[trigger] y[i],
            #[trigger] y[j],
        ) by {
            assert(y[i] == b[i + 1] && y[j] == b[j + 1]);
        }
        law_increasing_is_unique(x, y);
        assert(a == seq![a[0]] + x);
        assert(b == seq![b[0]] + y);
    }
}

/// There is a last item of a name exactly where some item has that name.
pub proof fn lemma_last_named<T: Named>(items: Seq<T>, name: Seq<char>)
    ensures
        last_named(items, name) is Some <==> names_of(items).contains(name),
        match last_named(items, name) {
            Some(t) => t.name_text() == name && exists|i: int|
                0 <= i < items.len() && items[i] == t && forall|j: int|
                    i < j < items.len() ==> (#[trigger] items[j]).name_text() != name,
            None => forall|i: int|
                0 <= i < items.len() ==> (#[trigger] items[i]).name_text() != name,
        },
    decreases items.len(),
{
    if items.len() > 0 {
        let rest = items.drop_last();
        assert(items.last() == items[items.len() - 1]);
        if items.last().name_text() != name {
            lemma_last_named(rest, name);
            if let Some(t) = last_named(rest, name) {
                let i = choose|i: int|
                    0 <= i < rest.len() && rest[i] == t && forall|j: int|
                        i < j < rest.len() ==> (#[trigger] rest[j]).name_text() != name;
                assert forall|j: int| i < j < items.len() implies (#[trigger] items[j]).name_text()
                    != name by {
                    if j < rest.len() {
                        assert(rest[j] == items[j]);
                    }
                }
                assert(items[i] == t);
                assert(names_of(items)[i] == name);
            } else {
                assert forall|j: int| 0 <= j < items.len() implies (#[trigger] items[j]).name_text()
                    != name by {
                    if j < rest.len() {
                        assert(rest[j] == items[j]);
                    }
                }
                if names_of(items).contains(name) {
                    let j = choose|j: int| 0 <= j < items.len() && names_of(items)[j] == name;
                    assert(items[j].name_text() == name);
                }
            }
        } else {
            assert(names_of(items)[items.len() - 1] == name);
        }
    }
}

/// The last item of that name.
pub fn find_last<'a, T: Named>(items: &'a Vec<T>, name: &String) -> (r: Option<&'a T>)
    ensures
        r == match last_named(items@, name@) {
            Some(t) => Some(&t),
            None => None,
        },
{
    let mut n: usize = items.len();
    assert(items@.take(n as int) == items@);
    while n > 0
        invariant
            n <= items@.len(),
            last_named(items@, name@) == last_named(items@.take(n as int), name@),
        decreases n,
    {
        assert(items@.take(n as int).drop_last() == items@.take(n - 1));
        if *items[n - 1].name() == *name {
            return Some(&items[n - 1]);
        }
        n -= 1;
    }
    None
}

/// The texts of a list of names.
pub open spec fn texts(names: Seq<&String>) -> Seq<Seq<char>> {
    names.map_values(|s: &String| s@)
}

/// Texts in their order, each once.
pub fn ordered_texts<'a>(names: &Vec<&'a String>) -> (r: Vec<&'a String>)
    ensures
        texts(r@) == ordered(texts(names@)),
{
    let mut r: Vec<&'a String> = Vec::new();
    let mut i: usize = 0;
    assert(texts(r@) == Seq::<Seq<char>>::empty());
    while i < names.len()
        invariant
            i <= names@.len(),
            texts(r@) == ordered(texts(names@).take(i as int)),
        decreases names@.len() - i,
    {
        let name = names[i];
        let ghost before = texts(r@);
        proof {
            let all = texts(names@);
            assert(all.take(i + 1).drop_last() == all.take(i as int));
            assert(all.take(i + 1).last() == name@);
        }
        let mut k: usize = 0;
        while k < r.len() && comes_before(r[k].as_str(), name.as_str())
            invariant
                k <= r@.len(),
                before == texts(r@),
                forall|j: int| 0 <= j < k ==> precedes(#[trigger] before[j], name@),
            decreases r@.len() - k,
        {
            k += 1;
        }
        proof {
            lemma_insert_place(before, name@, k as int);
        }
        if !(k < r.len() && *r[k] == *name) {
            r.insert(k, name);
            assert(texts(r@) == before.insert(k as int, name@));
        }
        i += 1;
    }
    assert(texts(names@).take(i as int) == texts(names@));
    r
}

/// The names of the items in their order, each once.
pub fn ordered_names<'a, T: Named>(items: &'a Vec<T>) -> (r: Vec<&'a String>)
    ensures
        texts(r@) == ordered(names_of(items@)),
{
    let mut all: Vec<&'a String> = Vec::new();
    let mut i: usize = 0;
    while i < items.len()
        invariant
            i <= items@.len(),
            texts(all@) == names_of(items@).take(i as int),
        decreases items@.len() - i,
    {
        let name = items[i].name();
        let ghost so_far = texts(all@);
        all.push(name);
        assert(texts(all@) == so_far.push(name@));
        assert(names_of(items@).take(i + 1) == so_far.push(name@));
        i += 1;
    }
    assert(names_of(items@).take(i as int) == names_of(items@));
    ordered_texts(&all)
}

/// The names that occur in either of two lists: first those of `before` in their order, then
/// in theirs those that only `after` has.
pub open spec fn names_of_both<T: Named>(before: Seq<T>, after: Seq<T>) -> Seq<Seq<char>> {
    ordered(names_of(before)) + ordered(names_of(after).filter(lacked_by(before)))
}

/// Whether no item has that name.
pub open spec fn lacked_by<T: Named>(items: Seq<T>) -> spec_fn(Seq<char>) -> bool {
    |n: Seq<char>| last_named(items, n) is None
}

/// The names of both lists are those that one of them has, each once.
pub proof fn law_names_of_both<T: Named>(before: Seq<T>, after: Seq<T>)
    ensures
        names_of_both(before, after).no_duplicates(),
        forall|n: Seq<char>| #[trigger]
            names_of_both(before, after).contains(n) <==> (names_of(before).contains(n)
                || names_of(after).contains(n)),
{
    let new = lacked_by(before);
    let there = ordered(names_of(before));
    let added = ordered(names_of(after).filter(new));
    let both = there + added;
    law_ordered_lists_the_names(names_of(before));
    law_ordered_lists_the_names(names_of(after).filter(new));
    lemma_increasing_is_distinct(there);
    lemma_increasing_is_distinct(added);
    assert forall|n: Seq<char>| #[trigger] added.contains(n) <==> (names_of(after).contains(n)
        && !there.contains(n)) by {
        lemma_last_named(before, n);
        assert(added.contains(n) <==> names_of(after).filter(new).contains(n));
        assert(there.contains(n) <==> names_of(before).contains(n));
        if names_of(after).filter(new).contains(n) {
            names_of(after).lemma_filter_contains_rev(new, n);
            let k = choose|k: int|
                0 <= k < names_of(after).filter(new).len() && names_of(after).filter(new)[k] == n;
            names_of(after).lemma_filter_pred(new, k);
        }
        if names_of(after).contains(n) && !there.contains(n) {
            let k = choose|k: int| 0 <= k < names_of(after).len() && names_of(after)[k] == n;
            assert(new(n));
            names_of(after).lemma_filter_contains(new, k);
        }
    }
    assert forall|n: Seq<char>| #[trigger] both.contains(n) <==> (there.contains(n)
        || added.contains(n)) by {
        if there.contains(n) {
            let k = choose|k: int| 0 <= k < there.len() && there[k] == n;
            assert(both[k] == n);
        }
        if added.contains(n) {
            let k = choose|k: int| 0 <= k < added.len() && added[k] == n;
            assert(both[there.len() + k] == n);
        }
    }
    assert forall|n: Seq<char>| #[trigger] both.contains(n) <==> (names_of(before).contains(n)
        || names_of(after).contains(n)) by {
        assert(there.contains(n) <==> names_of(before).contains(n));
        assert(added.contains(n) <==> (names_of(after).contains(n) && !there.contains(n)));
    }
    assert forall|i: int, j: int| 0 <= i < there.len() && 0 <= j < added.len() implies there[i]
        != added[j] by {
        assert(there.contains(there[i]));
        assert(added.contains(added[j]));
    }
}

/// No name occurs twice in an increasing listing.
pub proof fn lemma_increasing_is_distinct(names: Seq<Seq<char>>)
    requires
        increasing(names),
    ensures
        names.no_duplicates(),
{
    assert forall|i: int, j: int| 0 <= i < names.len() && 0 <= j < names.len() && i != j implies
        names[i] != names[j] by {
        law_precedes_irreflexive(names[i]);
        if i < j {
            assert(precedes(names[i], names[j]));
        } else {
            assert(precedes(names[j], names[i]));
        }
    }
}

/// Lists the names that occur in either of two lists.
pub fn all_names<'a, T: Named>(before: &'a Vec<T>, after: &'a Vec<T>) -> (r: Vec<&'a String>)
    ensures
        texts(r@) == names_of_both(before@, after@),
{
    let ghost new = lacked_by(before@);
    let ghost names = names_of(after@);
    let mut only: Vec<&'a String> = Vec::new();
    let mut i: usize = 0;
    assert(names.take(0).filter(new) == Seq::<Seq<char>>::empty()) by {
        reveal(Seq::filter);
    }
    while i < after.len()
        invariant
            i <= after@.len(),
            names == names_of(after@),
            new == lacked_by(before@),
            texts(only@) == names.take(i as int).filter(new),
        decreases after@.len() - i,
    {
        let name = after[i].name();
        proof {
            assert(names.take(i + 1) == names.take(i as int).push(name@));
            names.take(i as int).lemma_filter_push(name@, new);
        }
        if find_last(before, name).is_none() {
            let ghost so_far = texts(only@);
            only.push(name);
            assert(texts(only@) == so_far.push(name@));
        }
        i += 1;
    }
    assert(names.take(i as int) == names);
    let mut r = ordered_names(before);
    let ghost there = texts(r@);
    let mut added = ordered_texts(&only);
    let ghost rest = texts(added@);
    r.append(&mut added);
    assert(texts(r@) == there + rest);
    r
}

/// One text comes before another exactly where they agree up to some place at which the first
/// ends and the second goes on, or has a character of a lower code point.
pub proof fn law_order_of_texts(a: Seq<char>, b: Seq<char>)
    ensures
        precedes(a, b) <==> exists|k: int|
            0 <= k <= a.len() && k < b.len() && #[trigger] a.take(k) == b.take(k) && (k == a.len()
                || (a[k] as int) < (b[k] as int)),
    decreases a.len(),
{
    if precedes(a, b) {
        if a.len() == 0 || a[0] != b[0] {
            assert(a.take(0) == b.take(0));
        } else {
            let x = a.drop_first();
            let y = b.drop_first();
            law_order_of_texts(x, y);
            let k = choose|k: int|
                0 <= k <= x.len() && k < y.len() && #[trigger] x.take(k) == y.take(k) && (k
                    == x.len() || (x[k] as int) < (y[k] as int));
            assert(a.take(k + 1) == seq![a[0]] + x.take(k));
            assert(b.take(k + 1) == seq![b[0]] + y.take(k));
        }
    }
    if exists|k: int|
        0 <= k <= a.len() && k < b.len() && #[trigger] a.take(k) == b.take(k) && (k == a.len()
            || (a[k] as int) < (b[k] as int)) {
        let k = choose|k: int|
            0 <= k <= a.len() && k < b.len() && #[trigger] a.take(k) == b.take(k) && (k == a.len()
                || (a[k] as int) < (b[k] as int));
        if k > 0 {
            assert(a.take(k)[0] == b.take(k)[0]);
            let x = a.drop_first();
            let y = b.drop_first();
            assert(x.take(k - 1) == a.take(k).drop_first());
            assert(y.take(k - 1) == b.take(k).drop_first());
            law_order_of_texts(x, y);
        }
    }
}

} // verus!
