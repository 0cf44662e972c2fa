//! YAML values and the equality by which probe bodies and `valueFrom` sources are compared.

use vstd::prelude::*;

use crate::pairing;

verus! {

/// A YAML number. Integers are kept by sign; a floating point number is kept as its
/// IEEE 754 binary64 bit pattern.
#[derive(Debug, Clone, Copy)]
pub enum Number {
    /// A non-negative integer.
    PosInt(u64),
    /// A negative integer.
    NegInt(i64),
    /// The bit pattern of a floating point number.
    Float(u64),
}

/// One key and its value in a mapping.
#[derive(Debug)]
pub struct Entry {
    pub key: Value,
    pub value: Value,
}

/// A YAML value.
#[derive(Debug)]
pub enum Value {
    Null,
    Bool(bool),
    Number(Number),
    String(String),
    Sequence(Vec<Value>),
    /// The entries in the order in which they were written.
    Mapping(Vec<Entry>),
    Tagged { tag: String, value: Box<Value> },
}

/// The bit pattern without its sign bit.
pub open spec fn magnitude(bits: u64) -> int {
    bits as int % 0x8000_0000_0000_0000
}

/// Whether the bit pattern is one of a NaN: above that of infinity.
pub open spec fn is_nan(bits: u64) -> bool {
    magnitude(bits) > 0x7ff0_0000_0000_0000
}

/// Equality of floating point numbers by their bit patterns. The two zeros are equal, and
/// all NaNs are one value, as YAML has only one.
pub open spec fn same_float(a: u64, b: u64) -> bool {
    ||| a == b
    ||| magnitude(a) == 0 && magnitude(b) == 0
    ||| is_nan(a) && is_nan(b)
}

/// Equality of numbers. An integer never equals a floating point number.
pub open spec fn same_number(a: Number, b: Number) -> bool {
    match (a, b) {
        (Number::PosInt(x), Number::PosInt(y)) => x == y,
        (Number::NegInt(x), Number::NegInt(y)) => x == y,
        (Number::Float(x), Number::Float(y)) => same_float(x, y),
        _ => false,
    }
}

/// A tag without its leading `!`; the bare `!` stands for itself.
pub open spec fn tag_name(tag: Seq<char>) -> Seq<char> {
    if tag.len() > 1 && tag[0] == '!' {
        tag.skip(1)
    } else {
        tag
    }
}

/// Equality of YAML values. Sequences agree position by position; mappings agree when
/// they have as many entries and each entry of one has its equal in the other, in
/// whatever order.
pub open spec fn same_value(a: Value, b: Value) -> bool
    decreases a, 0int,
{
    match (a, b) {
        (Value::Null, Value::Null) => true,
        (Value::Bool(x), Value::Bool(y)) => x == y,
        (Value::Number(x), Value::Number(y)) => same_number(x, y),
        (Value::String(x), Value::String(y)) => x@ == y@,
        (Value::Sequence(x), Value::Sequence(y)) => {
            &&& x@.len() == y@.len()
            &&& forall|i: int| 0 <= i < x@.len() ==> same_value(#[trigger] x@[i], y@[i])
        },
        (Value::Mapping(x), Value::Mapping(y)) => {
            &&& x@.len() == y@.len()
            &&& forall|i: int| 0 <= i < x@.len() ==> holds_entry(y@, #[trigger] x@[i])
        },
        (Value::Tagged { tag: s, value: x }, Value::Tagged { tag: t, value: y }) => {
            &&& tag_name(s@) == tag_name(t@)
            &&& same_value(*x, *y)
        },
        _ => false,
    }
}

/// Equality of two mapping entries: of their keys and of their values.
pub open spec fn same_entry(a: Entry, b: Entry) -> bool
    decreases a, 0int,
{
    same_value(a.key, b.key) && same_value(a.value, b.value)
}

/// Whether a mapping holds an entry equal to the given one.
pub open spec fn holds_entry(entries: Seq<Entry>, entry: Entry) -> bool
    decreases entry, 1int,
{
    exists|j: int| 0 <= j < entries.len() && same_entry(entry, #[trigger] entries[j])
}

/// Compares two floating point numbers by their bit patterns.
fn float_equal(a: u64, b: u64) -> (r: bool)
    ensures
        r == same_float(a, b),
{
    let x: u64 = a % 0x8000_0000_0000_0000;
    let y: u64 = b % 0x8000_0000_0000_0000;
    a == b || (x == 0 && y == 0) || (x > 0x7ff0_0000_0000_0000 && y > 0x7ff0_0000_0000_0000)
}

/// Compares two numbers.
fn number_equal(a: &Number, b: &Number) -> (r: bool)
    ensures
        r == same_number(*a, *b),
{
    match (a, b) {
        (Number::PosInt(x), Number::PosInt(y)) => *x == *y,
        (Number::NegInt(x), Number::NegInt(y)) => *x == *y,
        (Number::Float(x), Number::Float(y)) => float_equal(*x, *y),
        _ => false,
    }
}

/// Compares two tags, whether or not they are written with their `!`.
fn tag_equal(a: &String, b: &String) -> (r: bool)
    ensures
        r == (tag_name(a@) == tag_name(b@)),
{
    bare_tag(a) == bare_tag(b)
}

/// The tag without its `!`.
fn bare_tag(tag: &String) -> (r: String)
    ensures
        r@ == tag_name(tag@),
{
    let text: &str = tag.as_str();
    let len: usize = text.unicode_len();
    if len > 1 && text.get_char(0) == '!' {
        text.substring_char(1, len).to_owned()
    } else {
        text.to_owned()
    }
}

/// Compares two YAML values.
pub fn value_equal(a: &Value, b: &Value) -> (r: bool)
    ensures
        r == same_value(*a, *b),
    decreases a,
{
    match (a, b) {
        (Value::Null, Value::Null) => true,
        (Value::Bool(x), Value::Bool(y)) => *x == *y,
        (Value::Number(x), Value::Number(y)) => number_equal(x, y),
        (Value::String(x), Value::String(y)) => *x == *y,
        (Value::Sequence(x), Value::Sequence(y)) => sequence_equal(x, y),
        (Value::Mapping(x), Value::Mapping(y)) => mapping_equal(x, y),
        (Value::Tagged { tag: s, value: x }, Value::Tagged { tag: t, value: y }) => {
            tag_equal(s, t) && value_equal(x, y)
        },
        _ => false,
    }
}

/// Compares two sequences position by position.
fn sequence_equal(x: &Vec<Value>, y: &Vec<Value>) -> (r: bool)
    ensures
        r == (x@.len() == y@.len() && forall|i: int|
            0 <= i < x@.len() ==> same_value(#[trigger] x@[i], y@[i])),
    decreases x,
{
    if x.len() != y.len() {
        return false;
    }
    let mut i: usize = 0;
    while i < x.len()
        invariant
            i <= x@.len(),
            x@.len() == y@.len(),
            forall|k: int| 0 <= k < i ==> same_value(#[trigger] x@[k], y@[k]),
        decreases x@.len() - i,
    {
        if !value_equal(&x[i], &y[i]) {
            return false;
        }
        i += 1;
    }
    true
}

/// Whether the mapping holds an entry equal to this one.
fn has_entry(entries: &Vec<Entry>, entry: &Entry) -> (r: bool)
    ensures
        r == holds_entry(entries@, *entry),
    decreases entry,
{
    let mut j: usize = 0;
    while j < entries.len()
        invariant
            j <= entries@.len(),
            forall|k: int| 0 <= k < j ==> !same_entry(*entry, #[trigger] entries@[k]),
        decreases entries@.len() - j,
    {
        if value_equal(&entry.key, &entries[j].key) && value_equal(
            &entry.value,
            &entries[j].value,
        ) {
            assert(same_entry(*entry, entries@[j as int]));
            return true;
        }
        j += 1;
    }
    false
}

/// Compares two mappings, whatever the order of their entries.
fn mapping_equal(x: &Vec<Entry>, y: &Vec<Entry>) -> (r: bool)
    ensures
        r == (x@.len() == y@.len() && forall|i: int|
            0 <= i < x@.len() ==> holds_entry(y@, #[trigger] x@[i])),
    decreases x,
{
    if x.len() != y.len() {
        return false;
    }
    let mut i: usize = 0;
    while i < x.len()
        invariant
            i <= x@.len(),
            x@.len() == y@.len(),
            forall|k: int| 0 <= k < i ==> holds_entry(y@, #[trigger] x@[k]),
        decreases x@.len() - i,
    {
        if !has_entry(y, &x[i]) {
            return false;
        }
        i += 1;
    }
    true
}

impl PartialEq for Value {
    fn eq(&self, other: &Self) -> (r: bool) {
        value_equal(self, other)
    }
}

impl vstd::std_specs::cmp::PartialEqSpecImpl for Value {
    open spec fn obeys_eq_spec() -> bool {
        true
    }

    open spec fn eq_spec(&self, other: &Self) -> bool {
        same_value(*self, *other)
    }
}

impl Eq for Value {

}

/// Whether two values are written the same, down to the order of their entries and the bits
/// of their floating point numbers.
pub open spec fn identical(a: Value, b: Value) -> bool
    decreases a,
{
    match (a, b) {
        (Value::Null, Value::Null) => true,
        (Value::Bool(x), Value::Bool(y)) => x == y,
        (Value::Number(x), Value::Number(y)) => x == y,
        (Value::String(x), Value::String(y)) => x@ == y@,
        (Value::Sequence(x), Value::Sequence(y)) => {
            &&& x@.len() == y@.len()
            &&& forall|i: int| 0 <= i < x@.len() ==> identical(#[trigger] x@[i], y@[i])
        },
        (Value::Mapping(x), Value::Mapping(y)) => {
            &&& x@.len() == y@.len()
            &&& forall|i: int|
                0 <= i < x@.len() ==> identical((#[trigger] x@[i]).key, y@[i].key) && identical(
                    x@[i].value,
                    y@[i].value,
                )
        },
        (Value::Tagged { tag: s, value: x }, Value::Tagged { tag: t, value: y }) => {
            &&& s@ == t@
            &&& identical(*x, *y)
        },
        _ => false,
    }
}

/// Values that are written the same are equal.
pub proof fn law_identical_values_are_equal(a: Value, b: Value)
    requires
        identical(a, b),
    ensures
        same_value(a, b),
    decreases a,
{
    match (a, b) {
        (Value::Sequence(x), Value::Sequence(y)) => {
            assert forall|i: int| 0 <= i < x@.len() implies same_value(#[trigger] x@[i], y@[i]) by {
                law_identical_values_are_equal(x@[i], y@[i]);
            }
        },
        (Value::Mapping(x), Value::Mapping(y)) => {
            assert forall|i: int| 0 <= i < x@.len() implies holds_entry(y@, #[trigger] x@[i]) by {
                law_identical_values_are_equal(x@[i].key, y@[i].key);
                law_identical_values_are_equal(x@[i].value, y@[i].value);
                assert(same_entry(x@[i], y@[i]));
            }
        },
        (Value::Tagged { tag: _, value: x }, Value::Tagged { tag: _, value: y }) => {
            law_identical_values_are_equal(*x, *y);
        },
        _ => {},
    }
}

impl Clone for Value {
    fn clone(&self) -> (r: Self)
        ensures
            identical(*self, r),
    {
        copy_value(self)
    }
}

impl Clone for Entry {
    fn clone(&self) -> (r: Self)
        ensures
            identical(self.key, r.key),
            identical(self.value, r.value),
    {
        copy_entry(self)
    }
}

/// A copy of a value.
fn copy_value(v: &Value) -> (r: Value)
    ensures
        identical(*v, r),
    decreases v,
{
    match v {
        Value::Null => Value::Null,
        Value::Bool(x) => Value::Bool(*x),
        Value::Number(x) => Value::Number(*x),
        Value::String(x) => Value::String(x.clone()),
        Value::Sequence(x) => Value::Sequence(copy_sequence(x)),
        Value::Mapping(x) => Value::Mapping(copy_mapping(x)),
        Value::Tagged { tag, value } => Value::Tagged {
            tag: tag.clone(),
            value: Box::new(copy_value(value)),
        },
    }
}

/// A copy of an entry.
fn copy_entry(entry: &Entry) -> (r: Entry)
    ensures
        identical(entry.key, r.key),
        identical(entry.value, r.value),
    decreases entry,
{
    Entry { key: copy_value(&entry.key), value: copy_value(&entry.value) }
}

/// A copy of a sequence.
fn copy_sequence(x: &Vec<Value>) -> (r: Vec<Value>)
    ensures
        r@.len() == x@.len(),
        forall|i: int| 0 <= i < x@.len() ==> identical(#[trigger] x@[i], r@[i]),
    decreases x,
{
    let mut r: Vec<Value> = Vec::new();
    let mut i: usize = 0;
    while i < x.len()
        invariant
            i <= x@.len(),
            r@.len() == i,
            forall|k: int| 0 <= k < i ==> identical(#[trigger] x@[k], r@[k]),
        decreases x@.len() - i,
    {
        r.push(copy_value(&x[i]));
        i += 1;
    }
    r
}

/// A copy of the entries of a mapping.
fn copy_mapping(x: &Vec<Entry>) -> (r: Vec<Entry>)
    ensures
        r@.len() == x@.len(),
        forall|i: int|
            0 <= i < x@.len() ==> identical((#[trigger] x@[i]).key, r@[i].key) && identical(
                x@[i].value,
                r@[i].value,
            ),
    decreases x,
{
    let mut r: Vec<Entry> = Vec::new();
    let mut i: usize = 0;
    while i < x.len()
        invariant
            i <= x@.len(),
            r@.len() == i,
            forall|k: int|
                0 <= k < i ==> identical((#[trigger] x@[k]).key, r@[k].key) && identical(
                    x@[k].value,
                    r@[k].value,
                ),
        decreases x@.len() - i,
    {
        r.push(copy_entry(&x[i]));
        i += 1;
    }
    r
}

/// What a mapping guarantees: no key occurs twice, at any depth of the value.
pub open spec fn well_formed(v: Value) -> bool
    decreases v,
{
    match v {
        Value::Sequence(x) => forall|i: int| 0 <= i < x@.len() ==> well_formed(#[trigger] x@[i]),
        Value::Mapping(x) => {
            &&& forall|i: int|
                0 <= i < x@.len() ==> well_formed((#[trigger] x@[i]).key) && well_formed(
                    x@[i].value,
                )
            &&& forall|i: int, j: int|
                0 <= i < x@.len() && 0 <= j < x@.len() && i != j ==> !same_value(
                    (#[trigger] x@[i]).key,
                    (#[trigger] x@[j]).key,
                )
        },
        Value::Tagged { tag: _, value: x } => well_formed(*x),
        _ => true,
    }
}

/// Every value equals itself.
pub proof fn law_same_value_reflexive(a: Value)
    ensures
        same_value(a, a),
    decreases a,
{
    match a {
        Value::Sequence(x) => {
            assert forall|i: int| 0 <= i < x@.len() implies same_value(#[trigger] x@[i], x@[i]) by {
                law_same_value_reflexive(x@[i]);
            }
        },
        Value::Mapping(x) => {
            assert forall|i: int| 0 <= i < x@.len() implies holds_entry(x@, #[trigger] x@[i]) by {
                law_same_value_reflexive(x@[i].key);
                law_same_value_reflexive(x@[i].value);
                assert(same_entry(x@[i], x@[i]));
            }
        },
        Value::Tagged { tag: _, value: x } => {
            law_same_value_reflexive(*x);
        },
        _ => {},
    }
}

/// Values that equal one value equal each other.
pub proof fn law_same_value_transitive(a: Value, b: Value, c: Value)
    requires
        same_value(a, b),
        same_value(b, c),
    ensures
        same_value(a, c),
    decreases a,
{
    match (a, b, c) {
        (Value::Sequence(x), Value::Sequence(y), Value::Sequence(z)) => {
            assert forall|i: int| 0 <= i < x@.len() implies same_value(#[trigger] x@[i], z@[i]) by {
                assert(same_value(y@[i], z@[i]));
                law_same_value_transitive(x@[i], y@[i], z@[i]);
            }
        },
        (Value::Mapping(x), Value::Mapping(y), Value::Mapping(z)) => {
            assert forall|i: int| 0 <= i < x@.len() implies holds_entry(z@, #[trigger] x@[i]) by {
                assert(holds_entry(y@, x@[i]));
                let j = choose|j: int| 0 <= j < y@.len() && same_entry(x@[i], #[trigger] y@[j]);
                assert(holds_entry(z@, y@[j]));
                let k = choose|k: int| 0 <= k < z@.len() && same_entry(y@[j], #[trigger] z@[k]);
                law_same_value_transitive(x@[i].key, y@[j].key, z@[k].key);
                law_same_value_transitive(x@[i].value, y@[j].value, z@[k].value);
                assert(same_entry(x@[i], z@[k]));
            }
        },
        (
            Value::Tagged { tag: _, value: x },
            Value::Tagged { tag: _, value: y },
            Value::Tagged { tag: _, value: z },
        ) => {
            law_same_value_transitive(*x, *y, *z);
        },
        _ => {},
    }
}

/// Equality goes both ways.
pub proof fn law_same_value_symmetric(a: Value, b: Value)
    requires
        well_formed(a),
        same_value(a, b),
    ensures
        same_value(b, a),
    decreases a,
{
    match (a, b) {
        (Value::Sequence(x), Value::Sequence(y)) => {
            assert forall|i: int| 0 <= i < y@.len() implies same_value(#[trigger] y@[i], x@[i]) by {
                assert(same_value(x@[i], y@[i]));
                law_same_value_symmetric(x@[i], y@[i]);
            }
        },
        (Value::Mapping(x), Value::Mapping(y)) => {
            let partner = |i: int|
                choose|j: int| 0 <= j < y@.len() && same_entry(x@[i], #[trigger] y@[j]);
            let s = Seq::new(x@.len(), partner);
            assert forall|i: int| 0 <= i < s.len() implies 0 <= #[trigger] s[i] < s.len()
                && same_entry(x@[i], y@[s[i]]) by {
                assert(holds_entry(y@, x@[i]));
            }
            assert forall|i: int, k: int|
                0 <= i < s.len() && 0 <= k < s.len() && i != k implies s[i] != s[k] by {
                if s[i] == s[k] {
                    let m = y@[s[i]];
                    assert(same_entry(x@[i], m) && same_entry(x@[k], m));
                    law_same_value_symmetric(x@[k].key, m.key);
                    law_same_value_transitive(x@[i].key, m.key, x@[k].key);
                }
            }
            assert forall|j: int| 0 <= j < y@.len() implies holds_entry(x@, #[trigger] y@[j]) by {
                pairing::lemma_injective_reaches_all(s, j);
                let i = choose|i: int| 0 <= i < s.len() && s[i] == j;
                assert(same_entry(x@[i], y@[j]));
                law_same_value_symmetric(x@[i].key, y@[j].key);
                law_same_value_symmetric(x@[i].value, y@[j].value);
                assert(same_entry(y@[j], x@[i]));
            }
        },
        (Value::Tagged { tag: _, value: x }, Value::Tagged { tag: _, value: y }) => {
            law_same_value_symmetric(*x, *y);
        },
        _ => {},
    }
}

/// Whether the entries of one mapping stand at these places, all different, in another one of
/// the same length.
pub open spec fn entries_placed(x: Seq<Entry>, y: Seq<Entry>, places: Seq<int>) -> bool {
    &&& x.len() == y.len() == places.len()
    &&& places.no_duplicates()
    &&& forall|i: int|
        0 <= i < x.len() ==> 0 <= #[trigger] places[i] < y.len() && same_entry(x[i], y[places[i]])
}

/// The order in which a mapping writes its entries does not matter.
pub proof fn law_entry_order_is_not_compared(x: Vec<Entry>, y: Vec<Entry>, places: Seq<int>)
    requires
        entries_placed(x@, y@, places),
    ensures
        same_value(Value::Mapping(x), Value::Mapping(y)),
{
    assert forall|i: int| 0 <= i < x@.len() implies holds_entry(y@, #[trigger] x@[i]) by {
        assert(same_entry(x@[i], y@[places[i]]));
    }
}

/// Equal values are of one kind.
pub proof fn law_kinds_are_told_apart(a: Value, b: Value)
    requires
        same_value(a, b),
    ensures
        a is Null <==> b is Null,
        a is Bool <==> b is Bool,
        a is Number <==> b is Number,
        a is String <==> b is String,
        a is Sequence <==> b is Sequence,
        a is Mapping <==> b is Mapping,
        a is Tagged <==> b is Tagged,
{
}

/// Scalars are equal exactly where they are the same: the same truth value, the same integer,
/// the same text.
pub proof fn law_scalars_are_told_apart(
    p: bool,
    q: bool,
    m: u64,
    n: u64,
    i: i64,
    j: i64,
    s: String,
    t: String,
)
    ensures
        same_value(Value::Null, Value::Null),
        same_value(Value::Bool(p), Value::Bool(q)) <==> p == q,
        same_value(Value::Number(Number::PosInt(m)), Value::Number(Number::PosInt(n))) <==> m == n,
        same_value(Value::Number(Number::NegInt(i)), Value::Number(Number::NegInt(j))) <==> i == j,
        same_value(Value::String(s), Value::String(t)) <==> s@ == t@,
{
}

/// Numbers of different kinds are never equal, and floating point numbers only where their bit
/// patterns are the same, both are a zero or both are no number.
pub proof fn law_numbers_are_told_apart(m: u64, i: i64, f: u64, g: u64)
    ensures
        !same_value(Value::Number(Number::PosInt(m)), Value::Number(Number::NegInt(i))),
        !same_value(Value::Number(Number::NegInt(i)), Value::Number(Number::PosInt(m))),
        !same_value(Value::Number(Number::PosInt(m)), Value::Number(Number::Float(f))),
        !same_value(Value::Number(Number::Float(f)), Value::Number(Number::PosInt(m))),
        !same_value(Value::Number(Number::NegInt(i)), Value::Number(Number::Float(f))),
        !same_value(Value::Number(Number::Float(f)), Value::Number(Number::NegInt(i))),
        same_value(Value::Number(Number::Float(f)), Value::Number(Number::Float(g))) <==> {
            ||| f == g
            ||| (f == 0 || f == 0x8000_0000_0000_0000) && (g == 0 || g == 0x8000_0000_0000_0000)
            ||| (0x7ff0_0000_0000_0000 < f < 0x8000_0000_0000_0000 || f > 0xfff0_0000_0000_0000)
                && (0x7ff0_0000_0000_0000 < g < 0x8000_0000_0000_0000 || g
                > 0xfff0_0000_0000_0000)
        },
{
}

/// Sequences are equal exactly where they are as long and equal in each place.
pub proof fn law_sequences_are_told_apart(x: Vec<Value>, y: Vec<Value>)
    ensures
        same_value(Value::Sequence(x), Value::Sequence(y)) <==> (x@.len() == y@.len() && forall|
            i: int,
        |
            0 <= i < x@.len() ==> same_value(#[trigger] x@[i], y@[i])),
{
}

/// Mappings are equal exactly where they have as many entries and each entry of one has in the
/// other one of an equal key and an equal value.
pub proof fn law_mappings_are_told_apart(x: Vec<Entry>, y: Vec<Entry>)
    ensures
        same_value(Value::Mapping(x), Value::Mapping(y)) <==> (x@.len() == y@.len() && forall|
            i: int,
        |
            0 <= i < x@.len() ==> exists|j: int|
                0 <= j < y@.len() && same_value((#[trigger] x@[i]).key, (#[trigger] y@[j]).key)
                    && same_value(x@[i].value, y@[j].value)),
{
    if same_value(Value::Mapping(x), Value::Mapping(y)) {
        assert forall|i: int| 0 <= i < x@.len() implies exists|j: int|
            0 <= j < y@.len() && same_value((#[trigger] x@[i]).key, (#[trigger] y@[j]).key)
                && same_value(x@[i].value, y@[j].value) by {
            assert(holds_entry(y@, x@[i]));
            let j = choose|j: int| 0 <= j < y@.len() && same_entry(x@[i], #[trigger] y@[j]);
            assert(same_value(x@[i].key, y@[j].key));
        }
    }
    if x@.len() == y@.len() && forall|i: int|
        0 <= i < x@.len() ==> exists|j: int|
            0 <= j < y@.len() && same_value((#[trigger] x@[i]).key, (#[trigger] y@[j]).key)
                && same_value(x@[i].value, y@[j].value) {
        assert forall|i: int| 0 <= i < x@.len() implies holds_entry(y@, #[trigger] x@[i]) by {
            let j = choose|j: int|
                0 <= j < y@.len() && same_value(x@[i].key, (#[trigger] y@[j]).key) && same_value(
                    x@[i].value,
                    y@[j].value,
                );
            assert(same_entry(x@[i], y@[j]));
        }
    }
}

/// Whether a tag is another one with its `!` before it.
pub open spec fn is_marked(tag: Seq<char>, bare: Seq<char>) -> bool {
    &&& bare.len() > 0
    &&& tag == seq!['!'] + bare
    &&& bare.len() == 1 || bare[0] != '!'
}

/// Tagged values are equal exactly where their values are and their tags are the same, or would
/// be with the `!` that one of them leaves out.
pub proof fn law_tags_are_told_apart(s: String, t: String, x: Box<Value>, y: Box<Value>)
    ensures
        same_value(
            Value::Tagged { tag: s, value: x },
            Value::Tagged { tag: t, value: y },
        ) <==> same_value(*x, *y) && (s@ == t@ || is_marked(s@, t@) || is_marked(t@, s@)),
{
    let a = tag_name(s@);
    let b = tag_name(t@);
    if s@.len() > 1 && s@[0] == '!' {
        assert(s@ == seq!['!'] + a);
    }
    if t@.len() > 1 && t@[0] == '!' {
        assert(t@ == seq!['!'] + b);
    }
    if is_marked(s@, t@) {
        assert(s@.skip(1) == t@);
    }
    if is_marked(t@, s@) {
        assert(t@.skip(1) == s@);
    }
}

/// Whether an entry has that text as its key.
pub open spec fn has_key(entry: Entry, key: Seq<char>) -> bool {
    entry.key matches Value::String(s) && s@ == key
}

/// Whether two values differ in some place: there they are of different kinds, or are different
/// scalars, or have different numbers of items, or one of them lacks a key.
pub open spec fn differ_somewhere(a: Value, b: Value) -> bool
    decreases a,
{
    match (a, b) {
        (Value::Null, Value::Null) => false,
        (Value::Bool(x), Value::Bool(y)) => x != y,
        (Value::Number(Number::PosInt(x)), Value::Number(Number::PosInt(y))) => x != y,
        (Value::Number(Number::NegInt(x)), Value::Number(Number::NegInt(y))) => x != y,
        (Value::Number(Number::Float(_)), Value::Number(Number::Float(_))) => false,
        (Value::String(x), Value::String(y)) => x@ != y@,
        (Value::Sequence(x), Value::Sequence(y)) => {
            ||| x@.len() != y@.len()
            ||| exists|i: int| 0 <= i < x@.len() && differ_somewhere(#[trigger] x@[i], y@[i])
        },
        (Value::Mapping(x), Value::Mapping(y)) => {
            ||| x@.len() != y@.len()
            ||| exists|i: int, key: Seq<char>|
                0 <= i < x@.len() && #[trigger] has_key(x@[i], key) && forall|j: int|
                    0 <= j < y@.len() && has_key(#[trigger] y@[j], key) ==> differ_somewhere(
                        x@[i].value,
                        y@[j].value,
                    )
        },
        (Value::Tagged { tag: _, value: x }, Value::Tagged { tag: _, value: y }) => {
            differ_somewhere(*x, *y)
        },
        _ => true,
    }
}

/// Values that differ in some place, however deep, are not equal.
pub proof fn law_a_difference_is_seen(a: Value, b: Value)
    requires
        differ_somewhere(a, b),
    ensures
        !same_value(a, b),
    decreases a,
{
    match (a, b) {
        (Value::Sequence(x), Value::Sequence(y)) => {
            if x@.len() == y@.len() {
                let i = choose|i: int|
                    0 <= i < x@.len() && differ_somewhere(#[trigger] x@[i], y@[i]);
                law_a_difference_is_seen(x@[i], y@[i]);
            }
        },
        (Value::Mapping(x), Value::Mapping(y)) => {
            if x@.len() == y@.len() {
                let (i, key) = choose|i: int, key: Seq<char>|
                    0 <= i < x@.len() && #[trigger] has_key(x@[i], key) && forall|j: int|
                        0 <= j < y@.len() && has_key(#[trigger] y@[j], key) ==> differ_somewhere(
                            x@[i].value,
                            y@[j].value,
                        );
                assert(has_key(x@[i], key));
                if holds_entry(y@, x@[i]) {
                    let j = choose|j: int| 0 <= j < y@.len() && same_entry(x@[i], #[trigger] y@[j]);
                    law_kinds_are_told_apart(x@[i].key, y@[j].key);
                    assert(has_key(y@[j], key));
                    law_a_difference_is_seen(x@[i].value, y@[j].value);
                }
            }
        },
        (Value::Tagged { tag: _, value: x }, Value::Tagged { tag: _, value: y }) => {
            law_a_difference_is_seen(*x, *y);
        },
        _ => {},
    }
}

/// Values that are written the same are the same scalar, or hold in each place values that are
/// written the same.
pub proof fn law_written_the_same(a: Value, b: Value)
    requires
        identical(a, b),
    ensures
        match a {
            Value::Null => b is Null,
            Value::Bool(x) => b == Value::Bool(x),
            Value::Number(x) => b == Value::Number(x),
            Value::String(x) => b is String && b->String_0@ == x@,
            Value::Sequence(x) => b is Sequence && b->Sequence_0@.len() == x@.len() && forall|
                i: int,
            |
                0 <= i < x@.len() ==> identical(#[trigger] x@[i], b->Sequence_0@[i]),
            Value::Mapping(x) => b is Mapping && b->Mapping_0@.len() == x@.len() && forall|i: int|
                0 <= i < x@.len() ==> identical((#[trigger] x@[i]).key, b->Mapping_0@[i].key)
                    && identical(x@[i].value, b->Mapping_0@[i].value),
            Value::Tagged { tag, value } => b is Tagged && b->tag@ == tag@ && identical(
                *value,
                *b->value,
            ),
        },
{
}

} // verus!
