//! Text helpers: the characters of a text, and numbers written out in decimal.

use vstd::prelude::*;

verus! {

/// The characters of a text.
pub fn characters(text: &str) -> (r: Vec<char>)
    ensures
        r@ == text@,
{
    let mut r: Vec<char> = Vec::new();
    for c in it: text.chars()
        invariant
            r@ == it.seq().take(it.index()),
            it.seq() == text@,
    {
        r.push(c);
    }
    r
}

/// Nothing comes of no items.
pub proof fn lemma_flat_map_none<T, B>(items: Seq<T>, step: spec_fn(T) -> Seq<B>)
    requires
        items.len() == 0,
    ensures
        items.flat_map(step) == Seq::<B>::empty(),
{
}

/// The text of an optional string.
pub open spec fn optional_text(s: Option<String>) -> Option<Seq<char>> {
    match s {
        Some(t) => Some(t@),
        None => None,
    }
}

/// Compares two optional strings.
pub fn optional_text_equal(a: &Option<String>, b: &Option<String>) -> (r: bool)
    ensures
        r == (optional_text(*a) == optional_text(*b)),
{
    match (a, b) {
        (Some(x), Some(y)) => *x == *y,
        (None, None) => true,
        _ => false,
    }
}

/// The decimal digit of a number below ten.
pub open spec fn digit(d: nat) -> char {
    (('0' as nat) + d) as char
}

/// A natural number in decimal, without leading zeros.
pub open spec fn decimal(n: nat) -> Seq<char>
    decreases n,
{
    if n < 10 {
        seq![digit(n)]
    } else {
        decimal(n / 10).push(digit(n % 10))
    }
}

/// An integer in decimal, with a minus sign where it is negative.
pub open spec fn signed_decimal(n: int) -> Seq<char> {
    if n < 0 {
        seq!['-'] + decimal((-n) as nat)
    } else {
        decimal(n as nat)
    }
}

/// The decimal digit of a number below ten, as a text of one character.
fn digit_text(d: u64) -> (r: &'static str)
    requires
        d < 10,
    ensures
        r@ == seq![digit(d as nat)],
{
    proof {
        reveal_strlit("0");
        reveal_strlit("1");
        reveal_strlit("2");
        reveal_strlit("3");
        reveal_strlit("4");
        reveal_strlit("5");
        reveal_strlit("6");
        reveal_strlit("7");
        reveal_strlit("8");
        reveal_strlit("9");
    }
    match d {
        0 => "0",
        1 => "1",
        2 => "2",
        3 => "3",
        4 => "4",
        5 => "5",
        6 => "6",
        7 => "7",
        8 => "8",
        _ => "9",
    }
}

/// A natural number in decimal.
fn natural_text(n: u64) -> (r: String)
    ensures
        r@ == decimal(n as nat),
    decreases n,
{
    if n < 10 {
        digit_text(n).to_owned()
    } else {
        let mut r = natural_text(n / 10);
        r.append(digit_text(n % 10));
        r
    }
}

/// An integer in decimal.
pub fn integer_text(n: i64) -> (r: String)
    ensures
        r@ == signed_decimal(n as int),
{
    if n < 0 {
        let magnitude: u64 = (-(n + 1)) as u64 + 1;
        proof {
            reveal_strlit("-");
        }
        let mut r = "-".to_owned();
        r.append(natural_text(magnitude).as_str());
        r
    } else {
        natural_text(n as u64)
    }
}

/// The number that digits are read as.
pub open spec fn reading(digits: Seq<char>) -> int
    decreases digits.len(),
{
    if digits.len() == 0 {
        0
    } else {
        reading(digits.drop_last()) * 10 + (digits.last() as int - '0' as int)
    }
}

/// A number written out is made of digits, begins with no needless zero, and reads back as the
/// number.
pub proof fn law_decimal_reads_back(n: nat)
    ensures
        decimal(n).len() > 0,
        forall|i: int| 0 <= i < decimal(n).len() ==> '0' <= #[trigger] decimal(n)[i] <= '9',
        decimal(n).len() > 1 ==> decimal(n)[0] != '0',
        n > 0 ==> decimal(n)[0] != '0',
        reading(decimal(n)) == n,
    decreases n,
{
    if n < 10 {
        assert(decimal(n).drop_last() == Seq::<char>::empty());
        assert(reading(Seq::<char>::empty()) == 0);
    } else {
        let rest = decimal(n / 10);
        law_decimal_reads_back(n / 10);
        assert(decimal(n).drop_last() == rest);
        assert(decimal(n)[0] == rest[0]);
    }
}

/// An integer written out has a minus sign exactly where it is negative, before its magnitude.
pub proof fn law_signed_decimal_reads_back(n: int)
    ensures
        n >= 0 ==> reading(signed_decimal(n)) == n && signed_decimal(n) == decimal(n as nat),
        n < 0 ==> signed_decimal(n)[0] == '-' && signed_decimal(n).skip(1) == decimal((-n) as nat)
            && reading(signed_decimal(n).skip(1)) == -n,
{
    if n >= 0 {
        law_decimal_reads_back(n as nat);
    } else {
        law_decimal_reads_back((-n) as nat);
        assert(signed_decimal(n).skip(1) == decimal((-n) as nat));
    }
}

/// The text of an optional string is that of the string, where there is one.
pub proof fn law_optional_text(s: Option<String>)
    ensures
        s is None <==> optional_text(s) is None,
        s is Some ==> optional_text(s) == Some(s->0@),
{
}

} // verus!
