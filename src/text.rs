use itertools::Itertools;
use vstd::prelude::*;

verus! {

/// The character of a decimal digit `0 <= d < 10`.
pub open spec fn digit_char(d: int) -> char {
    (d + 48) as char
}

/// The decimal numeral of `n`, without leading zeros.
pub open spec fn decimal(n: nat) -> Seq<char>
    decreases n,
{
    if n < 10 {
        seq![digit_char(n as int)]
    } else {
        decimal(n / 10).push(digit_char((n % 10) as int))
    }
}

/// The decimal numeral of `i`, with a leading minus sign when negative.
pub open spec fn int_text(i: int) -> Seq<char> {
    if i < 0 {
        seq!['-'] + decimal((-i) as nat)
    } else {
        decimal(i as nat)
    }
}

/// The numerals of `s`, in order, with `sep` between neighbours.
pub open spec fn joined(s: Seq<int>, sep: Seq<char>) -> Seq<char>
    decreases s.len(),
{
    if s.len() == 0 {
        seq![]
    } else if s.len() == 1 {
        int_text(s[0])
    } else {
        joined(s.drop_last(), sep) + sep + int_text(s.last())
    }
}

/// Relies on itertools' `Itertools::format`, which writes the elements with
/// their `Display` (for `i32`, the decimal numeral) and `sep` between
/// neighbours.
#[verifier::external_body]
pub(crate) fn join_numbers(v: &Vec<i32>, sep: &str) -> (r: String)
    ensures
        r@ == joined(v@.map_values(|d: i32| d as int), sep@),
{
    v.iter().format(sep).to_string()
}

/// Relies on `String::push_str`: appends `tail` to `s`.
#[verifier::external_body]
pub(crate) fn append(s: &mut String, tail: &str)
    ensures
        final(s)@ == old(s)@ + tail@,
{
    s.push_str(tail);
}

} // verus!
