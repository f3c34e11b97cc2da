use crate::charset::{is_alphabet, precedes, CharSet};
use crate::error::LehmerError;
use crate::text::{append, join_numbers, joined};
use vstd::arithmetic::div_mod::{
    lemma_basic_div, lemma_div_denominator, lemma_div_pos_is_pos, lemma_fundamental_div_mod,
    lemma_small_mod,
};
use vstd::prelude::*;

verus! {

/// `n!`, the number of arrangements of `n` distinct symbols.
pub open spec fn factorial(n: nat) -> nat
    decreases n,
{
    if n == 0 {
        1
    } else {
        n * factorial((n - 1) as nat)
    }
}

/// The radix of digit `k`, counted from the least significant digit, in the
/// code over `l` symbols: `2, 3, ..., l` when increasing, `l, l - 1, ..., 2`
/// when decreasing.
pub open spec fn radix(l: nat, increasing: bool, k: nat) -> int {
    if increasing {
        k as int + 2
    } else {
        l as int - k as int
    }
}

/// The product of the radices of the `k` least significant digits: the place
/// value of digit `k`.
pub open spec fn place_value(l: nat, increasing: bool, k: nat) -> int
    decreases k,
{
    if k == 0 {
        1
    } else {
        place_value(l, increasing, (k - 1) as nat) * radix(l, increasing, (k - 1) as nat)
    }
}

/// Digit `k` of `n`, counted from the least significant digit.
pub open spec fn digit(n: nat, l: nat, increasing: bool, k: nat) -> int {
    (n as int / place_value(l, increasing, k)) % radix(l, increasing, k)
}

/// The Lehmer code of `n` over `l` symbols: its `l - 1` digits in the
/// factorial number system, most significant first.
pub open spec fn lehmer_code(n: nat, l: nat, increasing: bool) -> Seq<int> {
    Seq::new((l - 1) as nat, |i: int| digit(n, l, increasing, (l - 2 - i) as nat))
}

/// The value of the digits `d` from digit `k` on (counted from the least
/// significant one), in units of the place value of digit `k`. The code has
/// `d.len() + 1` symbols.
pub open spec fn value_from(d: Seq<int>, increasing: bool, k: nat) -> int
    decreases d.len() - k,
{
    if k >= d.len() {
        0
    } else {
        d[d.len() - 1 - k] + radix(d.len() + 1, increasing, k) * value_from(d, increasing, k + 1)
    }
}

/// The number that the digit vector `d`, most significant first, stands for.
pub open spec fn code_value(d: Seq<int>, increasing: bool) -> int {
    value_from(d, increasing, 0)
}

/// The radices of an `l`-symbol code are at least 2, so each place value up
/// to `l - 1` digits is positive.
proof fn lemma_place_value_positive(l: nat, increasing: bool, k: nat)
    requires
        k <= l - 1,
    ensures
        place_value(l, increasing, k) > 0,
    decreases k,
{
    if k > 0 {
        lemma_place_value_positive(l, increasing, (k - 1) as nat);
        let p = place_value(l, increasing, (k - 1) as nat);
        let r = radix(l, increasing, (k - 1) as nat);
        assert(p * r > 0) by (nonlinear_arith)
            requires
                p > 0,
                r > 0,
        ;
    }
}

/// Increasing radices `2, ..., k + 1` multiply to `(k + 1)!`.
proof fn lemma_place_value_increasing(l: nat, k: nat)
    ensures
        place_value(l, true, k) == factorial(k + 1),
    decreases k,
{
    if k > 0 {
        lemma_place_value_increasing(l, (k - 1) as nat);
        assert(((k - 1) as nat) + 1 == k);
        assert(place_value(l, true, k) == place_value(l, true, (k - 1) as nat) * (k + 1));
        assert(place_value(l, true, (k - 1) as nat) == factorial(k));
        assert(factorial(k + 1) == (k + 1) * factorial(k));
        assert(factorial(k) * (k + 1) == (k + 1) * factorial(k)) by (nonlinear_arith);
        assert(place_value(l, true, k) == factorial(k + 1));
    } else {
        assert(factorial(1) == 1 * factorial(0));
    }
}

/// Decreasing radices `l, ..., l - k + 1` multiply to `l! / (l - k)!`.
proof fn lemma_place_value_decreasing(l: nat, k: nat)
    requires
        k <= l,
    ensures
        place_value(l, false, k) * factorial((l - k) as nat) == factorial(l),
    decreases k,
{
    if k > 0 {
        lemma_place_value_decreasing(l, (k - 1) as nat);
        let p = place_value(l, false, (k - 1) as nat);
        let m = (l - k) as nat;
        assert(factorial(m + 1) == (m + 1) * factorial(m));
        assert(((l - (k - 1)) as nat) == m + 1);
        assert(p * (m + 1) * factorial(m) == p * ((m + 1) * factorial(m))) by (nonlinear_arith);
    }
}

/// The place value just past the last digit of an `l`-symbol code is `l!`,
/// in either direction.
pub proof fn lemma_full_place_value(l: nat, increasing: bool)
    requires
        l >= 1,
    ensures
        place_value(l, increasing, (l - 1) as nat) == factorial(l),
{
    if increasing {
        lemma_place_value_increasing(l, (l - 1) as nat);
        assert(((l - 1) as nat) + 1 == l);
        assert(place_value(l, true, (l - 1) as nat) == factorial(l));
    } else {
        lemma_place_value_decreasing(l, (l - 1) as nat);
        assert(factorial(0) == 1);
        assert(factorial(1) == 1 * factorial(0));
        assert(((l - ((l - 1) as nat)) as nat) == 1);
        let p = place_value(l, false, (l - 1) as nat);
        assert(p * factorial(1) == factorial(l));
        assert(factorial(1) == 1);
        assert(p * factorial(1) == p) by (nonlinear_arith)
            requires
                factorial(1) == 1,
        ;
    }
}

/// `x / c < d` exactly when `x < c * d`.
proof fn lemma_div_below(x: int, c: int, d: int)
    requires
        x >= 0,
        c > 0,
    ensures
        x / c < d <==> x < c * d,
{
    lemma_fundamental_div_mod(x, c);
    let q = x / c;
    let m = x % c;
    assert(0 <= m < c);
    assert(x / c < d <==> x < c * d) by (nonlinear_arith)
        requires
            x == c * q + m,
            0 <= m < c,
            c > 0,
            q == x / c,
    ;
}

/// An alphabet holds at most as many symbols as there are characters.
pub proof fn lemma_alphabet_size(s: Seq<char>)
    requires
        is_alphabet(s),
    ensures
        s.len() <= 0x110000,
{
    assert forall|i: int| 0 <= i < s.len() implies (#[trigger] s[i] as int) >= i by {
        lemma_code_point_at_least_index(s, i);
    }
    lemma_code_point_range(s[s.len() - 1]);
}

proof fn lemma_code_point_range(c: char)
    ensures
        0 <= (c as int) <= 0x10FFFF,
{
}

proof fn lemma_code_point_at_least_index(s: Seq<char>, i: int)
    requires
        is_alphabet(s),
        0 <= i < s.len(),
    ensures
        (s[i] as int) >= i,
    decreases i,
{
    lemma_code_point_range(s[i]);
    if i > 0 {
        lemma_code_point_at_least_index(s, i - 1);
        assert(precedes(s[i - 1], s[i]));
    }
}

proof fn lemma_value_from(n: nat, l: nat, increasing: bool, k: nat)
    requires
        2 <= l,
        n < factorial(l),
        k <= l - 1,
    ensures
        value_from(lehmer_code(n, l, increasing), increasing, k) == n as int / place_value(
            l,
            increasing,
            k,
        ),
    decreases l - 1 - k,
{
    let d = lehmer_code(n, l, increasing);
    lemma_place_value_positive(l, increasing, k);
    if k == l - 1 {
        lemma_full_place_value(l, increasing);
        lemma_basic_div(n as int, factorial(l) as int);
    } else {
        lemma_value_from(n, l, increasing, k + 1);
        let p = place_value(l, increasing, k);
        let r = radix(l, increasing, k);
        let q = n as int / p;
        assert(r >= 2);
        lemma_div_denominator(n as int, p, r);
        assert(place_value(l, increasing, k + 1) == p * r);
        assert(d.len() - 1 - k == l - 2 - k);
        assert(((l - 2 - (l - 2 - k)) as nat) == k);
        assert(d[d.len() - 1 - k] == digit(n, l, increasing, k));
        lemma_fundamental_div_mod(q, r);
    }
}

/// Reading the Lehmer code of any index below `l!` back in the same
/// direction's radices gives the index again, and each digit lies below its
/// radix.
pub proof fn lemma_round_trip(n: nat, l: nat, increasing: bool)
    requires
        2 <= l,
        n < factorial(l),
    ensures
        code_value(lehmer_code(n, l, increasing), increasing) == n,
        lehmer_code(n, l, increasing).len() == l - 1,
        forall|i: int|
            0 <= i < l - 1 ==> 0 <= #[trigger] lehmer_code(n, l, increasing)[i] < radix(
                l,
                increasing,
                (l - 2 - i) as nat,
            ),
{
    lemma_value_from(n, l, increasing, 0);
    assert(place_value(l, increasing, 0) == 1);
    assert forall|i: int| 0 <= i < l - 1 implies 0 <= #[trigger] lehmer_code(n, l, increasing)[i]
        < radix(l, increasing, (l - 2 - i) as nat) by {
        let k = (l - 2 - i) as nat;
        lemma_place_value_positive(l, increasing, k);
        lemma_div_pos_is_pos(n as int, place_value(l, increasing, k));
    }
}

/// The Lehmer code of an index: its digits, most significant first, tagged
/// with the direction in which the radices run.
#[derive(Debug)]
pub enum LehmerCodeValue {
    /// Radices `l, l - 1, ..., 2` from the least significant digit on.
    Decreasing(Vec<i32>),
    /// Radices `2, 3, ..., l` from the least significant digit on.
    Increasing(Vec<i32>),
}

impl LehmerCodeValue {
    /// The code was built with increasing radices.
    pub open spec fn is_increasing(&self) -> bool {
        self is Increasing
    }

    /// The digits, most significant first.
    pub open spec fn digits(&self) -> Seq<int> {
        match self {
            LehmerCodeValue::Increasing(v) => v@.map_values(|d: i32| d as int),
            LehmerCodeValue::Decreasing(v) => v@.map_values(|d: i32| d as int),
        }
    }

    /// The code as text: a label naming the direction, then the digits in
    /// decimal, separated by single spaces.
    pub fn to_string(&self) -> (r: String)
        ensures
            self.is_increasing() ==> r@ == "L(inc): "@ + joined(self.digits(), " "@),
            !self.is_increasing() ==> r@ == "L(dec): "@ + joined(self.digits(), " "@),
    {
        let (label, v) = match self {
            LehmerCodeValue::Increasing(v) => ("L(inc): ", v),
            LehmerCodeValue::Decreasing(v) => ("L(dec): ", v),
        };
        let mut out = label.to_owned();
        let body = join_numbers(v, " ");
        append(&mut out, body.as_str());
        out
    }

    /// The Lehmer code of `num` over the symbols of `charset`, with radices
    /// `2, ..., l` (when `is_increse`) or `l, ..., 2` taken from the least
    /// significant digit on. Fails on a single-symbol alphabet, and on an
    /// index not below `l!`.
    pub fn from_dicimal(num: usize, charset: &CharSet, is_increse: bool) -> (r: Result<
        LehmerCodeValue,
        LehmerError,
    >)
        requires
            charset.wf(),
        ensures
            charset@.len() == 1 ==> r == Err::<LehmerCodeValue, LehmerError>(
                LehmerError::DegenerateAlphabet,
            ),
            charset@.len() >= 2 && num >= factorial(charset@.len()) ==> r == Err::<
                LehmerCodeValue,
                LehmerError,
            >(LehmerError::IndexOutOfRange),
            charset@.len() >= 2 && num < factorial(charset@.len()) ==> r is Ok
                && r->Ok_0.is_increasing() == is_increse && r->Ok_0.digits() == lehmer_code(
                num as nat,
                charset@.len(),
                is_increse,
            ),
    {
        let l = charset.len();
        if l == 1 {
            return Err(LehmerError::DegenerateAlphabet);
        }
        proof {
            lemma_alphabet_size(charset@);
        }
        let ghost lg = l as nat;
        let end: usize = if is_increse {
            l
        } else {
            2
        };
        let mut radix_now: usize = if is_increse {
            2
        } else {
            l
        };
        let mut n: usize = num;
        let mut value: Vec<i32> = Vec::new();
        let ghost mut k: nat = 0;
        while radix_now != end
            invariant
                2 <= l <= 0x110000,
                l == lg,
                end == radix(lg, is_increse, (lg - 2) as nat),
                k <= lg - 2,
                radix_now == radix(lg, is_increse, k),
                n == num as int / place_value(lg, is_increse, k),
                value@.len() == k,
                forall|j: int|
                    0 <= j < k ==> #[trigger] value@[j] as int == digit(
                        num as nat,
                        lg,
                        is_increse,
                        j as nat,
                    ),
            decreases lg - 2 - k,
        {
            proof {
                lemma_place_value_positive(lg, is_increse, k);
                lemma_div_denominator(
                    num as int,
                    place_value(lg, is_increse, k),
                    radix(lg, is_increse, k),
                );
            }
            let remainder = n % radix_now;
            n = n / radix_now;
            value.push(remainder as i32);
            if is_increse {
                radix_now += 1;
            } else {
                radix_now -= 1;
            }
            proof {
                k = k + 1;
            }
        }
        proof {
            lemma_place_value_positive(lg, is_increse, k);
            lemma_div_below(num as int, place_value(lg, is_increse, k), radix_now as int);
            lemma_full_place_value(lg, is_increse);
            assert(((k + 1) as nat) == (lg - 1) as nat);
            assert(place_value(lg, is_increse, (lg - 1) as nat) == place_value(lg, is_increse, k)
                * radix(lg, is_increse, k));
        }
        if n >= radix_now {
            return Err(LehmerError::IndexOutOfRange);
        }
        proof {
            lemma_small_mod(n as nat, radix_now as nat);
        }
        value.push(n as i32);
        let mut digits: Vec<i32> = Vec::new();
        let mut idx: usize = value.len();
        while idx > 0
            invariant
                idx <= value@.len(),
                digits@.len() == value@.len() - idx,
                forall|t: int|
                    0 <= t < digits@.len() ==> #[trigger] digits@[t] == value@[value@.len() - 1
                        - t],
            decreases idx,
        {
            idx -= 1;
            digits.push(value[idx]);
        }
        let code = if is_increse {
            LehmerCodeValue::Increasing(digits)
        } else {
            LehmerCodeValue::Decreasing(digits)
        };
        proof {
            assert(code.digits() =~= lehmer_code(num as nat, lg, is_increse));
        }
        Ok(code)
    }
}

} // verus!
