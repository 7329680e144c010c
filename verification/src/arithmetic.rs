//! Powers, sums and absolute values of integers, and what holds of them.

use vstd::arithmetic::div_mod::{lemma_fundamental_div_mod, lemma_mod_multiples_basic};
use vstd::prelude::*;

verus! {

/// The absolute value of `x`.
pub open spec fn absolute(x: int) -> int {
    if x < 0 {
        -x
    } else {
        x
    }
}

/// `base` to the power `exponent`.
pub open spec fn power(base: int, exponent: nat) -> int
    decreases exponent,
{
    if exponent == 0 {
        1
    } else {
        base * power(base, (exponent - 1) as nat)
    }
}

/// The sum of a list of integers.
pub open spec fn sum(terms: Seq<int>) -> int
    decreases terms.len(),
{
    if terms.len() == 0 {
        0
    } else {
        sum(terms.drop_last()) + terms.last()
    }
}

/// Powers of one base multiply by adding the exponents.
pub proof fn lemma_power_adds(base: int, first: nat, second: nat)
    ensures
        power(base, first) * power(base, second) == power(base, first + second),
    decreases first,
{
    if first == 0 {
        assert(1 * power(base, second) == power(base, second)) by (nonlinear_arith);
    } else {
        lemma_power_adds(base, (first - 1) as nat, second);
        let a = power(base, (first - 1) as nat);
        let b = power(base, second);
        assert((base * a) * b == base * (a * b)) by (nonlinear_arith);
        assert(power(base, first + second) == base * power(base, (first + second - 1) as nat));
    }
}

/// A power of a positive base is positive.
pub proof fn lemma_power_positive(base: int, exponent: nat)
    requires
        base > 0,
    ensures
        power(base, exponent) > 0,
    decreases exponent,
{
    if exponent > 0 {
        lemma_power_positive(base, (exponent - 1) as nat);
        assert(base * power(base, (exponent - 1) as nat) > 0) by (nonlinear_arith)
            requires
                base > 0,
                power(base, (exponent - 1) as nat) > 0,
        ;
    }
}

/// The sum of `count` copies of `term`.
pub proof fn lemma_sum_of_copies(count: nat, term: int)
    ensures
        sum(Seq::new(count, |i: int| term)) == count * term,
    decreases count,
{
    let all = Seq::new(count, |i: int| term);
    if count > 0 {
        lemma_sum_of_copies((count - 1) as nat, term);
        assert(all.drop_last() =~= Seq::new((count - 1) as nat, |i: int| term));
        assert((count - 1) * term + term == count * term) by (nonlinear_arith);
    } else {
        assert(0 * term == 0) by (nonlinear_arith);
    }
}

/// The power of a product is the product of the powers.
pub proof fn lemma_power_of_product(a: int, b: int, exponent: nat)
    ensures
        power(a * b, exponent) == power(a, exponent) * power(b, exponent),
    decreases exponent,
{
    if exponent == 0 {
        assert(1 * 1 == 1int);
    } else {
        lemma_power_of_product(a, b, (exponent - 1) as nat);
        let x = power(a, (exponent - 1) as nat);
        let y = power(b, (exponent - 1) as nat);
        assert((a * b) * (x * y) == (a * x) * (b * y)) by (nonlinear_arith);
    }
}

/// A power of a power is the power to the product of the exponents.
pub proof fn lemma_power_of_power(base: int, inner: nat, outer: nat)
    ensures
        power(power(base, inner), outer) == power(base, inner * outer),
    decreases outer,
{
    if outer == 0 {
        assert(inner * 0 == 0) by (nonlinear_arith);
    } else {
        lemma_power_of_power(base, inner, (outer - 1) as nat);
        lemma_power_adds(base, inner, inner * (outer - 1) as nat);
        assert(inner + inner * (outer - 1) == inner * outer) by (nonlinear_arith);
    }
}

/// Every entry of `values` times `factor`.
pub open spec fn scaled(values: Seq<int>, factor: int) -> Seq<int> {
    Seq::new(values.len(), |i: int| factor * values[i])
}

/// The sum of a scaled list is the scaled sum.
pub proof fn lemma_sum_scales(terms: Seq<int>, factor: int)
    ensures
        sum(scaled(terms, factor)) == factor * sum(terms),
    decreases terms.len(),
{
    if terms.len() > 0 {
        lemma_sum_scales(terms.drop_last(), factor);
        assert(scaled(terms, factor).drop_last() =~= scaled(terms.drop_last(), factor));
        assert(factor * (sum(terms.drop_last()) + terms.last()) == factor * sum(
            terms.drop_last(),
        ) + factor * terms.last()) by (nonlinear_arith);
    } else {
        assert(factor * 0 == 0) by (nonlinear_arith);
    }
}

/// `factor` taken `count` times.
pub open spec fn multiple(factor: int, count: int) -> int {
    factor * count
}

/// `d` divides `x`: `x` is a multiple of `d`.
pub open spec fn divides(d: int, x: int) -> bool {
    exists|t: int| x == #[trigger] multiple(d, t)
}

/// `d` divides every entry of `values`.
pub open spec fn divides_all(d: int, values: Seq<int>) -> bool {
    forall|i: int| 0 <= i < values.len() ==> divides(d, #[trigger] values[i])
}

/// `g` is the greatest common divisor of `a` and `b`: it is not negative,
/// and what divides it is what divides both.
pub open spec fn is_gcd_of_pair(g: int, a: int, b: int) -> bool {
    g >= 0 && forall|d: int| #[trigger] divides(d, g) <==> divides(d, a) && divides(d, b)
}

/// `g` is the greatest common divisor of the entries of `values`: it is not
/// negative, and what divides it is what divides every entry. For entries
/// that are all zero, and for no entries, it is zero.
pub open spec fn is_gcd(g: int, values: Seq<int>) -> bool {
    g >= 0 && forall|d: int| #[trigger] divides(d, g) <==> divides_all(d, values)
}

/// Every number divides zero and itself.
pub proof fn lemma_divides_zero_and_self(d: int)
    ensures
        divides(d, 0),
        divides(d, d),
{
    assert(0 == multiple(d, 0)) by (nonlinear_arith);
    assert(d == multiple(d, 1)) by (nonlinear_arith);
}

/// A number and its absolute value have the same divisors.
pub proof fn lemma_divides_absolute(d: int, x: int)
    ensures
        divides(d, x) <==> divides(d, absolute(x)),
{
    if divides(d, x) {
        let t = choose|t: int| x == #[trigger] multiple(d, t);
        assert(-x == multiple(d, -t)) by (nonlinear_arith)
            requires
                x == d * t,
        ;
    }
    if divides(d, absolute(x)) {
        let t = choose|t: int| absolute(x) == #[trigger] multiple(d, t);
        assert(-absolute(x) == multiple(d, -t)) by (nonlinear_arith)
            requires
                absolute(x) == d * t,
        ;
    }
}

/// A positive number leaves no remainder in what it divides.
pub proof fn lemma_divides_leaves_nothing(d: int, x: int)
    requires
        d > 0,
        divides(d, x),
    ensures
        x % d == 0,
{
    let t = choose|t: int| x == #[trigger] multiple(d, t);
    lemma_mod_multiples_basic(t, d);
    assert(t * d == x) by (nonlinear_arith)
        requires
            x == d * t,
    ;
}

/// The common divisors of `a` and `b` are those of `b` and the remainder
/// of `a` by `b`.
pub proof fn lemma_remainder_keeps_divisors(a: int, b: int, d: int)
    requires
        b != 0,
    ensures
        (divides(d, a) && divides(d, b)) <==> (divides(d, b) && divides(d, a % b)),
{
    lemma_fundamental_div_mod(a, b);
    let q = a / b;
    let r = a % b;
    if divides(d, a) && divides(d, b) {
        let s = choose|s: int| a == #[trigger] multiple(d, s);
        let t = choose|t: int| b == #[trigger] multiple(d, t);
        assert(r == multiple(d, s - t * q)) by (nonlinear_arith)
            requires
                a == d * s,
                b == d * t,
                a == b * q + r,
        ;
    }
    if divides(d, b) && divides(d, r) {
        let t = choose|t: int| b == #[trigger] multiple(d, t);
        let u = choose|u: int| r == #[trigger] multiple(d, u);
        assert(a == multiple(d, t * q + u)) by (nonlinear_arith)
            requires
                b == d * t,
                r == d * u,
                a == b * q + r,
        ;
    }
}

/// What divides the first `i + 1` entries is what divides the first `i`
/// and entry `i`.
pub proof fn lemma_divides_one_more(d: int, values: Seq<int>, i: int)
    requires
        0 <= i < values.len(),
    ensures
        divides_all(d, values.take(i + 1)) <==> divides_all(d, values.take(i)) && divides(
            d,
            values[i],
        ),
{
    let more = values.take(i + 1);
    let fewer = values.take(i);
    if divides_all(d, more) {
        assert(more[i] == values[i]);
        assert forall|j: int| 0 <= j < fewer.len() implies divides(d, #[trigger] fewer[j]) by {
            assert(more[j] == fewer[j]);
        }
    }
    if divides_all(d, fewer) && divides(d, values[i]) {
        assert forall|j: int| 0 <= j < more.len() implies divides(d, #[trigger] more[j]) by {
            if j < i {
                assert(fewer[j] == more[j]);
            }
        }
    }
}

} // verus!
