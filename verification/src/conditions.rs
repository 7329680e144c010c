//! The necessary conditions that a spectrum is tested against, stated over
//! the integers and decided exactly.
//!
//! An eigenvalue `v` stands for the number `v / UNIT`. The `k`-th moment of
//! a spectrum is the sum of the `k`-th powers of its eigenvalues, which is
//! `power_sum(values, k)` divided by the `k`-th power of `UNIT`. Each
//! condition below is the inequality between those numbers, multiplied
//! through by the positive denominators.

use crate::arithmetic::{
    divides, divides_all, is_gcd, is_gcd_of_pair, lemma_divides_absolute,
    lemma_divides_leaves_nothing, lemma_divides_one_more, lemma_divides_zero_and_self,
    lemma_remainder_keeps_divisors, lemma_power_adds, lemma_power_of_power, lemma_power_of_product, lemma_power_positive,
    lemma_sum_of_copies, lemma_sum_scales, power, scaled, sum,
};
use crate::integer::{integer_values, Integer};
use crate::limbs::Sign;
use crate::polynomial::{characteristic, lemma_characteristic_len, Polynomial};
use crate::spectrum::{as_ints, distance, Spectrum, TOLERANCE, UNIT};
use vstd::arithmetic::div_mod::lemma_fundamental_div_mod;
use vstd::prelude::*;

verus! {

/// The `k`-th power of every entry.
pub open spec fn powers_of(values: Seq<int>, k: nat) -> Seq<int> {
    Seq::new(values.len(), |i: int| power(values[i], k))
}

/// The sum of the `k`-th powers of the entries.
pub open spec fn power_sum(values: Seq<int>, k: nat) -> int {
    sum(powers_of(values, k))
}

/// The `k`-th moment is above -0.00001.
pub open spec fn moment_at(values: Seq<int>, k: nat) -> bool {
    power_sum(values, k) > -(TOLERANCE * power(UNIT as int, (k - 1) as nat))
}

/// The moment condition: every moment of order 1 up to `powers - 1` is
/// above -0.00001.
pub open spec fn moment_holds(values: Seq<int>, powers: nat) -> bool {
    forall|k: nat| 1 <= k < powers ==> #[trigger] moment_at(values, k)
}

/// The `m`-th power of the `k`-th moment is at most the moment of order
/// `k * m` times the `m - 1`-st power of the number of eigenvalues.
pub open spec fn jll_at(values: Seq<int>, m: nat, k: nat) -> bool {
    power(power_sum(values, k), m) <= power(values.len() as int, (m - 1) as nat) * power_sum(
        values,
        k * m,
    )
}

/// The JLL condition: `jll_at` for every pair of orders from 1 up to
/// `powers - 1`.
pub open spec fn jll_holds(values: Seq<int>, powers: nat) -> bool {
    forall|m: nat, k: nat| 1 <= m < powers && 1 <= k < powers ==> #[trigger] jll_at(values, m, k)
}

/// The TAAMP condition on the coefficients 1, 2 and 3 of the
/// characteristic polynomial, with `n` the number of its coefficients. It
/// binds spectra of four or more eigenvalues; a shorter spectrum meets it.
///
/// With `k1`, `k2`, `k3` the coefficients of the polynomial in the
/// eigenvalues themselves, the condition fails if `k1 > 0` or if
/// `k2 > (n-1)/(2n) k1^2`. Otherwise, if `(n-1)(n-4)/(2(n-2)^2) k1^2 < k2`,
/// it asks for
/// `k3 <= (n-2)/n (k1 k2 + (n-1)/(3n) (k1^2 - (2n k2/(n-1))^1.5 - k1^3))`,
/// and else for `k3 <= k1 k2 - (n-1)(n-3)/(3(n-2)^2) k1^3`. Here all three
/// are cleared of denominators, and the power 1.5 is removed by comparing
/// squares, the side that carries it being positive.
pub open spec fn taamp_holds(values: Seq<int>) -> bool {
    if values.len() < 4 {
        true
    } else {
        let poly = characteristic(values);
        taamp_on(poly.len() as int, poly[1], poly[2], poly[3])
    }
}

/// The TAAMP condition on given coefficients.
pub open spec fn taamp_on(n: int, c1: int, c2: int, c3: int) -> bool {
    let square = c1 * c1;
    let cube = square * c1;
    let shrunk = (n - 2) * (n - 2);
    if c1 > 0 {
        false
    } else if (2 * n) * c2 > (n - 1) * square {
        false
    } else if ((n - 1) * (n - 4)) * square < (2 * shrunk) * c2 {
        let rest = (n - 2) * ((3 * n) * (c1 * c2) + (n - 1) * (UNIT * square - cube)) - (3 * (n
            * n)) * c3;
        let root = (2 * n) * c2;
        rest >= 0 && shrunk * ((root * root) * root) <= (n - 1) * (rest * rest)
    } else {
        (3 * shrunk) * c3 <= (3 * shrunk) * (c1 * c2) - ((n - 1) * (n - 3)) * cube
    }
}

/// What the search asks of a spectrum: one of the three conditions, the
/// first two up to order 9.
pub open spec fn passes_any(values: Seq<int>) -> bool {
    moment_holds(values, 10) || jll_holds(values, 10) || taamp_holds(values)
}

/// The flags of a spectrum of the given eigenvalues once the search has
/// tested it: the first three hold the results of the moment, JLL and TAAMP
/// conditions, the others are as they were.
pub open spec fn recorded(flags: Seq<bool>, values: Seq<int>) -> Seq<bool> {
    flags.update(0, moment_holds(values, 10)).update(1, jll_holds(values, 10)).update(
        2,
        taamp_holds(values),
    )
}

/// Testing a spectrum overwrites what an earlier test recorded.
pub proof fn lemma_recorded_again(flags: Seq<bool>, earlier: Seq<int>, later: Seq<int>)
    requires
        flags.len() >= 3,
    ensures
        recorded(recorded(flags, earlier), later) == recorded(flags, later),
{
    assert(recorded(recorded(flags, earlier), later) =~= recorded(flags, later));
}

/// What the validation of one spectrum asks: all three conditions, the
/// first two up to order 99.
pub open spec fn passes_all(values: Seq<int>) -> bool {
    moment_holds(values, 100) && jll_holds(values, 100) && taamp_holds(values)
}

/// The spectrum of `count` eigenvalues 1.
pub open spec fn all_ones(count: nat) -> Seq<int> {
    Seq::new(count, |i: int| UNIT as int)
}

/// Every moment of the spectrum of `count` ones is `count`: its power sum
/// of order `k` is `count` times the `k`-th power of `UNIT`.
pub proof fn lemma_moments_of_ones(count: nat, k: nat)
    ensures
        power_sum(all_ones(count), k) == count * power(UNIT as int, k),
{
    let ones = all_ones(count);
    let term = power(UNIT as int, k);
    assert(powers_of(ones, k) =~= Seq::new(count, |i: int| term));
    lemma_sum_of_copies(count, term);
}

/// The spectrum of `count` ones meets the moment condition up to any
/// order.
pub proof fn lemma_ones_meet_moment_condition(count: nat, powers: nat)
    ensures
        moment_holds(all_ones(count), powers),
{
    let ones = all_ones(count);
    assert forall|k: nat| 1 <= k < powers implies #[trigger] moment_at(ones, k) by {
        lemma_moments_of_ones(count, k);
        lemma_power_positive(UNIT as int, k);
        lemma_power_positive(UNIT as int, (k - 1) as nat);
        let high = power(UNIT as int, k);
        let low = power(UNIT as int, (k - 1) as nat);
        assert(count * high >= 0 && TOLERANCE * low > 0) by (nonlinear_arith)
            requires
                high > 0,
                low > 0,
                count >= 0,
                TOLERANCE == 100,
        ;
    }
}

/// The spectrum of `count` ones meets the JLL condition up to any order,
/// each pair of orders with equality.
pub proof fn lemma_ones_meet_jll(count: nat, powers: nat)
    ensures
        jll_holds(all_ones(count), powers),
        forall|m: nat, k: nat|
            1 <= m && 1 <= k ==> #[trigger] power(power_sum(all_ones(count), k), m) == power(
                count as int,
                (m - 1) as nat,
            ) * power_sum(all_ones(count), k * m),
{
    let ones = all_ones(count);
    assert forall|m: nat, k: nat| 1 <= m && 1 <= k implies #[trigger] power(
        power_sum(ones, k),
        m,
    ) == power(count as int, (m - 1) as nat) * power_sum(ones, k * m) by {
        lemma_moments_of_ones(count, k);
        lemma_moments_of_ones(count, k * m);
        lemma_power_of_product(count as int, power(UNIT as int, k), m);
        lemma_power_of_power(UNIT as int, k, m);
        let scale = power(UNIT as int, k * m);
        let less = power(count as int, (m - 1) as nat);
        assert((count * less) * scale == less * (count * scale)) by (nonlinear_arith);
    }
    assert forall|m: nat, k: nat| 1 <= m < powers && 1 <= k < powers implies #[trigger] jll_at(
        ones,
        m,
        k,
    ) by {
        assert(power(power_sum(ones, k), m) == power(count as int, (m - 1) as nat) * power_sum(
            ones,
            k * m,
        ));
        assert(ones.len() == count);
    }
}

/// Scaling the eigenvalues scales the power sum of order `k` by the `k`-th
/// power of the factor.
pub proof fn lemma_power_sum_scales(values: Seq<int>, factor: int, k: nat)
    ensures
        power_sum(scaled(values, factor), k) == power(factor, k) * power_sum(values, k),
{
    let left = powers_of(scaled(values, factor), k);
    let right = scaled(powers_of(values, k), power(factor, k));
    assert forall|i: int| 0 <= i < values.len() implies left[i] == right[i] by {
        lemma_power_of_product(factor, values[i], k);
    }
    assert(left =~= right);
    lemma_sum_scales(powers_of(values, k), power(factor, k));
}

/// The JLL condition does not change when every eigenvalue is scaled by
/// the same positive factor.
pub proof fn lemma_jll_scales(values: Seq<int>, factor: int, powers: nat)
    requires
        factor > 0,
    ensures
        jll_holds(scaled(values, factor), powers) == jll_holds(values, powers),
{
    let larger = scaled(values, factor);
    assert forall|m: nat, k: nat| 1 <= m && 1 <= k implies #[trigger] jll_at(larger, m, k)
        == jll_at(values, m, k) by {
        lemma_power_sum_scales(values, factor, k);
        lemma_power_sum_scales(values, factor, k * m);
        lemma_power_of_product(power(factor, k), power_sum(values, k), m);
        lemma_power_of_power(factor, k, m);
        lemma_power_positive(factor, k * m);
        let gain = power(factor, k * m);
        let left = power(power_sum(values, k), m);
        let count = power(values.len() as int, (m - 1) as nat);
        let right = power_sum(values, k * m);
        assert((gain * left <= count * (gain * right)) == (left <= count * right))
            by (nonlinear_arith)
            requires
                gain > 0,
        ;
    }
    if jll_holds(values, powers) {
        assert forall|m: nat, k: nat| 1 <= m < powers && 1 <= k < powers implies #[trigger] jll_at(
            larger,
            m,
            k,
        ) by {
            assert(jll_at(values, m, k));
        }
    }
    if jll_holds(larger, powers) {
        assert forall|m: nat, k: nat| 1 <= m < powers && 1 <= k < powers implies #[trigger] jll_at(
            values,
            m,
            k,
        ) by {
            assert(jll_at(larger, m, k));
        }
    }
}

/// The greatest common divisor of two numbers, by repeated remainders.
fn common_measure(first: u64, second: u64) -> (g: u64)
    ensures
        is_gcd_of_pair(g as int, first as int, second as int),
{
    let mut a: u64 = first;
    let mut b: u64 = second;
    while b != 0
        invariant
            forall|d: int|
                (divides(d, a as int) && divides(d, b as int)) <==> (#[trigger] divides(
                    d,
                    first as int,
                ) && divides(d, second as int)),
        decreases b,
    {
        let rest = a % b;
        proof {
            assert forall|d: int|
                (divides(d, b as int) && divides(d, rest as int)) <==> (#[trigger] divides(
                    d,
                    first as int,
                ) && divides(d, second as int)) by {
                lemma_remainder_keeps_divisors(a as int, b as int, d);
            }
        }
        a = b;
        b = rest;
    }
    proof {
        assert forall|d: int| #[trigger]
            divides(d, a as int) <==> divides(d, first as int) && divides(d, second as int) by {
            lemma_divides_zero_and_self(d);
        }
    }
    a
}

/// The eigenvalues divided by their greatest common divisor, with that
/// divisor, where it is 2 or more. Where it is 1 there is nothing to take
/// out, and where it is 0 every eigenvalue is zero: nothing is returned.
fn shortened_by_divisor(spectrum: &Spectrum) -> (result: Option<(Vec<i64>, u64)>)
    ensures
        match result {
            Some((parts, divisor)) => divisor >= 2 && is_gcd(divisor as int, spectrum@)
                && spectrum@ == scaled(as_ints(parts@), divisor as int),
            None => exists|g: int| 0 <= g < 2 && #[trigger] is_gcd(g, spectrum@),
        },
{
    let n = spectrum.len();
    let mut divisor: u64 = 0;
    let mut i: usize = 0;
    proof {
        assert forall|d: int| #[trigger]
            divides(d, divisor as int) <==> divides_all(d, spectrum@.take(0)) by {
            lemma_divides_zero_and_self(d);
        }
    }
    while i < n
        invariant
            i <= n,
            n == spectrum@.len(),
            forall|d: int| #[trigger]
                divides(d, divisor as int) <==> divides_all(d, spectrum@.take(i as int)),
        decreases n - i,
    {
        let size = distance(spectrum.get(i));
        let joint = common_measure(divisor, size);
        proof {
            assert forall|d: int| #[trigger]
                divides(d, joint as int) <==> divides_all(d, spectrum@.take(i + 1)) by {
                lemma_divides_absolute(d, spectrum@[i as int]);
                lemma_divides_one_more(d, spectrum@, i as int);
                assert(divides(d, divisor as int) <==> divides_all(d, spectrum@.take(i as int)));
            }
        }
        divisor = joint;
        i += 1;
    }
    proof {
        assert(spectrum@.take(n as int) =~= spectrum@);
        assert(is_gcd(divisor as int, spectrum@));
    }
    if divisor < 2 {
        return None;
    }
    proof {
        lemma_divides_zero_and_self(divisor as int);
    }
    let mut parts: Vec<i64> = Vec::new();
    i = 0;
    while i < n
        invariant
            i <= n,
            n == spectrum@.len(),
            divisor >= 2,
            divides_all(divisor as int, spectrum@),
            parts@.len() == i,
            forall|j: int| 0 <= j < i ==> spectrum@[j] == divisor * #[trigger] parts@[j],
        decreases n - i,
    {
        let value = spectrum.get(i);
        let size = distance(value);
        let share: u64 = size / divisor;
        proof {
            assert(divides(divisor as int, spectrum@[i as int]));
            lemma_divides_absolute(divisor as int, value as int);
            lemma_divides_leaves_nothing(divisor as int, size as int);
            lemma_fundamental_div_mod(size as int, divisor as int);
            assert(2 * share <= size) by (nonlinear_arith)
                requires
                    size == divisor * share,
                    divisor >= 2,
                    share >= 0,
            ;
            assert(divisor * (-share) == -(divisor * share)) by (nonlinear_arith);
        }
        let part: i64 = if value < 0 {
            -(share as i64)
        } else {
            share as i64
        };
        parts.push(part);
        i += 1;
    }
    assert(spectrum@ =~= scaled(as_ints(parts@), divisor as int));
    Some((parts, divisor))
}

/// The eigenvalues of a spectrum as integers of any size.
fn integers_of(spectrum: &Spectrum) -> (items: Vec<Integer>)
    ensures
        integer_values(items@) == spectrum@,
{
    let n = spectrum.len();
    let mut items: Vec<Integer> = Vec::new();
    let mut i: usize = 0;
    while i < n
        invariant
            i <= n,
            n == spectrum@.len(),
            items@.len() == i,
            forall|j: int| 0 <= j < i ==> items@[j]@ == spectrum@[j],
        decreases n - i,
    {
        items.push(Integer::from_i64(spectrum.get(i)));
        i += 1;
    }
    assert(integer_values(items@) =~= spectrum@);
    items
}

/// `count` ones.
fn ones(count: usize) -> (items: Vec<Integer>)
    ensures
        integer_values(items@) == Seq::new(count as nat, |i: int| 1int),
{
    let mut items: Vec<Integer> = Vec::new();
    let mut i: usize = 0;
    while i < count
        invariant
            i <= count,
            items@.len() == i,
            forall|j: int| 0 <= j < i ==> items@[j]@ == 1,
        decreases count - i,
    {
        items.push(Integer::from_i64(1));
        i += 1;
    }
    assert(integer_values(items@) =~= Seq::new(count as nat, |i: int| 1int));
    items
}

/// A copy of every entry.
fn duplicates(items: &Vec<Integer>) -> (copies: Vec<Integer>)
    ensures
        integer_values(copies@) == integer_values(items@),
{
    let n = items.len();
    let mut copies: Vec<Integer> = Vec::new();
    let mut i: usize = 0;
    while i < n
        invariant
            i <= n,
            n == items@.len(),
            copies@.len() == i,
            forall|j: int| 0 <= j < i ==> copies@[j]@ == items@[j]@,
        decreases n - i,
    {
        copies.push(items[i].clone());
        i += 1;
    }
    assert(integer_values(copies@) =~= integer_values(items@));
    copies
}

/// Multiplies every entry of `current` by the entry of `factors` in its
/// place.
fn raise_all(current: &mut Vec<Integer>, factors: &Vec<Integer>)
    requires
        old(current)@.len() == factors@.len(),
    ensures
        final(current)@.len() == factors@.len(),
        forall|j: int|
            0 <= j < factors@.len() ==> (#[trigger] final(current)@[j])@ == factors@[j]@ * old(
                current,
            )@[j]@,
{
    let n = factors.len();
    let mut i: usize = 0;
    while i < n
        invariant
            i <= n,
            n == factors@.len(),
            current@.len() == n,
            forall|j: int| 0 <= j < i ==> (#[trigger] current@[j])@ == factors@[j]@ * old(current)@[j]@,
            forall|j: int| i <= j < n ==> current@[j] == old(current)@[j],
        decreases n - i,
    {
        let raised = factors[i].times(&current[i]);
        current.set(i, raised);
        i += 1;
    }
}

/// The sum of the entries.
fn total(terms: &Vec<Integer>) -> (r: Integer)
    ensures
        r@ == sum(integer_values(terms@)),
{
    let ghost values = integer_values(terms@);
    let n = terms.len();
    let mut r = Integer::zero();
    let mut i: usize = 0;
    assert(values.take(0) =~= Seq::<int>::empty());
    while i < n
        invariant
            i <= n,
            n == terms@.len(),
            values == integer_values(terms@),
            r@ == sum(values.take(i as int)),
        decreases n - i,
    {
        proof {
            let upto = values.take(i + 1);
            assert(upto.drop_last() =~= values.take(i as int));
            assert(upto.last() == terms@[i as int]@);
        }
        r = r.plus(&terms[i]);
        i += 1;
    }
    assert(values.take(n as int) =~= values);
    r
}

impl Spectrum {
    /// The sum of the `k`-th powers of the eigenvalues: the `k`-th moment
    /// times the `k`-th power of `UNIT`.
    pub fn moment(&self, k: usize) -> (m: Integer)
        ensures
            m@ == power_sum(self@, k as nat),
    {
        let n = self.len();
        let bases = integers_of(self);
        let mut current = ones(n);
        let mut j: usize = 0;
        assert(bases@.len() == integer_values(bases@).len());
        assert(current@.len() == integer_values(current@).len());
        assert(integer_values(current@) =~= powers_of(self@, 0));
        while j < k
            invariant
                j <= k,
                n == self@.len(),
                bases@.len() == n,
                current@.len() == n,
                integer_values(bases@) == self@,
                integer_values(current@) == powers_of(self@, j as nat),
            decreases k - j,
        {
            let ghost earlier = current@;
            raise_all(&mut current, &bases);
            assert(integer_values(current@) =~= powers_of(self@, (j + 1) as nat)) by {
                assert forall|i: int| 0 <= i < n implies integer_values(current@)[i] == power(
                    self@[i],
                    (j + 1) as nat,
                ) by {
                    assert(integer_values(earlier)[i] == power(self@[i], j as nat));
                    assert(integer_values(bases@)[i] == self@[i]);
                    assert(current@[i]@ == bases@[i]@ * earlier[i]@);
                }
            }
            j += 1;
        }
        total(&current)
    }

    /// Decides the moment condition for the orders below `powers`.
    pub fn test_moment_condition(&self, powers: usize) -> (ok: bool)
        ensures
            ok == moment_holds(self@, powers as nat),
    {
        let n = self.len();
        let bases = integers_of(self);
        let unit = Integer::from_i64(UNIT);
        let mut current = ones(n);
        let mut bound = Integer::from_i64(TOLERANCE);
        let mut k: usize = 1;
        assert(bases@.len() == integer_values(bases@).len());
        assert(current@.len() == integer_values(current@).len());
        assert(integer_values(current@) =~= powers_of(self@, 0));
        assert(TOLERANCE * power(UNIT as int, 0) == TOLERANCE);
        while k < powers
            invariant
                1 <= k,
                n == self@.len(),
                bases@.len() == n,
                current@.len() == n,
                integer_values(bases@) == self@,
                unit@ == UNIT,
                integer_values(current@) == powers_of(self@, (k - 1) as nat),
                bound@ == TOLERANCE * power(UNIT as int, (k - 1) as nat),
                forall|j: nat| 1 <= j < k ==> #[trigger] moment_at(self@, j),
            decreases powers - k,
        {
            let ghost before = integer_values(current@);
            let ghost earlier = current@;
            raise_all(&mut current, &bases);
            assert(integer_values(current@) =~= powers_of(self@, k as nat)) by {
                assert forall|i: int| 0 <= i < n implies integer_values(current@)[i] == power(
                    self@[i],
                    k as nat,
                ) by {
                    assert(before[i] == power(self@[i], (k - 1) as nat));
                    assert(before[i] == earlier[i]@);
                    assert(integer_values(bases@)[i] == self@[i]);
                    assert(current@[i]@ == bases@[i]@ * earlier[i]@);
                }
            }
            let moment = total(&current);
            match moment.plus(&bound).sign() {
                Sign::Plus => {},
                _ => {
                    assert(!moment_at(self@, k as nat));
                    return false;
                },
            }
            bound = unit.times(&bound);
            proof {
                let p = power(UNIT as int, (k - 1) as nat);
                assert(UNIT * (TOLERANCE * p) == TOLERANCE * (UNIT * p)) by (nonlinear_arith);
            }
            k += 1;
        }
        true
    }

    /// Decides the JLL condition for the pairs of orders below `powers`.
    /// The condition does not depend on the scale of the eigenvalues, so a
    /// common divisor is taken out of them first.
    pub fn test_jll_condition(&self, powers: usize) -> (ok: bool)
        ensures
            ok == jll_holds(self@, powers as nat),
    {
        match shortened_by_divisor(self) {
            Some((parts, divisor)) => {
                let smaller = Spectrum::from_vec(parts, 0);
                proof {
                    lemma_jll_scales(smaller@, divisor as int, powers as nat);
                }
                smaller.decide_jll(powers)
            },
            None => self.decide_jll(powers),
        }
    }

    /// Decides the JLL condition on the eigenvalues as they are.
    fn decide_jll(&self, powers: usize) -> (ok: bool)
        ensures
            ok == jll_holds(self@, powers as nat),
    {
        let n = self.len();
        let size = Integer::from_u64(n as u64);
        let bases = integers_of(self);
        let mut roots = ones(n);
        let mut k: usize = 1;
        assert(bases@.len() == integer_values(bases@).len());
        assert(roots@.len() == integer_values(roots@).len());
        assert(integer_values(roots@) =~= powers_of(self@, 0));
        while k < powers
            invariant
                1 <= k,
                n == self@.len(),
                bases@.len() == n,
                roots@.len() == n,
                size@ == n,
                integer_values(bases@) == self@,
                integer_values(roots@) == powers_of(self@, (k - 1) as nat),
                forall|m: nat, j: nat|
                    1 <= m < powers && 1 <= j < k ==> #[trigger] jll_at(self@, m, j),
            decreases powers - k,
        {
            let ghost before = roots@;
            raise_all(&mut roots, &bases);
            assert(integer_values(roots@) =~= powers_of(self@, k as nat)) by {
                assert forall|i: int| 0 <= i < n implies integer_values(roots@)[i] == power(
                    self@[i],
                    k as nat,
                ) by {
                    assert(integer_values(before)[i] == power(self@[i], (k - 1) as nat));
                    assert(integer_values(bases@)[i] == self@[i]);
                    assert(roots@[i]@ == bases@[i]@ * before[i]@);
                }
            }
            let moment = total(&roots);
            let mut walk = duplicates(&roots);
            let mut left = moment.clone();
            let mut factor = Integer::from_i64(1);
            let mut m: usize = 1;
            proof {
                assert(walk@.len() == integer_values(walk@).len());
                assert(k * 1 == k) by (nonlinear_arith);
                assert(moment@ * 1 == moment@) by (nonlinear_arith);
                assert(power(moment@, 1) == moment@ * power(moment@, 0));
            }
            while m < powers
                invariant
                    1 <= m,
                    1 <= k < powers,
                    n == self@.len(),
                    roots@.len() == n,
                    walk@.len() == n,
                    size@ == n,
                    integer_values(roots@) == powers_of(self@, k as nat),
                    moment@ == power_sum(self@, k as nat),
                    integer_values(walk@) == powers_of(self@, (k * m) as nat),
                    left@ == power(moment@, m as nat),
                    factor@ == power(n as int, (m - 1) as nat),
                    forall|j: nat| 1 <= j < m ==> #[trigger] jll_at(self@, j, k as nat),
                decreases powers - m,
            {
                let right = factor.times(&total(&walk));
                assert((k as nat) * (m as nat) == (k * m) as nat) by (nonlinear_arith);
                if !left.at_most(&right) {
                    assert(!jll_at(self@, m as nat, k as nat));
                    return false;
                }
                let ghost earlier = walk@;
                raise_all(&mut walk, &roots);
                assert(integer_values(walk@) =~= powers_of(self@, (k * (m + 1)) as nat)) by {
                    assert(k + k * m == k * (m + 1)) by (nonlinear_arith);
                    assert forall|i: int| 0 <= i < n implies integer_values(walk@)[i] == power(
                        self@[i],
                        (k * (m + 1)) as nat,
                    ) by {
                        assert(integer_values(earlier)[i] == power(self@[i], (k * m) as nat));
                        assert(integer_values(roots@)[i] == power(self@[i], k as nat));
                        assert(walk@[i]@ == roots@[i]@ * earlier[i]@);
                        lemma_power_adds(self@[i], k as nat, (k * m) as nat);
                    }
                }
                left = moment.times(&left);
                factor = size.times(&factor);
                m += 1;
            }
            k += 1;
        }
        true
    }

    /// Decides the TAAMP condition.
    pub fn test_taamp_condition(&self) -> (ok: bool)
        ensures
            ok == taamp_holds(self@),
    {
        if self.len() < 4 {
            return true;
        }
        let poly = Polynomial::from_spectrum(self);
        proof {
            lemma_characteristic_len(self@);
        }
        let n = Integer::from_u64(poly.len() as u64);
        decide_taamp(&n, poly.get(1), poly.get(2), poly.get(3))
    }

    /// Evaluates the three conditions up to order 9, records their results
    /// in the first three flags, and says whether one of them holds.
    pub fn test_spectra_or(&mut self) -> (ok: bool)
        requires
            old(self).flags().len() >= 3,
        ensures
            ok == passes_any(old(self)@),
            final(self)@ == old(self)@,
            final(self).flags() == recorded(old(self).flags(), old(self)@),
    {
        let moment = self.test_moment_condition(10);
        let jll = self.test_jll_condition(10);
        let taamp = self.test_taamp_condition();
        self.set_condition(0, moment);
        self.set_condition(1, jll);
        self.set_condition(2, taamp);
        moment || jll || taamp
    }
}

/// Decides the TAAMP condition on given coefficients.
fn decide_taamp(n: &Integer, c1: &Integer, c2: &Integer, c3: &Integer) -> (ok: bool)
    ensures
        ok == taamp_on(n@, c1@, c2@, c3@),
{
    let one = Integer::from_i64(1);
    let two = Integer::from_i64(2);
    let three = Integer::from_i64(3);
    let four = Integer::from_i64(4);
    let square = c1.times(c1);
    let cube = square.times(c1);
    let below = n.minus(&one);
    let inner = n.minus(&two);
    let shrunk = inner.times(&inner);
    match c1.sign() {
        Sign::Plus => {
            return false;
        },
        _ => {},
    }
    let root = two.times(n).times(c2);
    if below.times(&square).less_than(&root) {
        return false;
    }
    let pair = c1.times(c2);
    if below.times(&n.minus(&four)).times(&square).less_than(&two.times(&shrunk).times(c2)) {
        let unit = Integer::from_i64(UNIT);
        let first = three.times(n).times(&pair);
        let second = below.times(&unit.times(&square).minus(&cube));
        let third = three.times(&n.times(n)).times(c3);
        let rest = inner.times(&first.plus(&second)).minus(&third);
        match rest.sign() {
            Sign::Minus => false,
            _ => shrunk.times(&root.times(&root).times(&root)).at_most(
                &below.times(&rest.times(&rest)),
            ),
        }
    } else {
        let scale = three.times(&shrunk);
        scale.times(c3).at_most(
            &scale.times(&pair).minus(&below.times(&n.minus(&three)).times(&cube)),
        )
    }
}

} // verus!
