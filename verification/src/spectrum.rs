//! Spectra: ordered lists of eigenvalue candidates with a cache of
//! condition results.

use crate::arithmetic::absolute;
use crate::limbs::Sign;
use vstd::prelude::*;

verus! {

/// The number of units that make 1: eigenvalues have seven decimals.
pub const UNIT: i64 = 10_000_000;

/// Two eigenvalues closer than this many units count as equal (0.00001).
pub const TOLERANCE: i64 = 100;

/// A candidate spectrum. Entry 0 is the anchoring eigenvalue, which the
/// search never perturbs; the flags cache the results of the most recent
/// evaluation of the conditions and are no part of the spectrum's value.
#[derive(Debug)]
pub struct Spectrum {
    eigenvalues: Vec<i64>,
    conditions: Vec<bool>,
}

/// The mathematical integers that a list of machine eigenvalues holds.
pub open spec fn as_ints(values: Seq<i64>) -> Seq<int> {
    values.map_values(|v: i64| v as int)
}

/// What one perturbation makes of a list of eigenvalues: entry `i` moves by
/// `amount` unless that would take it above 1, in which case nothing
/// changes. Moves that end at or below 1 are never refused, however far
/// down they lead.
pub open spec fn perturbed(values: Seq<int>, i: int, amount: int) -> Seq<int> {
    if perturbation_accepted(values, i, amount) {
        values.update(i, values[i] + amount)
    } else {
        values
    }
}

/// Whether moving entry `i` by `amount` keeps it at or below 1.
pub open spec fn perturbation_accepted(values: Seq<int>, i: int, amount: int) -> bool {
    values[i] + amount <= UNIT
}

/// Two eigenvalues differ by less than the tolerance.
pub open spec fn close(a: int, b: int) -> bool {
    absolute(a - b) < TOLERANCE
}

/// Two lists of eigenvalues count as equal: they have the same length and
/// every pair of entries in the same place is close.
pub open spec fn alike(a: Seq<int>, b: Seq<int>) -> bool {
    a.len() == b.len() && forall|i: int| 0 <= i < a.len() ==> close(#[trigger] a[i], b[i])
}

/// `d` is the first place where the two lists are apart: their entries
/// there are not close, and all entries before are.
pub open spec fn first_apart(a: Seq<int>, b: Seq<int>, d: int) -> bool {
    0 <= d < a.len() && !close(a[d], b[d]) && forall|q: int|
        0 <= q < d ==> close(#[trigger] a[q], b[q])
}

/// `a` comes before `b`: they have the same length, and at the first place
/// where they are apart the entry of `a` is the smaller.
pub open spec fn comes_before(a: Seq<int>, b: Seq<int>) -> bool {
    a.len() == b.len() && exists|d: int| #[trigger] first_apart(a, b, d) && a[d] < b[d]
}

/// How two lists of eigenvalues compare entry by entry from the front,
/// entries that are close counting as equal: minus where `a` comes first,
/// plus where `b` does, zero where the two are alike. Lists of different
/// lengths do not compare.
pub open spec fn tolerant_order(a: Seq<int>, b: Seq<int>) -> Option<Sign> {
    if a.len() != b.len() {
        None
    } else if comes_before(a, b) {
        Some(Sign::Minus)
    } else if comes_before(b, a) {
        Some(Sign::Plus)
    } else {
        Some(Sign::Zero)
    }
}

/// Where two lists of one length are first apart at `d`, the smaller entry
/// there decides their order, and they are not alike.
pub proof fn lemma_order_where_apart(a: Seq<int>, b: Seq<int>, d: int)
    requires
        a.len() == b.len(),
        first_apart(a, b, d),
    ensures
        !alike(a, b),
        a[d] != b[d],
        tolerant_order(a, b) == Some(
            if a[d] < b[d] {
                Sign::Minus
            } else {
                Sign::Plus
            },
        ),
{
    assert forall|e: int| #[trigger] first_apart(a, b, e) implies e == d by {
        if e < d {
            assert(close(a[e], b[e]));
        } else if e > d {
            assert(close(a[d], b[d]));
        }
    }
    assert forall|e: int| #[trigger] first_apart(b, a, e) implies e == d by {
        if e < d {
            assert(close(a[e], b[e]));
        } else if e > d {
            assert(close(b[d], a[d]));
        }
    }
    assert(first_apart(b, a, d)) by {
        assert forall|q: int| 0 <= q < d implies close(#[trigger] b[q], a[q]) by {
            assert(close(a[q], b[q]));
        }
    }
}

/// Lists that are alike compare as equal, and only they do.
pub proof fn lemma_order_of_alike(a: Seq<int>, b: Seq<int>)
    ensures
        alike(a, b) <==> tolerant_order(a, b) == Some(Sign::Zero),
{
    if alike(a, b) {
        assert forall|e: int| !#[trigger] first_apart(a, b, e) by {
            if 0 <= e < a.len() {
                assert(close(a[e], b[e]));
            }
        }
        assert forall|e: int| !#[trigger] first_apart(b, a, e) by {
            if 0 <= e < a.len() {
                assert(close(a[e], b[e]));
            }
        }
    } else if a.len() == b.len() {
        let d = first_place_apart(a, b, a.len() as int);
        lemma_order_where_apart(a, b, d);
    }
}

/// The first place below `upto` where two lists that are not alike there
/// are apart.
proof fn first_place_apart(a: Seq<int>, b: Seq<int>, upto: int) -> (d: int)
    requires
        a.len() == b.len(),
        0 <= upto <= a.len(),
        exists|i: int| 0 <= i < upto && !close(#[trigger] a[i], b[i]),
    ensures
        first_apart(a, b, d),
    decreases upto,
{
    let i = choose|i: int| 0 <= i < upto && !close(#[trigger] a[i], b[i]);
    if exists|j: int| 0 <= j < i && !close(#[trigger] a[j], b[j]) {
        first_place_apart(a, b, i)
    } else {
        assert forall|q: int| 0 <= q < i implies close(#[trigger] a[q], b[q]) by {
            if !close(a[q], b[q]) {
                assert(exists|j: int| 0 <= j < i && !close(#[trigger] a[j], b[j]));
            }
        }
        i
    }
}

/// What a move does: where it is accepted, entry `i` moves by `amount` and
/// nothing else changes; where it is refused, nothing changes at all.
pub proof fn lemma_perturbed(values: Seq<int>, i: int, amount: int)
    requires
        0 <= i < values.len(),
    ensures
        perturbed(values, i, amount).len() == values.len(),
        forall|j: int|
            0 <= j < values.len() && j != i ==> #[trigger] perturbed(values, i, amount)[j]
                == values[j],
        values[i] + amount <= UNIT ==> perturbed(values, i, amount)[i] == values[i] + amount,
        values[i] + amount > UNIT ==> perturbed(values, i, amount) == values,
        (forall|j: int| 0 <= j < values.len() ==> #[trigger] values[j] <= UNIT) ==> (forall|j: int|
            0 <= j < values.len() ==> #[trigger] perturbed(values, i, amount)[j] <= UNIT),
{
}

/// The distance of an eigenvalue from zero.
pub fn distance(value: i64) -> (size: u64)
    ensures
        size == absolute(value as int),
{
    if value < 0 {
        (-(value + 1)) as u64 + 1
    } else {
        value as u64
    }
}

/// Whether two eigenvalues differ by less than the tolerance.
pub fn approx_equal(term1: i64, term2: i64) -> (r: bool)
    ensures
        r == close(term1 as int, term2 as int),
{
    let difference: i128 = term1 as i128 - term2 as i128;
    if difference < 0 {
        -difference < TOLERANCE as i128
    } else {
        difference < TOLERANCE as i128
    }
}

/// A move downwards from an eigenvalue that is at most 1 is always
/// accepted, however far it leads.
pub proof fn lemma_step_down_is_accepted(values: Seq<int>, i: int, amount: int)
    requires
        0 <= i < values.len(),
        values[i] <= UNIT,
        amount <= 0,
    ensures
        perturbation_accepted(values, i, amount),
        perturbed(values, i, amount) == values.update(i, values[i] + amount),
{
}

impl View for Spectrum {
    type V = Seq<int>;

    closed spec fn view(&self) -> Seq<int> {
        as_ints(self.eigenvalues@)
    }
}

impl Spectrum {
    /// The cached condition results, one per slot.
    pub closed spec fn flags(&self) -> Seq<bool> {
        self.conditions@
    }

    /// A spectrum of `length` copies of `element`, with `num_conditions`
    /// cleared flags.
    pub fn from_element(length: usize, element: i64, num_conditions: usize) -> (s: Spectrum)
        ensures
            s@ == Seq::new(length as nat, |i: int| element as int),
            s.flags() == Seq::new(num_conditions as nat, |i: int| false),
    {
        let mut eigenvalues: Vec<i64> = Vec::new();
        let mut i: usize = 0;
        while i < length
            invariant
                i <= length,
                eigenvalues@ == Seq::new(i as nat, |k: int| element),
            decreases length - i,
        {
            eigenvalues.push(element);
            i += 1;
        }
        let s = Spectrum { eigenvalues, conditions: cleared_flags(num_conditions) };
        assert(s@ =~= Seq::new(length as nat, |i: int| element as int));
        s
    }

    /// The spectrum of the given eigenvalues, with `num_conditions` cleared
    /// flags.
    pub fn from_vec(eigenvalues: Vec<i64>, num_conditions: usize) -> (s: Spectrum)
        ensures
            s@ == as_ints(eigenvalues@),
            s.flags() == Seq::new(num_conditions as nat, |i: int| false),
    {
        Spectrum { eigenvalues, conditions: cleared_flags(num_conditions) }
    }

    /// The number of eigenvalues.
    pub fn len(&self) -> (n: usize)
        ensures
            n == self@.len(),
    {
        self.eigenvalues.len()
    }

    /// Eigenvalue `i`.
    pub fn get(&self, i: usize) -> (v: i64)
        requires
            i < self@.len(),
        ensures
            v == self@[i as int],
    {
        self.eigenvalues[i]
    }

    /// Overwrites eigenvalue `i`.
    pub fn set(&mut self, i: usize, value: i64)
        requires
            i < old(self)@.len(),
        ensures
            final(self)@ == old(self)@.update(i as int, value as int),
            final(self).flags() == old(self).flags(),
    {
        self.eigenvalues.set(i, value);
        assert(self@ =~= old(self)@.update(i as int, value as int));
    }

    /// The number of flag slots.
    pub fn num_conditions(&self) -> (n: usize)
        ensures
            n == self.flags().len(),
    {
        self.conditions.len()
    }

    /// Flag `i` of the cache.
    pub fn condition(&self, i: usize) -> (b: bool)
        requires
            i < self.flags().len(),
        ensures
            b == self.flags()[i as int],
    {
        self.conditions[i]
    }

    /// Overwrites flag `i` of the cache.
    pub fn set_condition(&mut self, i: usize, value: bool)
        requires
            i < old(self).flags().len(),
        ensures
            final(self).flags() == old(self).flags().update(i as int, value),
            final(self)@ == old(self)@,
    {
        self.conditions.set(i, value);
    }

    /// Moves eigenvalue `i` by `amount` if the result is at most 1, and
    /// says whether it did. There is no lower limit.
    pub fn change_eigenvalue(&mut self, i: usize, amount: i64) -> (ok: bool)
        requires
            i < old(self)@.len(),
            old(self)@[i as int] + amount >= i64::MIN,
        ensures
            ok == perturbation_accepted(old(self)@, i as int, amount as int),
            final(self)@ == perturbed(old(self)@, i as int, amount as int),
            final(self).flags() == old(self).flags(),
    {
        let current: i64 = self.eigenvalues[i];
        let moved: i128 = current as i128 + amount as i128;
        if moved <= UNIT as i128 {
            self.eigenvalues.set(i, moved as i64);
            assert(self@ =~= old(self)@.update(i as int, old(self)@[i as int] + amount));
            true
        } else {
            false
        }
    }

    /// Whether the two spectra count as equal: same length, and every
    /// pair of eigenvalues closer than the tolerance. The flags play no
    /// part.
    pub fn equals(&self, other: &Spectrum) -> (r: bool)
        ensures
            r == alike(self@, other@),
    {
        if self.len() != other.len() {
            return false;
        }
        let n = self.len();
        let mut i: usize = 0;
        while i < n
            invariant
                i <= n,
                n == self@.len(),
                n == other@.len(),
                forall|j: int| 0 <= j < i ==> close(#[trigger] self@[j], other@[j]),
            decreases n - i,
        {
            if !approx_equal(self.get(i), other.get(i)) {
                assert(!close(self@[i as int], other@[i as int]));
                return false;
            }
            i += 1;
        }
        true
    }

    /// How the two spectra compare entry by entry from the front, with
    /// eigenvalues closer than the tolerance counting as equal.
    pub fn order(&self, other: &Spectrum) -> (r: Option<Sign>)
        ensures
            r == tolerant_order(self@, other@),
            r == Some(Sign::Zero) <==> alike(self@, other@),
    {
        proof {
            lemma_order_of_alike(self@, other@);
        }
        if self.len() != other.len() {
            return None;
        }
        let n = self.len();
        let mut i: usize = 0;
        while i < n
            invariant
                i <= n,
                n == self@.len(),
                n == other@.len(),
                forall|j: int| 0 <= j < i ==> close(#[trigger] self@[j], other@[j]),
            decreases n - i,
        {
            let mine = self.get(i);
            let theirs = other.get(i);
            if !approx_equal(mine, theirs) {
                proof {
                    lemma_order_where_apart(self@, other@, i as int);
                }
                if mine < theirs {
                    return Some(Sign::Minus);
                }
                return Some(Sign::Plus);
            }
            i += 1;
        }
        assert(alike(self@, other@));
        Some(Sign::Zero)
    }

    /// Whether `self` comes before `other`.
    pub fn less_than(&self, other: &Spectrum) -> (r: bool)
        ensures
            r == comes_before(self@, other@),
    {
        match self.order(other) {
            Some(Sign::Minus) => true,
            _ => false,
        }
    }

}

impl Clone for Spectrum {
    /// An independent copy, flags included.
    fn clone(&self) -> (copy: Spectrum)
        ensures
            copy@ == self@,
            copy.flags() == self.flags(),
    {
        Spectrum { eigenvalues: self.eigenvalues.clone(), conditions: self.conditions.clone() }
    }
}

/// `count` flags, all false.
fn cleared_flags(count: usize) -> (flags: Vec<bool>)
    ensures
        flags@ == Seq::new(count as nat, |i: int| false),
{
    let mut flags: Vec<bool> = Vec::new();
    let mut i: usize = 0;
    while i < count
        invariant
            i <= count,
            flags@ == Seq::new(i as nat, |k: int| false),
        decreases count - i,
    {
        flags.push(false);
        i += 1;
    }
    flags
}

} // verus!
