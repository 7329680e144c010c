//! Polynomials with integer coefficients, highest degree first, and the
//! characteristic polynomial of a spectrum.
//!
//! The variable of a characteristic polynomial counts units, as the
//! eigenvalues do: its coefficient `j` is the coefficient of the polynomial
//! in the eigenvalues themselves times the `j`-th power of
//! `spectrum::UNIT`.

use crate::arithmetic::{absolute, sum};
use crate::decimal::{decimal, push_decimal};
use crate::integer::{integer_values, Integer};
use crate::limbs::Sign;
use crate::spectrum::{Spectrum, TOLERANCE};
use vstd::prelude::*;
use vstd::string::StringExecFns;

verus! {

/// A polynomial, as the list of its coefficients from the highest degree
/// down to the constant term.
#[derive(Debug)]
pub struct Polynomial {
    coefficients: Vec<Integer>,
}

/// Coefficient `k` of `p`, or 0 where `p` has none.
pub open spec fn coefficient(p: Seq<int>, k: int) -> int {
    if 0 <= k < p.len() {
        p[k]
    } else {
        0
    }
}

/// The sum of the products `a[t] * b[k - t]` over the first `rows`
/// positions `t` of `a`.
pub open spec fn convolution(a: Seq<int>, b: Seq<int>, k: int, rows: nat) -> int
    decreases rows,
{
    if rows == 0 {
        0
    } else {
        convolution(a, b, k, (rows - 1) as nat) + coefficient(a, rows - 1) * coefficient(
            b,
            k - (rows - 1),
        )
    }
}

/// The product of two polynomials: the convolution of their coefficients.
pub open spec fn product_of(a: Seq<int>, b: Seq<int>) -> Seq<int> {
    Seq::new((a.len() + b.len() - 1) as nat, |k: int| convolution(a, b, k, a.len()))
}

/// The product of `p` and the factor `x - root`.
pub open spec fn times_root(p: Seq<int>, root: int) -> Seq<int> {
    Seq::new(p.len() + 1, |k: int| coefficient(p, k) - root * coefficient(p, k - 1))
}

/// The characteristic polynomial of a list of eigenvalues: the product of
/// the factors `x - v` over its entries `v`.
pub open spec fn characteristic(values: Seq<int>) -> Seq<int>
    decreases values.len(),
{
    if values.len() == 0 {
        seq![1int]
    } else {
        times_root(characteristic(values.drop_last()), values.last())
    }
}

/// The derivative: one coefficient fewer, each the coefficient of a term
/// times the degree of that term. Coefficient `k` of `p` belongs to the
/// degree `p.len() - 1 - k`.
pub open spec fn derivative_of(p: Seq<int>) -> Seq<int> {
    Seq::new((p.len() - 1) as nat, |k: int| (p.len() - 1 - k) * p[k])
}

/// `a` comes before `b`: they have the same length, and at the first place
/// where they differ the entry of `a` is the smaller.
pub open spec fn precedes(a: Seq<int>, b: Seq<int>) -> bool {
    a.len() == b.len() && exists|p: int|
        0 <= p < a.len() && #[trigger] a[p] < b[p] && forall|q: int|
            0 <= q < p ==> #[trigger] a[q] == b[q]
}

/// How two lists of coefficients compare entry by entry from the front:
/// minus where `a` comes first, plus where `b` does, zero where they are
/// the same list. Lists of different lengths do not compare.
pub open spec fn lexicographic(a: Seq<int>, b: Seq<int>) -> Option<Sign> {
    if a.len() != b.len() {
        None
    } else if precedes(a, b) {
        Some(Sign::Minus)
    } else if precedes(b, a) {
        Some(Sign::Plus)
    } else {
        Some(Sign::Zero)
    }
}

/// A characteristic polynomial has one coefficient more than there are
/// eigenvalues.
pub proof fn lemma_characteristic_len(values: Seq<int>)
    ensures
        characteristic(values).len() == values.len() + 1,
    decreases values.len(),
{
    if values.len() > 0 {
        lemma_characteristic_len(values.drop_last());
    }
}

/// A characteristic polynomial starts with the coefficient 1, and its
/// next coefficient is minus the sum of the eigenvalues.
pub proof fn lemma_characteristic_head(values: Seq<int>)
    ensures
        characteristic(values)[0] == 1,
        coefficient(characteristic(values), 1) == -sum(values),
    decreases values.len(),
{
    if values.len() > 0 {
        lemma_characteristic_head(values.drop_last());
        lemma_characteristic_len(values.drop_last());
        lemma_characteristic_len(values);
        let before = characteristic(values.drop_last());
        assert(values.last() * 0 == 0) by (nonlinear_arith);
        assert(values.last() * 1 == values.last()) by (nonlinear_arith);
        assert(characteristic(values)[0] == coefficient(before, 0) - values.last() * coefficient(
            before,
            -1,
        ));
        assert(characteristic(values)[1] == coefficient(before, 1) - values.last() * coefficient(
            before,
            0,
        ));
    }
}

/// The part of the convolution with a factor `x - root` that the first
/// `rows` coefficients of `p` give.
proof fn lemma_convolution_with_factor(p: Seq<int>, root: int, k: int, rows: nat)
    requires
        rows <= p.len(),
    ensures
        convolution(p, seq![1int, -root], k, rows) == (if 0 <= k < rows {
            p[k]
        } else {
            0
        }) - root * (if 1 <= k <= rows {
            p[k - 1]
        } else {
            0
        }),
    decreases rows,
{
    let factor = seq![1int, -root];
    if rows == 0 {
        assert(root * 0 == 0) by (nonlinear_arith);
    } else {
        lemma_convolution_with_factor(p, root, k, (rows - 1) as nat);
        let t = rows - 1;
        let x = p[t];
        assert(coefficient(p, t) == x);
        assert(root * 0 == 0) by (nonlinear_arith);
        if k - t == 0 {
            assert(coefficient(factor, k - t) == 1);
            assert(x * 1 == x) by (nonlinear_arith);
        } else if k - t == 1 {
            assert(coefficient(factor, k - t) == -root);
            assert(x * (-root) == -(root * x)) by (nonlinear_arith);
        } else {
            assert(coefficient(factor, k - t) == 0);
            assert(x * 0 == 0) by (nonlinear_arith);
        }
    }
}

/// Multiplying by the factor `x - root` is the product with the polynomial
/// of the coefficients 1 and `-root`.
pub proof fn lemma_times_root_is_product(p: Seq<int>, root: int)
    ensures
        times_root(p, root) == product_of(p, seq![1int, -root]),
{
    let factor = seq![1int, -root];
    assert forall|k: int| 0 <= k < p.len() + 1 implies times_root(p, root)[k] == product_of(
        p,
        factor,
    )[k] by {
        lemma_convolution_with_factor(p, root, k, p.len());
        assert(root * 0 == 0) by (nonlinear_arith);
    }
    assert(times_root(p, root) =~= product_of(p, factor));
}

/// The text of one term: the sign of the coefficient and a blank, its
/// absolute value, `x^`, the exponent, and a blank.
pub open spec fn term_text(coefficient: int, exponent: nat) -> Seq<char> {
    (if coefficient >= 0 {
        "+ "@
    } else {
        "- "@
    }) + decimal(absolute(coefficient) as nat) + "x^"@ + decimal(exponent) + " "@
}

/// The text of the first `count` terms of `p`, from the highest degree
/// down.
pub open spec fn terms_text(p: Seq<int>, count: int) -> Seq<char>
    decreases count,
{
    if count <= 0 {
        Seq::empty()
    } else {
        terms_text(p, count - 1) + term_text(p[count - 1], (p.len() - count) as nat)
    }
}

/// Whether two coefficients differ by less than the tolerance, both taken
/// as numbers of units. That is the scale of coefficient 1 of a
/// characteristic polynomial; coefficient `j` is in units to the power
/// `j`, for which the same bound stands for a smaller or larger number.
pub fn approx_equal(term1: &Integer, term2: &Integer) -> (r: bool)
    ensures
        r == (absolute(term1@ - term2@) < TOLERANCE),
{
    let gap = term1.minus(term2).magnitude();
    gap.less_than(&Integer::from_i64(TOLERANCE))
}

impl View for Polynomial {
    type V = Seq<int>;

    closed spec fn view(&self) -> Seq<int> {
        integer_values(self.coefficients@)
    }
}

impl Polynomial {
    /// The polynomial of `polynomial_length` coefficients, all `element`.
    pub fn from_element(polynomial_length: usize, element: Integer) -> (p: Polynomial)
        ensures
            p@ == Seq::new(polynomial_length as nat, |k: int| element@),
    {
        let mut coefficients: Vec<Integer> = Vec::new();
        let mut i: usize = 0;
        while i < polynomial_length
            invariant
                i <= polynomial_length,
                coefficients@.len() == i,
                forall|k: int| 0 <= k < i ==> coefficients@[k]@ == element@,
            decreases polynomial_length - i,
        {
            coefficients.push(element.clone());
            i += 1;
        }
        let p = Polynomial { coefficients };
        assert(p@ =~= Seq::new(polynomial_length as nat, |k: int| element@));
        p
    }

    /// The polynomial with the given coefficients.
    pub fn from_vec(coefficients: Vec<Integer>) -> (p: Polynomial)
        ensures
            p@ == integer_values(coefficients@),
    {
        Polynomial { coefficients }
    }

    /// The characteristic polynomial of a spectrum.
    pub fn from_spectrum(spectrum: &Spectrum) -> (p: Polynomial)
        ensures
            p@ == characteristic(spectrum@),
    {
        let mut coefficients: Vec<Integer> = Vec::new();
        coefficients.push(Integer::from_i64(1));
        let mut poly = Polynomial { coefficients };
        assert(poly@ =~= seq![1int]);
        let n = spectrum.len();
        let mut i: usize = 0;
        assert(spectrum@.take(0) =~= Seq::<int>::empty());
        while i < n
            invariant
                i <= n,
                n == spectrum@.len(),
                poly@ == characteristic(spectrum@.take(i as int)),
            decreases n - i,
        {
            let root = Integer::from_i64(spectrum.get(i));
            proof {
                let upto = spectrum@.take(i + 1);
                assert(upto.drop_last() =~= spectrum@.take(i as int));
                assert(upto.last() == spectrum@[i as int]);
            }
            poly = poly.times_factor(&root);
            i += 1;
        }
        assert(spectrum@.take(n as int) =~= spectrum@);
        poly
    }

    /// The product of the polynomial and the factor `x - root`.
    pub fn times_factor(&self, root: &Integer) -> (p: Polynomial)
        ensures
            p@ == times_root(self@, root@),
    {
        let n = self.coefficients.len();
        let mut coefficients: Vec<Integer> = Vec::new();
        let mut k: usize = 0;
        while k < n
            invariant
                k <= n,
                n == self@.len(),
                n == self.coefficients@.len(),
                coefficients@.len() == k,
                forall|j: int|
                    0 <= j < k ==> coefficients@[j]@ == coefficient(self@, j) - root@ * coefficient(
                        self@,
                        j - 1,
                    ),
            decreases n - k,
        {
            let entry = if k == 0 {
                assert(root@ * 0 == 0) by (nonlinear_arith);
                self.coefficients[k].clone()
            } else {
                let carried = root.times(&self.coefficients[k - 1]);
                self.coefficients[k].minus(&carried)
            };
            assert(self@[k as int] == self.coefficients@[k as int]@);
            coefficients.push(entry);
            k += 1;
        }
        let last = if n == 0 {
            assert(root@ * 0 == 0) by (nonlinear_arith);
            Integer::zero()
        } else {
            assert(self@[n - 1] == self.coefficients@[n - 1]@);
            root.times(&self.coefficients[n - 1]).negated()
        };
        coefficients.push(last);
        let p = Polynomial { coefficients };
        assert(p@ =~= times_root(self@, root@));
        p
    }

    /// The text of the polynomial, term by term from the highest degree
    /// down. Coefficients are whole numbers and are written as such.
    pub fn to_string(&self) -> (text: String)
        ensures
            text@ == terms_text(self@, self@.len() as int),
    {
        let n = self.coefficients.len();
        let mut out = String::new();
        let mut i: usize = 0;
        assert(out@ =~= terms_text(self@, 0));
        while i < n
            invariant
                i <= n,
                n == self@.len(),
                n == self.coefficients@.len(),
                out@ == terms_text(self@, i as int),
            decreases n - i,
        {
            assert(self@[i as int] == self.coefficients@[i as int]@);
            let ghost before = out@;
            match self.coefficients[i].sign() {
                Sign::Minus => {
                    out.append("- ");
                },
                _ => {
                    out.append("+ ");
                },
            }
            self.coefficients[i].push_magnitude(&mut out);
            out.append("x^");
            push_decimal(&mut out, (n - 1 - i) as u64);
            out.append(" ");
            assert(out@ =~= before + term_text(self@[i as int], (n - 1 - i) as nat));
            i += 1;
        }
        out
    }

    /// Whether no coefficient is below zero.
    pub fn is_polynomial_nonnegative(&self) -> (r: bool)
        ensures
            r == forall|i: int| 0 <= i < self@.len() ==> self@[i] >= 0,
    {
        self.is_polynomial_nonnegative_with_threshold(&Integer::zero())
    }

    /// Whether no coefficient is below `threshold`.
    pub fn is_polynomial_nonnegative_with_threshold(&self, threshold: &Integer) -> (r: bool)
        ensures
            r == forall|i: int| 0 <= i < self@.len() ==> self@[i] >= threshold@,
    {
        let n = self.coefficients.len();
        let mut i: usize = 0;
        while i < n
            invariant
                i <= n,
                n == self@.len(),
                n == self.coefficients@.len(),
                forall|j: int| 0 <= j < i ==> self@[j] >= threshold@,
            decreases n - i,
        {
            assert(self@[i as int] == self.coefficients@[i as int]@);
            if self.coefficients[i].less_than(threshold) {
                return false;
            }
            i += 1;
        }
        true
    }

    /// The smallest absolute value among the coefficients.
    pub fn min_term(&self) -> (least: Integer)
        requires
            self@.len() >= 1,
        ensures
            forall|i: int| 0 <= i < self@.len() ==> least@ <= absolute(self@[i]),
            exists|i: int| 0 <= i < self@.len() && least@ == absolute(self@[i]),
    {
        let n = self.coefficients.len();
        assert(self@[0] == self.coefficients@[0]@);
        let mut least = self.coefficients[0].magnitude();
        let ghost mut at: int = 0;
        let mut i: usize = 1;
        while i < n
            invariant
                1 <= i <= n,
                n == self@.len(),
                n == self.coefficients@.len(),
                0 <= at < i,
                least@ == absolute(self@[at]),
                forall|j: int| 0 <= j < i ==> least@ <= absolute(self@[j]),
            decreases n - i,
        {
            assert(self@[i as int] == self.coefficients@[i as int]@);
            let size = self.coefficients[i].magnitude();
            if size.less_than(&least) {
                least = size;
                proof {
                    at = i as int;
                }
            }
            i += 1;
        }
        least
    }

    /// The largest absolute value among the coefficients.
    pub fn max_term(&self) -> (most: Integer)
        requires
            self@.len() >= 1,
        ensures
            forall|i: int| 0 <= i < self@.len() ==> most@ >= absolute(self@[i]),
            exists|i: int| 0 <= i < self@.len() && most@ == absolute(self@[i]),
    {
        let n = self.coefficients.len();
        assert(self@[0] == self.coefficients@[0]@);
        let mut most = self.coefficients[0].magnitude();
        let ghost mut at: int = 0;
        let mut i: usize = 1;
        while i < n
            invariant
                1 <= i <= n,
                n == self@.len(),
                n == self.coefficients@.len(),
                0 <= at < i,
                most@ == absolute(self@[at]),
                forall|j: int| 0 <= j < i ==> most@ >= absolute(self@[j]),
            decreases n - i,
        {
            assert(self@[i as int] == self.coefficients@[i as int]@);
            let size = self.coefficients[i].magnitude();
            if most.less_than(&size) {
                most = size;
                proof {
                    at = i as int;
                }
            }
            i += 1;
        }
        most
    }

    /// The derivative: one coefficient fewer, each the coefficient of a
    /// term times the degree of that term.
    pub fn derivative(&self) -> (d: Polynomial)
        requires
            self@.len() >= 1,
        ensures
            d@ == derivative_of(self@),
    {
        let n = self.coefficients.len();
        let mut coefficients: Vec<Integer> = Vec::new();
        let mut i: usize = 0;
        while i + 1 < n
            invariant
                i + 1 <= n,
                n == self@.len(),
                n == self.coefficients@.len(),
                coefficients@.len() == i,
                forall|k: int| 0 <= k < i ==> coefficients@[k]@ == (n - 1 - k) * self@[k],
            decreases n - i,
        {
            assert(self@[i as int] == self.coefficients@[i as int]@);
            let degree = Integer::from_u64((n - 1 - i) as u64);
            coefficients.push(degree.times(&self.coefficients[i]));
            i += 1;
        }
        let d = Polynomial { coefficients };
        assert(d@ =~= derivative_of(self@));
        d
    }

    /// The product of two polynomials.
    pub fn mul(self, other: Polynomial) -> (product: Polynomial)
        requires
            1 <= self@.len() + other@.len() <= usize::MAX + 1,
        ensures
            product@ == product_of(self@, other@),
    {
        let rows = self.coefficients.len();
        let columns = other.coefficients.len();
        let length: usize = if rows == 0 {
            columns - 1
        } else {
            (rows - 1) + columns
        };
        let mut poly = Polynomial::from_element(length, Integer::zero());
        let mut i: usize = 0;
        while i < rows
            invariant
                i <= rows,
                rows == self@.len(),
                rows == self.coefficients@.len(),
                columns == other@.len(),
                columns == other.coefficients@.len(),
                length == rows + columns - 1,
                poly@.len() == length,
                forall|k: int| 0 <= k < length ==> poly@[k] == convolution(self@, other@, k, i as nat),
            decreases rows - i,
        {
            let mut j: usize = 0;
            while j < columns
                invariant
                    i < rows,
                    j <= columns,
                    rows == self@.len(),
                    rows == self.coefficients@.len(),
                    columns == other@.len(),
                    columns == other.coefficients@.len(),
                    length == rows + columns - 1,
                    poly@.len() == length,
                    forall|k: int|
                        0 <= k < length ==> poly@[k] == convolution(self@, other@, k, i as nat) + (if i
                            <= k < i + j {
                            self@[i as int] * other@[k - i]
                        } else {
                            0
                        }),
                decreases columns - j,
            {
                assert(self@[i as int] == self.coefficients@[i as int]@);
                assert(other@[j as int] == other.coefficients@[j as int]@);
                let term = self.coefficients[i].times(&other.coefficients[j]);
                let updated = poly.get(i + j).plus(&term);
                poly.set(i + j, updated);
                j += 1;
            }
            assert forall|k: int| 0 <= k < length implies poly@[k] == convolution(
                self@,
                other@,
                k,
                (i + 1) as nat,
            ) by {
                if !(i <= k < i + columns) {
                    assert(self@[i as int] * 0 == 0) by (nonlinear_arith);
                }
            }
            i += 1;
        }
        assert(poly@ =~= product_of(self@, other@));
        poly
    }

    /// Whether the two polynomials have the same coefficients.
    pub fn equals(&self, other: &Polynomial) -> (r: bool)
        ensures
            r == (self@ == other@),
    {
        match self.order(other) {
            Some(Sign::Zero) => true,
            _ => false,
        }
    }

    /// How the two polynomials compare coefficient by coefficient from the
    /// front. Polynomials of different lengths do not compare.
    pub fn order(&self, other: &Polynomial) -> (r: Option<Sign>)
        ensures
            r == lexicographic(self@, other@),
            r == Some(Sign::Zero) <==> self@ == other@,
    {
        if self.len() != other.len() {
            return None;
        }
        let n = self.len();
        let mut i: usize = 0;
        while i < n
            invariant
                i <= n,
                n == self@.len(),
                n == other@.len(),
                forall|j: int| 0 <= j < i ==> #[trigger] self@[j] == other@[j],
            decreases n - i,
        {
            match self.get(i).compare(other.get(i)) {
                Sign::Plus => {
                    assert(other@[i as int] < self@[i as int]);
                    assert(precedes(other@, self@));
                    assert(!precedes(self@, other@)) by {
                        if precedes(self@, other@) {
                            let p = choose|p: int|
                                0 <= p < self@.len() && #[trigger] self@[p] < other@[p]
                                    && forall|q: int| 0 <= q < p ==> #[trigger] self@[q] == other@[q];
                            if p < i {
                                assert(self@[p] == other@[p]);
                            } else if p > i {
                                assert(self@[i as int] == other@[i as int]);
                            }
                        }
                    }
                    return Some(Sign::Plus);
                },
                Sign::Minus => {
                    assert(self@[i as int] < other@[i as int]);
                    assert(precedes(self@, other@));
                    return Some(Sign::Minus);
                },
                Sign::Zero => {},
            }
            i += 1;
        }
        assert(self@ =~= other@);
        Some(Sign::Zero)
    }

    /// The number of coefficients.
    pub fn len(&self) -> (n: usize)
        ensures
            n == self@.len(),
    {
        self.coefficients.len()
    }

    /// Coefficient `i`.
    pub fn get(&self, i: usize) -> (c: &Integer)
        requires
            i < self@.len(),
        ensures
            c@ == self@[i as int],
    {
        &self.coefficients[i]
    }

    /// Overwrites coefficient `i`.
    pub fn set(&mut self, i: usize, value: Integer)
        requires
            i < old(self)@.len(),
        ensures
            final(self)@ == old(self)@.update(i as int, value@),
    {
        self.coefficients.set(i, value);
        assert(self@ =~= old(self)@.update(i as int, value@));
    }
}

impl Clone for Polynomial {
    /// An independent copy.
    fn clone(&self) -> (copy: Polynomial)
        ensures
            copy@ == self@,
    {
        let n = self.coefficients.len();
        let mut coefficients: Vec<Integer> = Vec::new();
        let mut i: usize = 0;
        while i < n
            invariant
                i <= n,
                n == self.coefficients@.len(),
                coefficients@.len() == i,
                forall|k: int| 0 <= k < i ==> coefficients@[k]@ == self.coefficients@[k]@,
            decreases n - i,
        {
            coefficients.push(self.coefficients[i].clone());
            i += 1;
        }
        let copy = Polynomial { coefficients };
        assert(copy@ =~= self@);
        copy
    }
}

} // verus!
