//! Integers of any size, for the sums and products that the conditions on
//! a spectrum are stated over.

use crate::arithmetic::absolute;
use crate::decimal::{decimal, digit_text, push_digit};
use crate::limbs::{
    add_limbs, compare_limbs, divide_limbs, lemma_value_bounds, lemma_value_push, limbs_value,
    mul_limbs, radix, sign_of, sub_limbs, weight, Sign,
};
use vstd::prelude::*;
use vstd::string::StringExecFns;

verus! {

/// A signed integer without a bound on its size.
#[derive(Debug)]
pub struct Integer {
    negative: bool,
    magnitude: Vec<u32>,
}

/// The integers that a list holds.
pub open spec fn integer_values(items: Seq<Integer>) -> Seq<int> {
    items.map_values(|c: Integer| c@)
}

/// The text of an integer: a minus sign if it is below zero, and its
/// absolute value in decimal.
pub open spec fn integer_text(value: int) -> Seq<char> {
    (if value < 0 {
        "-"@
    } else {
        Seq::empty()
    }) + decimal(absolute(value) as nat)
}

/// The text of decimal digits that are listed from the lowest up.
pub open spec fn digits_text(digits: Seq<u64>) -> Seq<char>
    decreases digits.len(),
{
    if digits.len() == 0 {
        Seq::empty()
    } else {
        digit_text(digits.last() as int) + digits_text(digits.drop_last())
    }
}

/// Appends the number that `limbs` stand for, in decimal.
fn push_limbs(out: &mut String, limbs: &Vec<u32>)
    ensures
        final(out)@ == old(out)@ + decimal(limbs_value(limbs@) as nat),
{
    let ghost n = limbs_value(limbs@) as nat;
    let nothing: Vec<u32> = Vec::new();
    let mut digits: Vec<u64> = Vec::new();
    let mut current: Vec<u32> = limbs.clone();
    proof {
        lemma_value_bounds(limbs@);
        assert(decimal(n) =~= decimal(n) + digits_text(digits@));
    }
    loop
        invariant_except_break
            limbs_value(current@) >= 0,
            decimal(n) == decimal(limbs_value(current@) as nat) + digits_text(digits@),
            forall|k: int| 0 <= k < digits@.len() ==> digits@[k] < 10,
            nothing@.len() == 0,
        ensures
            decimal(n) == digits_text(digits@),
            forall|k: int| 0 <= k < digits@.len() ==> digits@[k] < 10,
        decreases limbs_value(current@),
    {
        let (quotient, digit) = divide_limbs(&current, 10);
        let ghost value = limbs_value(current@) as nat;
        let ghost q = limbs_value(quotient@) as nat;
        let ghost before = digits@;
        proof {
            lemma_value_bounds(quotient@);
            assert(q == value / 10 && digit == value % 10) by (nonlinear_arith)
                requires
                    q * 10 + digit == value,
                    digit < 10,
            ;
        }
        digits.push(digit as u64);
        proof {
            assert(digits@.drop_last() =~= before);
            assert(digits_text(digits@) == digit_text(digit as int) + digits_text(before));
            if q == 0 {
                assert(decimal(n) =~= digits_text(digits@));
            } else {
                assert(decimal(n) =~= decimal(q) + digits_text(digits@));
            }
        }
        match compare_limbs(&quotient, &nothing) {
            Sign::Zero => {
                break ;
            },
            _ => {},
        }
        current = quotient;
    }
    let mut i: usize = digits.len();
    proof {
        assert(digits@.take(i as int) =~= digits@);
    }
    while i > 0
        invariant
            i <= digits@.len(),
            forall|k: int| 0 <= k < digits@.len() ==> digits@[k] < 10,
            old(out)@ + digits_text(digits@) == out@ + digits_text(digits@.take(i as int)),
        decreases i,
    {
        i -= 1;
        let ghost rest = digits@.take(i + 1);
        proof {
            assert(rest.drop_last() =~= digits@.take(i as int));
            assert(rest.last() == digits@[i as int]);
        }
        let ghost shown = out@;
        push_digit(out, digits[i]);
        assert(out@ + digits_text(digits@.take(i as int)) =~= shown + digits_text(rest));
    }
    proof {
        assert(digits@.take(0) =~= Seq::<u64>::empty());
        assert(out@ =~= old(out)@ + digits_text(digits@));
    }
}

impl View for Integer {
    type V = int;

    closed spec fn view(&self) -> int {
        if self.negative {
            -limbs_value(self.magnitude@)
        } else {
            limbs_value(self.magnitude@)
        }
    }
}

impl Integer {
    /// Zero.
    pub fn zero() -> (r: Integer)
        ensures
            r@ == 0,
    {
        Integer { negative: false, magnitude: Vec::new() }
    }

    /// The integer that `value` holds.
    pub fn from_u64(value: u64) -> (r: Integer)
        ensures
            r@ == value,
    {
        let low: u32 = (value % 0x1_0000_0000) as u32;
        let high: u32 = (value / 0x1_0000_0000) as u32;
        let mut magnitude: Vec<u32> = Vec::new();
        magnitude.push(low);
        if high > 0 {
            magnitude.push(high);
        }
        proof {
            let nothing = Seq::<u32>::empty();
            lemma_value_push(nothing, low);
            lemma_value_push(nothing.push(low), high);
            assert(limbs_value(nothing) == 0);
            assert(weight(0) == 1);
            assert(weight(1) == radix() * weight(0));
            assert(low * weight(0) == low) by (nonlinear_arith)
                requires
                    weight(0) == 1,
            ;
            assert(high * weight(1) == high * 0x1_0000_0000) by (nonlinear_arith)
                requires
                    weight(1) == 0x1_0000_0000,
            ;
            if high > 0 {
                assert(magnitude@ =~= nothing.push(low).push(high));
            } else {
                assert(magnitude@ =~= nothing.push(low));
            }
        }
        Integer { negative: false, magnitude }
    }

    /// The integer that `value` holds.
    pub fn from_i64(value: i64) -> (r: Integer)
        ensures
            r@ == value,
    {
        if value >= 0 {
            Integer::from_u64(value as u64)
        } else {
            let size: u64 = (-(value + 1)) as u64 + 1;
            let positive = Integer::from_u64(size);
            proof {
                lemma_value_bounds(positive.magnitude@);
            }
            Integer { negative: true, magnitude: positive.magnitude }
        }
    }

    /// The integer with the opposite sign.
    pub fn negated(&self) -> (r: Integer)
        ensures
            r@ == -self@,
    {
        Integer { negative: !self.negative, magnitude: self.magnitude.clone() }
    }

    /// The sum of two integers.
    pub fn plus(&self, other: &Integer) -> (r: Integer)
        ensures
            r@ == self@ + other@,
    {
        if self.negative == other.negative {
            Integer {
                negative: self.negative,
                magnitude: add_limbs(&self.magnitude, &other.magnitude),
            }
        } else {
            match compare_limbs(&self.magnitude, &other.magnitude) {
                Sign::Minus => Integer {
                    negative: other.negative,
                    magnitude: sub_limbs(&other.magnitude, &self.magnitude),
                },
                _ => Integer {
                    negative: self.negative,
                    magnitude: sub_limbs(&self.magnitude, &other.magnitude),
                },
            }
        }
    }

    /// The difference of two integers.
    pub fn minus(&self, other: &Integer) -> (r: Integer)
        ensures
            r@ == self@ - other@,
    {
        let opposite = other.negated();
        self.plus(&opposite)
    }

    /// The product of two integers.
    pub fn times(&self, other: &Integer) -> (r: Integer)
        ensures
            r@ == self@ * other@,
    {
        let magnitude = mul_limbs(&self.magnitude, &other.magnitude);
        proof {
            let a = limbs_value(self.magnitude@);
            let b = limbs_value(other.magnitude@);
            assert((-a) * b == -(a * b) && a * (-b) == -(a * b) && (-a) * (-b) == a * b)
                by (nonlinear_arith);
        }
        Integer { negative: self.negative != other.negative, magnitude }
    }

    /// The sign of the integer.
    pub fn sign(&self) -> (s: Sign)
        ensures
            s == sign_of(self@),
    {
        let nothing: Vec<u32> = Vec::new();
        proof {
            lemma_value_bounds(self.magnitude@);
        }
        match compare_limbs(&self.magnitude, &nothing) {
            Sign::Zero => Sign::Zero,
            _ => if self.negative {
                Sign::Minus
            } else {
                Sign::Plus
            },
        }
    }

    /// The sign of the difference `self - other`: how the two compare.
    pub fn compare(&self, other: &Integer) -> (s: Sign)
        ensures
            s == sign_of(self@ - other@),
    {
        let difference = self.minus(other);
        difference.sign()
    }

    /// Whether `self` is at most `other`.
    pub fn at_most(&self, other: &Integer) -> (r: bool)
        ensures
            r == (self@ <= other@),
    {
        match self.compare(other) {
            Sign::Plus => false,
            _ => true,
        }
    }

    /// Whether `self` is less than `other`.
    pub fn less_than(&self, other: &Integer) -> (r: bool)
        ensures
            r == (self@ < other@),
    {
        match self.compare(other) {
            Sign::Minus => true,
            _ => false,
        }
    }

    /// Appends the absolute value in decimal.
    pub fn push_magnitude(&self, out: &mut String)
        ensures
            final(out)@ == old(out)@ + decimal(absolute(self@) as nat),
    {
        proof {
            lemma_value_bounds(self.magnitude@);
        }
        push_limbs(out, &self.magnitude);
    }

    /// The absolute value.
    pub fn magnitude(&self) -> (r: Integer)
        ensures
            r@ == absolute(self@),
    {
        proof {
            lemma_value_bounds(self.magnitude@);
        }
        Integer { negative: false, magnitude: self.magnitude.clone() }
    }

    /// The integer in decimal.
    pub fn to_string(&self) -> (text: String)
        ensures
            text@ == integer_text(self@),
    {
        let mut out = String::new();
        match self.sign() {
            Sign::Minus => {
                out.append("-");
            },
            _ => {},
        }
        self.push_magnitude(&mut out);
        assert(out@ =~= integer_text(self@));
        out
    }
}

impl Clone for Integer {
    /// An independent copy.
    fn clone(&self) -> (r: Integer)
        ensures
            r@ == self@,
    {
        Integer { negative: self.negative, magnitude: self.magnitude.clone() }
    }
}

} // verus!
