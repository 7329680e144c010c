//! `==` and `<` on spectra and on polynomials.
//!
//! Spectra are equal when they are alike within the tolerance, and ordered
//! entry by entry from the front within the same tolerance. Polynomials
//! are equal when they have the same coefficients, and ordered entry by
//! entry from the front, exactly.

use crate::limbs::Sign;
use crate::polynomial::{lexicographic, Polynomial};
use crate::spectrum::{alike, tolerant_order, Spectrum};
use core::cmp::Ordering;
use vstd::prelude::*;
use vstd::std_specs::cmp::{PartialEqSpecImpl, PartialOrdSpecImpl};

verus! {

/// The ordering that a comparison by sign stands for.
pub open spec fn ordering_of(sign: Option<Sign>) -> Option<Ordering> {
    match sign {
        None => None,
        Some(Sign::Minus) => Some(Ordering::Less),
        Some(Sign::Zero) => Some(Ordering::Equal),
        Some(Sign::Plus) => Some(Ordering::Greater),
    }
}

/// The ordering that a comparison by sign stands for.
fn to_ordering(sign: Option<Sign>) -> (r: Option<Ordering>)
    ensures
        r == ordering_of(sign),
{
    match sign {
        None => None,
        Some(Sign::Minus) => Some(Ordering::Less),
        Some(Sign::Zero) => Some(Ordering::Equal),
        Some(Sign::Plus) => Some(Ordering::Greater),
    }
}

impl PartialEq for Spectrum {
    fn eq(&self, other: &Spectrum) -> (r: bool) {
        self.equals(other)
    }
}

impl PartialEqSpecImpl for Spectrum {
    open spec fn obeys_eq_spec() -> bool {
        true
    }

    open spec fn eq_spec(&self, other: &Spectrum) -> bool {
        alike(self@, other@)
    }
}

impl PartialOrd for Spectrum {
    fn partial_cmp(&self, other: &Spectrum) -> (r: Option<Ordering>) {
        to_ordering(self.order(other))
    }
}

impl PartialOrdSpecImpl for Spectrum {
    open spec fn obeys_partial_cmp_spec() -> bool {
        true
    }

    open spec fn partial_cmp_spec(&self, other: &Spectrum) -> Option<Ordering> {
        ordering_of(tolerant_order(self@, other@))
    }
}

impl PartialEq for Polynomial {
    fn eq(&self, other: &Polynomial) -> (r: bool) {
        self.equals(other)
    }
}

impl PartialEqSpecImpl for Polynomial {
    open spec fn obeys_eq_spec() -> bool {
        true
    }

    open spec fn eq_spec(&self, other: &Polynomial) -> bool {
        self@ == other@
    }
}

impl PartialOrd for Polynomial {
    fn partial_cmp(&self, other: &Polynomial) -> (r: Option<Ordering>) {
        to_ordering(self.order(other))
    }
}

impl PartialOrdSpecImpl for Polynomial {
    open spec fn obeys_partial_cmp_spec() -> bool {
        true
    }

    open spec fn partial_cmp_spec(&self, other: &Polynomial) -> Option<Ordering> {
        ordering_of(lexicographic(self@, other@))
    }
}

impl Spectrum {
    /// How two spectra of one length compare: by the first place where
    /// their eigenvalues are apart, and as equal where they are alike.
    pub fn cmp(&self, other: &Spectrum) -> (r: Ordering)
        requires
            self@.len() == other@.len(),
        ensures
            Some(r) == ordering_of(tolerant_order(self@, other@)),
    {
        match self.order(other) {
            Some(Sign::Minus) => Ordering::Less,
            Some(Sign::Plus) => Ordering::Greater,
            _ => Ordering::Equal,
        }
    }
}

impl Polynomial {
    /// How two polynomials of one length compare: by the first place where
    /// their coefficients differ.
    pub fn cmp(&self, other: &Polynomial) -> (r: Ordering)
        requires
            self@.len() == other@.len(),
        ensures
            Some(r) == ordering_of(lexicographic(self@, other@)),
    {
        match self.order(other) {
            Some(Sign::Minus) => Ordering::Less,
            Some(Sign::Plus) => Ordering::Greater,
            _ => Ordering::Equal,
        }
    }
}

} // verus!
