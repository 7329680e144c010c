//! Necessary-condition screening for the nonnegative inverse eigenvalue
//! problem, in exact fixed-point arithmetic.
//!
//! A spectrum is a list of eigenvalue candidates. Every eigenvalue is held
//! as a whole number of units, `spectrum::UNIT` units making 1, so that all
//! sums, products and comparisons are exact and the conditions can be stated
//! over the integers.

pub mod arithmetic;
pub mod comparison;
pub mod conditions;
pub mod decimal;
pub mod dominance;
pub mod integer;
pub mod limbs;
pub mod mode;
pub mod polynomial;
pub mod render;
pub mod search;
pub mod spectrum;
pub mod spectrum_mapper;

use crate::conditions::{jll_holds, moment_holds, passes_all, passes_any, recorded, taamp_holds};
use crate::dominance::{frontier_values, values_of};
use crate::search::{explored, found_values};
use crate::spectrum::Spectrum;
use crate::spectrum_mapper::SpectrumMapper;
use vstd::prelude::*;

verus! {

/// The step of the search: 0.1, in units.
pub const STEP: i64 = 1_000_000;

/// Searches the neighbourhood of `spectrum` that `spectra_mutations` steps
/// of 0.1 reach and returns its boundary. The third argument is kept for
/// callers that pass it; it limits nothing.
pub fn mutate_spectrum(
    spectrum: Spectrum,
    spectra_mutations: usize,
    mutated_spectra_to_evaluate: usize,
) -> (boundary: Vec<Spectrum>)
    requires
        spectrum.flags().len() >= 3,
        forall|i: int|
            1 <= i < spectrum@.len() ==> #[trigger] spectrum@[i] - spectra_mutations * STEP
                >= i64::MIN,
    ensures
        values_of(boundary@) == frontier_values(
            found_values(explored(spectrum@, spectra_mutations as nat, STEP as int)),
        ),
        forall|j: int|
            0 <= j < boundary@.len() ==> (#[trigger] boundary@[j]).flags() == recorded(
                spectrum.flags(),
                boundary@[j]@,
            ),
{
    let mut mapper = SpectrumMapper::new_mapper(spectra_mutations, STEP);
    mapper.map_spectrum_boundary(&spectrum)
}

/// Whether the spectrum meets one of the three conditions, the first two
/// up to order 9. This is what the search asks of a spectrum.
pub fn test_spectra_or(spectra: &Spectrum) -> (ok: bool)
    ensures
        ok == passes_any(spectra@),
{
    spectra.test_moment_condition(10) || spectra.test_jll_condition(10)
        || spectra.test_taamp_condition()
}

/// Whether the spectrum meets all three conditions, the first two up to
/// order 99.
pub fn test_spectra(spectra: &Spectrum) -> (ok: bool)
    ensures
        ok == passes_all(spectra@),
{
    spectra.test_moment_condition(100) && spectra.test_jll_condition(100)
        && spectra.test_taamp_condition()
}

/// Decides the moment condition for the orders below `powers`.
pub fn test_moment_condition(spectrum: &Spectrum, powers: usize) -> (ok: bool)
    ensures
        ok == moment_holds(spectrum@, powers as nat),
{
    spectrum.test_moment_condition(powers)
}

/// Decides the JLL condition for the pairs of orders below `powers`.
pub fn test_jll_condition(spectrum: &Spectrum, powers: usize) -> (ok: bool)
    ensures
        ok == jll_holds(spectrum@, powers as nat),
{
    spectrum.test_jll_condition(powers)
}

/// Decides the TAAMP condition.
pub fn test_taamp_condition(spectrum: &Spectrum) -> (ok: bool)
    ensures
        ok == taamp_holds(spectrum@),
{
    spectrum.test_taamp_condition()
}

} // verus!
