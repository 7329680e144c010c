//! The run modes a driver can select by number.

use vstd::prelude::*;

verus! {

/// What a run is asked to do.
#[derive(Debug, Clone, Copy, PartialEq, Eq, Structural)]
pub enum SpectrumMode {
    /// Evaluate every condition on one spectrum.
    TestSpectrum,
    /// Explore the neighbourhood of a spectrum and keep its boundary.
    MutateSpectrum,
    /// Map a whole region of spectra.
    MapSpace,
    /// Report the state that a run was left in.
    ReturnState,
    /// The number names no mode.
    Error,
}

/// The mode that the number `val` selects: 1 to 4 name the four modes in
/// order, every other number is an error.
pub open spec fn mode_of(val: int) -> SpectrumMode {
    if val == 1 {
        SpectrumMode::TestSpectrum
    } else if val == 2 {
        SpectrumMode::MutateSpectrum
    } else if val == 3 {
        SpectrumMode::MapSpace
    } else if val == 4 {
        SpectrumMode::ReturnState
    } else {
        SpectrumMode::Error
    }
}

/// Decodes the mode number of a configuration.
pub fn i32_to_spectra_mode(val: usize) -> (mode: SpectrumMode)
    ensures
        mode == mode_of(val as int),
{
    match val {
        1 => SpectrumMode::TestSpectrum,
        2 => SpectrumMode::MutateSpectrum,
        3 => SpectrumMode::MapSpace,
        4 => SpectrumMode::ReturnState,
        _ => SpectrumMode::Error,
    }
}

} // verus!
