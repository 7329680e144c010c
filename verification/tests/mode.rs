use niep_spectra_checker::mode::{i32_to_spectra_mode, SpectrumMode};

#[test]
fn numbers_one_to_four_name_the_modes() {
    assert_eq!(i32_to_spectra_mode(1), SpectrumMode::TestSpectrum);
    assert_eq!(i32_to_spectra_mode(2), SpectrumMode::MutateSpectrum);
    assert_eq!(i32_to_spectra_mode(3), SpectrumMode::MapSpace);
    assert_eq!(i32_to_spectra_mode(4), SpectrumMode::ReturnState);
}

#[test]
fn other_numbers_name_no_mode() {
    assert_eq!(i32_to_spectra_mode(0), SpectrumMode::Error);
    assert_eq!(i32_to_spectra_mode(5), SpectrumMode::Error);
    assert_eq!(i32_to_spectra_mode(usize::MAX), SpectrumMode::Error);
}
