use niep_spectra_checker::mutate_spectrum;
use niep_spectra_checker::spectrum::{Spectrum, UNIT};
use niep_spectra_checker::spectrum_mapper::{collapse_spectra, SpectrumMapper};

const STEP: i64 = 1_000_000;

fn spectrum(values: &[i64]) -> Spectrum {
    Spectrum::from_vec(values.to_vec(), 3)
}

fn values(spectra: &[Spectrum]) -> Vec<Vec<i64>> {
    spectra.iter().map(|s| (0..s.len()).map(|i| s.get(i)).collect()).collect()
}

fn flags(s: &Spectrum) -> Vec<bool> {
    (0..s.num_conditions()).map(|i| s.condition(i)).collect()
}

fn sorted(mut lists: Vec<Vec<i64>>) -> Vec<Vec<i64>> {
    lists.sort();
    lists
}

#[test]
fn no_budget_finds_nothing() {
    let mut mapper = SpectrumMapper::new_mapper(0, STEP);
    assert!(mapper.map_spectrum(&spectrum(&[0; 5])).is_empty());
    assert!(mapper.map_spectrum_boundary(&spectrum(&[0; 5])).is_empty());
}

#[test]
fn one_step_enters_the_seed_alone() {
    let mut mapper = SpectrumMapper::new_mapper(1, STEP);
    let found = mapper.map_spectrum(&spectrum(&[0; 5]));
    assert_eq!(values(&found), vec![vec![0; 5]]);
    assert_eq!(flags(&found[0]), vec![true, true, true]);
    let boundary = mapper.map_spectrum_boundary(&spectrum(&[0; 5]));
    assert_eq!(values(&boundary), vec![vec![0; 5]]);
}

#[test]
fn two_steps_enter_the_neighbours_that_meet_a_condition() {
    let mut mapper = SpectrumMapper::new_mapper(2, STEP);
    let found = mapper.map_spectrum(&spectrum(&[0; 5]));
    assert_eq!(
        values(&found),
        vec![
            vec![0, 0, 0, 0, 0],
            vec![0, STEP, 0, 0, 0],
            vec![0, 0, STEP, 0, 0],
            vec![0, 0, 0, STEP, 0],
            vec![0, 0, 0, 0, STEP],
        ]
    );
    for s in &found {
        assert_eq!(s.get(0), 0);
        assert_eq!(flags(s), vec![true, true, true]);
    }
    let boundary = mapper.map_spectrum_boundary(&spectrum(&[0; 5]));
    assert_eq!(values(&boundary), vec![vec![0; 5]]);
}

#[test]
fn a_seed_that_meets_no_condition_is_not_entered() {
    let mut mapper = SpectrumMapper::new_mapper(3, STEP);
    assert!(mapper.map_spectrum(&spectrum(&[0, -STEP, 0, 0, 0])).is_empty());
}

#[test]
fn steps_above_one_are_not_taken() {
    let mut mapper = SpectrumMapper::new_mapper(2, STEP);
    let found = mapper.map_spectrum(&spectrum(&[UNIT, UNIT, UNIT]));
    assert_eq!(
        values(&found),
        vec![
            vec![UNIT, UNIT, UNIT],
            vec![UNIT, 9_000_000, UNIT],
            vec![UNIT, UNIT, 9_000_000],
        ]
    );
    let boundary = mapper.map_spectrum_boundary(&spectrum(&[UNIT, UNIT, UNIT]));
    assert_eq!(
        values(&boundary),
        vec![vec![UNIT, 9_000_000, UNIT], vec![UNIT, UNIT, 9_000_000]]
    );
}

#[test]
fn each_net_step_vector_is_entered_once() {
    let mut mapper = SpectrumMapper::new_mapper(3, STEP);
    let found = mapper.map_spectrum(&spectrum(&[30_000_000, -UNIT, -UNIT, -UNIT]));
    assert_eq!(found.len(), 25);
    let lists = values(&found);
    assert_eq!(lists[0], vec![30_000_000, -UNIT, -UNIT, -UNIT]);
    assert_eq!(lists[1], vec![30_000_000, -9_000_000, -UNIT, -UNIT]);
    assert_eq!(lists[2], vec![30_000_000, -8_000_000, -UNIT, -UNIT]);
    assert_eq!(lists[24], vec![30_000_000, -UNIT, -UNIT, -12_000_000]);
    let mut distinct = lists.clone();
    distinct.sort();
    distinct.dedup();
    assert_eq!(distinct.len(), 25);
    for list in &lists {
        assert_eq!(list[0], 30_000_000);
    }
}

#[test]
fn the_boundary_of_a_search_holds_its_minimal_spectra() {
    let mut mapper = SpectrumMapper::new_mapper(3, STEP);
    let boundary = mapper.map_spectrum_boundary(&spectrum(&[20_000_000, 5_000_000, -5_000_000]));
    assert_eq!(
        values(&boundary),
        vec![
            vec![20_000_000, 3_000_000, -5_000_000],
            vec![20_000_000, 4_000_000, -6_000_000],
            vec![20_000_000, 5_000_000, -7_000_000],
        ]
    );
}

#[test]
fn a_search_starts_from_an_empty_memo_each_time() {
    let mut mapper = SpectrumMapper::new_mapper(2, STEP);
    let first = mapper.map_spectrum(&spectrum(&[UNIT, UNIT, UNIT]));
    let second = mapper.map_spectrum(&spectrum(&[UNIT, UNIT, UNIT]));
    assert_eq!(values(&first), values(&second));
    let other = mapper.map_spectrum(&spectrum(&[0; 5]));
    assert_eq!(other.len(), 5);
}

#[test]
fn a_step_of_zero_moves_nothing() {
    let mut mapper = SpectrumMapper::new_mapper(3, 0);
    let found = mapper.map_spectrum(&spectrum(&[UNIT, 0, 0]));
    assert_eq!(found.len(), 13);
    for list in values(&found) {
        assert_eq!(list, vec![UNIT, 0, 0]);
    }
    let boundary = mapper.map_spectrum_boundary(&spectrum(&[UNIT, 0, 0]));
    assert_eq!(values(&boundary), vec![vec![UNIT, 0, 0]]);
}

#[test]
fn mutate_spectrum_searches_in_steps_of_a_tenth() {
    let boundary = mutate_spectrum(spectrum(&[20_000_000, 5_000_000, -5_000_000]), 3, 0);
    assert_eq!(
        values(&boundary),
        vec![
            vec![20_000_000, 3_000_000, -5_000_000],
            vec![20_000_000, 4_000_000, -6_000_000],
            vec![20_000_000, 5_000_000, -7_000_000],
        ]
    );
    let seed = mutate_spectrum(spectrum(&[0; 5]), 1, 7);
    assert_eq!(values(&seed), vec![vec![0; 5]]);
}

#[test]
fn collapse_keeps_what_nothing_else_dominates() {
    let input = vec![
        spectrum(&[5, 5, 5]),
        spectrum(&[5, 4, 6]),
        spectrum(&[5, 4, 5]),
        spectrum(&[6, 3, 9]),
        spectrum(&[7, 7, 7]),
    ];
    let boundary = collapse_spectra(input);
    assert_eq!(values(&boundary), vec![vec![5, 4, 5], vec![6, 3, 9]]);
}

#[test]
fn collapse_keeps_the_first_of_equal_spectra() {
    let mut first = spectrum(&[1, 2]);
    first.set_condition(0, true);
    let second = spectrum(&[1, 2]);
    let boundary = collapse_spectra(vec![first, second, spectrum(&[2, 1])]);
    assert_eq!(values(&boundary), vec![vec![1, 2], vec![2, 1]]);
    assert_eq!(flags(&boundary[0]), vec![true, false, false]);
}

#[test]
fn collapse_does_not_compare_spectra_of_different_lengths() {
    let boundary = collapse_spectra(vec![spectrum(&[1, 1]), spectrum(&[0]), spectrum(&[0, 0, 0])]);
    assert_eq!(values(&boundary), vec![vec![1, 1], vec![0], vec![0, 0, 0]]);
}

#[test]
fn collapse_of_nothing_and_of_one() {
    assert!(collapse_spectra(vec![]).is_empty());
    assert_eq!(values(&collapse_spectra(vec![spectrum(&[3])])), vec![vec![3]]);
}

#[test]
fn collapse_is_idempotent() {
    let input = vec![
        spectrum(&[5, 5, 5]),
        spectrum(&[5, 4, 6]),
        spectrum(&[4, 9, 9]),
        spectrum(&[5, 4, 6]),
        spectrum(&[6, 3, 9]),
        spectrum(&[9, 9, 1]),
    ];
    let once = collapse_spectra(input);
    let again = collapse_spectra(once.clone());
    assert_eq!(values(&once), values(&again));
    assert_eq!(
        values(&once),
        vec![vec![5, 5, 5], vec![5, 4, 6], vec![4, 9, 9], vec![6, 3, 9], vec![9, 9, 1]]
    );
}

#[test]
fn collapse_does_not_depend_on_the_order() {
    let lists: Vec<Vec<i64>> = vec![
        vec![5, 5, 5],
        vec![5, 4, 6],
        vec![5, 4, 5],
        vec![6, 3, 9],
        vec![5, 4, 5],
        vec![7, 7, 7],
        vec![6, 3, 8],
    ];
    let forward: Vec<Spectrum> = lists.iter().map(|l| spectrum(l)).collect();
    let backward: Vec<Spectrum> = lists.iter().rev().map(|l| spectrum(l)).collect();
    let mut rotated: Vec<Spectrum> = lists.iter().map(|l| spectrum(l)).collect();
    rotated.rotate_left(3);
    let expected = vec![vec![5, 4, 5], vec![6, 3, 8]];
    assert_eq!(sorted(values(&collapse_spectra(forward))), expected);
    assert_eq!(sorted(values(&collapse_spectra(backward))), expected);
    assert_eq!(sorted(values(&collapse_spectra(rotated))), expected);
}
