use connes_distance::binary64::Binary64;
use connes_distance::error::ConnesError;
use connes_distance::matrix::Matrix;
use connes_distance::triple::SpectralTriple;
use connes_distance::arithmetic::NAN_BITS;
use connes_distance::validation::{worst_in, TOLERANCE_BITS};

fn datum(x: f64) -> Binary64 {
    Binary64::from_bits(x.to_bits())
}

fn data(xs: &[f64]) -> Vec<Binary64> {
    xs.iter().map(|x| datum(*x)).collect()
}

fn matrix(rows: usize, cols: usize, entries: &[f64]) -> Matrix {
    Matrix::from_row_slice(rows, cols, data(entries)).unwrap()
}

fn sound_generator() -> Matrix {
    matrix(2, 2, &[-0.25, 0.25, 0.5, -0.5])
}

#[test]
fn tolerance_is_the_decimal_constant() {
    assert_eq!(TOLERANCE_BITS, 1e-9f64.to_bits());
}

#[test]
fn generator_must_be_square() {
    assert_eq!(
        SpectralTriple::validate_generator(&matrix(2, 3, &[0.0; 6])),
        Err(ConnesError::NotSquare { rows: 2, cols: 3 })
    );
    assert_eq!(
        SpectralTriple::validate_generator(&matrix(3, 2, &[9.0; 6])),
        Err(ConnesError::NotSquare { rows: 3, cols: 2 })
    );
}

#[test]
fn generator_rows_must_sum_to_zero() {
    assert_eq!(SpectralTriple::validate_generator(&sound_generator()), Ok(()));
    assert_eq!(SpectralTriple::validate_generator(&matrix(2, 2, &[1e-9, 0.0, 0.0, -1e-9])), Ok(()));
    assert_eq!(
        SpectralTriple::validate_generator(&matrix(2, 2, &[-1.0, 1.0, 1e-10, -2e-9])),
        Err(ConnesError::RowSumsNotZero { max_abs: datum((0.0 + 1e-10 + -2e-9f64).abs()) })
    );
    assert_eq!(
        SpectralTriple::validate_generator(&matrix(
            3,
            3,
            &[0.25, 0.25, 0.0, -1.0, 0.25, 0.0, 0.125, 0.0, 0.125]
        )),
        Err(ConnesError::RowSumsNotZero { max_abs: datum(0.75) })
    );
    let just_above = f64::from_bits(1e-9f64.to_bits() + 1);
    assert_eq!(
        SpectralTriple::validate_generator(&matrix(1, 1, &[just_above])),
        Err(ConnesError::RowSumsNotZero { max_abs: datum(just_above) })
    );
    assert_eq!(SpectralTriple::validate_generator(&matrix(1, 1, &[-1e-9])), Ok(()));
}

#[test]
fn row_sums_are_taken_from_the_left() {
    // From the left the small terms are lost one by one; from the right they would add up.
    let entries = [1e16, -1e16, 3e-9, 1e16, 1.0, -1e16, 0.0, 0.0, 0.0];
    let by_hardware: f64 = 0.0 + 1e16 + 1.0 + -1e16;
    assert_eq!(by_hardware, 0.0);
    assert_eq!(
        SpectralTriple::validate_generator(&matrix(3, 3, &entries)),
        Err(ConnesError::RowSumsNotZero { max_abs: datum(3e-9) })
    );
    let entries = [0.0, 0.0, 0.0, 1e16, 1.0, -1e16, 0.0, 0.0, 0.0];
    assert_eq!(SpectralTriple::validate_generator(&matrix(3, 3, &entries)), Ok(()));
    let entries = [0.0, 0.0, 0.0, 1e16, -1e16, 1.0, 0.0, 0.0, 0.0];
    assert_eq!(
        SpectralTriple::validate_generator(&matrix(3, 3, &entries)),
        Err(ConnesError::RowSumsNotZero { max_abs: datum(1.0) })
    );
}

#[test]
fn a_row_sum_that_is_no_number_is_refused() {
    assert_eq!(
        SpectralTriple::validate_generator(&matrix(2, 2, &[f64::NAN, 0.0, 0.0, 0.0])),
        Err(ConnesError::RowSumsNotZero { max_abs: Binary64::from_bits(NAN_BITS) })
    );
    assert_eq!(
        SpectralTriple::validate_generator(&matrix(
            2,
            2,
            &[f64::INFINITY, f64::NEG_INFINITY, 1.0, 0.0]
        )),
        Err(ConnesError::RowSumsNotZero { max_abs: Binary64::from_bits(NAN_BITS) })
    );
    assert_eq!(
        SpectralTriple::validate_generator(&matrix(2, 2, &[0.0, 0.0, 5.0, f64::NAN])),
        Err(ConnesError::RowSumsNotZero { max_abs: Binary64::from_bits(NAN_BITS) })
    );
    assert_eq!(
        SpectralTriple::validate_generator(&matrix(1, 1, &[f64::NEG_INFINITY])),
        Err(ConnesError::RowSumsNotZero { max_abs: datum(f64::INFINITY) })
    );
    assert_eq!(
        SpectralTriple::validate_transition(&matrix(2, 2, &[0.5, 0.5, f64::NAN, 1.0])),
        Err(ConnesError::RowSumsNotOne { max_abs: Binary64::from_bits(NAN_BITS) })
    );
    assert_eq!(
        SpectralTriple::validate_transition(&matrix(1, 1, &[f64::INFINITY])),
        Err(ConnesError::RowSumsNotOne { max_abs: datum(f64::INFINITY) })
    );
}

#[test]
fn worst_deviation_is_the_largest_or_no_number() {
    assert_eq!(worst_in(&data(&[])), datum(0.0));
    assert_eq!(worst_in(&data(&[-3.0, 2.0, 1.0])), datum(3.0));
    assert_eq!(worst_in(&data(&[-0.0])), datum(0.0));
    assert_eq!(worst_in(&data(&[1.0, f64::NAN, 7.0])), Binary64::from_bits(NAN_BITS));
    assert_eq!(worst_in(&data(&[-f64::NAN])), Binary64::from_bits(NAN_BITS));
    assert_eq!(worst_in(&data(&[f64::NEG_INFINITY, 1.0])), datum(f64::INFINITY));
}

#[test]
fn empty_generator_passes() {
    assert_eq!(SpectralTriple::validate_generator(&matrix(0, 0, &[])), Ok(()));
}

#[test]
fn transition_must_be_square() {
    assert_eq!(
        SpectralTriple::validate_transition(&matrix(1, 4, &[0.25; 4])),
        Err(ConnesError::NotSquare { rows: 1, cols: 4 })
    );
}

#[test]
fn transition_rows_must_sum_to_one() {
    assert_eq!(
        SpectralTriple::validate_transition(&matrix(2, 2, &[0.5, 0.5, 0.25, 0.75])),
        Ok(())
    );
    assert_eq!(
        SpectralTriple::validate_transition(&matrix(2, 2, &[0.5, 0.5, 0.25, 0.75 + 1e-10])),
        Ok(())
    );
    assert_eq!(
        SpectralTriple::validate_transition(&matrix(2, 2, &[0.5, 0.5, 0.3, 0.6])),
        Err(ConnesError::RowSumsNotOne { max_abs: datum((0.0 + 0.3 + 0.6 - 1.0f64).abs()) })
    );
    assert_eq!(
        SpectralTriple::validate_transition(&matrix(2, 2, &[0.75, 0.5, 0.3, 0.6])),
        Err(ConnesError::RowSumsNotOne { max_abs: datum(0.25) })
    );
    assert_eq!(
        SpectralTriple::validate_transition(&matrix(2, 2, &[-0.25, 0.25, 0.5, -0.5])),
        Err(ConnesError::RowSumsNotOne { max_abs: datum(1.0) })
    );
}

#[test]
fn stationary_entries_must_be_positive() {
    let judge = |entries: &[f64]| SpectralTriple::validate_stationary(&data(entries));
    assert_eq!(judge(&[0.25, 0.75]), Ok(()));
    assert_eq!(judge(&[0.0, 1.0]), Err(ConnesError::StationaryNonPositive));
    assert_eq!(judge(&[-0.0, 1.0]), Err(ConnesError::StationaryNonPositive));
    assert_eq!(judge(&[1.5, -0.5]), Err(ConnesError::StationaryNonPositive));
    assert_eq!(judge(&[5e-324, 1.0]), Ok(()));
    assert_eq!(judge(&[f64::NAN, 0.5]), Err(ConnesError::StationaryNonPositive));
    assert_eq!(judge(&[0.5, 0.5, f64::NAN]), Err(ConnesError::StationaryNonPositive));
    assert_eq!(judge(&[f64::NEG_INFINITY, 1.0]), Err(ConnesError::StationaryNonPositive));
}

#[test]
fn stationary_must_sum_to_one() {
    let judge = |entries: &[f64]| SpectralTriple::validate_stationary(&data(entries));
    assert_eq!(judge(&[0.5, 0.25]), Err(ConnesError::StationaryNotNormalized { sum: datum(0.75) }));
    assert_eq!(judge(&[0.5, 0.75]), Err(ConnesError::StationaryNotNormalized { sum: datum(1.25) }));
    assert_eq!(judge(&[]), Err(ConnesError::StationaryNotNormalized { sum: datum(0.0) }));
    assert_eq!(judge(&[1.0 + 5e-10]), Ok(()));
    assert_eq!(
        judge(&[1.0 + 2e-9]),
        Err(ConnesError::StationaryNotNormalized { sum: datum(1.0 + 2e-9) })
    );
    assert_eq!(
        judge(&[0.1, 0.2, 0.3, 0.5]),
        Err(ConnesError::StationaryNotNormalized { sum: datum(0.0 + 0.1 + 0.2 + 0.3 + 0.5) })
    );
    assert_eq!(judge(&[0.1, 0.2, 0.3, 0.4]), Ok(()));
    assert_eq!(
        judge(&[f64::INFINITY, 0.5]),
        Err(ConnesError::StationaryNotNormalized { sum: datum(f64::INFINITY) })
    );
    assert_eq!(
        judge(&[f64::MAX, f64::MAX]),
        Err(ConnesError::StationaryNotNormalized { sum: datum(f64::INFINITY) })
    );
}

#[test]
fn non_positive_entry_is_reported_before_the_sum() {
    assert_eq!(
        SpectralTriple::validate_stationary(&data(&[-1.0, 5.0])),
        Err(ConnesError::StationaryNonPositive)
    );
}

#[test]
fn new_builds_from_sound_parts() {
    let st = SpectralTriple::new(sound_generator(), data(&[0.5, 0.5]), datum(1e-3)).unwrap();
    assert_eq!(st.generator.rows(), 2);
    assert_eq!(st.generator.cols(), 2);
    assert_eq!(st.generator.entries(), &data(&[-0.25, 0.25, 0.5, -0.5]));
    assert_eq!(st.stationary, data(&[0.5, 0.5]));
    assert_eq!(st.epsilon, datum(1e-3));
}

#[test]
fn new_reports_the_first_failure() {
    assert_eq!(
        SpectralTriple::new(matrix(1, 2, &[3.0, 0.0]), data(&[-1.0]), datum(-1.0)).err(),
        Some(ConnesError::NotSquare { rows: 1, cols: 2 })
    );
    assert_eq!(
        SpectralTriple::new(matrix(1, 1, &[3.0]), data(&[-1.0]), datum(-1.0)).err(),
        Some(ConnesError::RowSumsNotZero { max_abs: datum(3.0) })
    );
    assert_eq!(
        SpectralTriple::new(matrix(1, 1, &[0.0]), data(&[-1.0]), datum(-1.0)).err(),
        Some(ConnesError::StationaryNonPositive)
    );
    assert_eq!(
        SpectralTriple::new(matrix(1, 1, &[0.0]), data(&[7.0]), datum(-1.0)).err(),
        Some(ConnesError::StationaryNotNormalized { sum: datum(7.0) })
    );
    assert_eq!(
        SpectralTriple::new(matrix(1, 1, &[0.0]), data(&[1.0]), datum(-1.0)).err(),
        Some(ConnesError::NonPositiveEpsilon(datum(-1.0)))
    );
    assert_eq!(
        SpectralTriple::new(matrix(1, 1, &[0.0]), data(&[1.0]), datum(0.0)).err(),
        Some(ConnesError::NonPositiveEpsilon(datum(0.0)))
    );
    assert_eq!(
        SpectralTriple::new(matrix(1, 1, &[0.0]), data(&[1.0]), datum(-0.0)).err(),
        Some(ConnesError::NonPositiveEpsilon(datum(-0.0)))
    );
    assert!(SpectralTriple::new(matrix(1, 1, &[0.0]), data(&[1.0]), datum(5e-324)).is_ok());
    assert!(SpectralTriple::new(matrix(1, 1, &[0.0]), data(&[1.0]), datum(f64::INFINITY)).is_ok());
}

#[test]
fn new_refuses_an_epsilon_that_is_no_number() {
    assert_eq!(
        SpectralTriple::new(sound_generator(), data(&[0.5, 0.5]), datum(f64::NAN)).err(),
        Some(ConnesError::NonPositiveEpsilon(datum(f64::NAN)))
    );
    assert_eq!(
        SpectralTriple::new(sound_generator(), data(&[0.5, 0.5]), datum(-f64::NAN)).err(),
        Some(ConnesError::NonPositiveEpsilon(datum(-f64::NAN)))
    );
    assert_eq!(
        SpectralTriple::new(sound_generator(), data(&[0.5, 0.5]), datum(f64::NEG_INFINITY)).err(),
        Some(ConnesError::NonPositiveEpsilon(datum(f64::NEG_INFINITY)))
    );
}

#[test]
fn new_wants_one_stationary_entry_to_each_state() {
    assert_eq!(
        SpectralTriple::new(sound_generator(), data(&[1.0]), datum(1.0)).err(),
        Some(ConnesError::NotSquare { rows: 2, cols: 1 })
    );
    assert_eq!(
        SpectralTriple::new(sound_generator(), data(&[0.25, 0.25, 0.5]), datum(1e-3)).err(),
        Some(ConnesError::NotSquare { rows: 2, cols: 3 })
    );
    assert_eq!(
        SpectralTriple::new(sound_generator(), data(&[]), datum(1e-3)).err(),
        Some(ConnesError::NotSquare { rows: 2, cols: 0 })
    );
    assert_eq!(
        SpectralTriple::new(matrix(0, 0, &[]), data(&[1.0]), datum(1e-3)).err(),
        Some(ConnesError::NotSquare { rows: 0, cols: 1 })
    );
    // The entries are counted after the generator is judged, and before they are.
    assert_eq!(
        SpectralTriple::new(matrix(2, 2, &[1.0, 0.0, 0.0, 0.0]), data(&[1.0]), datum(1e-3)).err(),
        Some(ConnesError::RowSumsNotZero { max_abs: datum(1.0) })
    );
    assert_eq!(
        SpectralTriple::new(sound_generator(), data(&[-1.0]), datum(-1.0)).err(),
        Some(ConnesError::NotSquare { rows: 2, cols: 1 })
    );
    assert!(SpectralTriple::new(sound_generator(), data(&[0.25, 0.75]), datum(1e-3)).is_ok());
}

#[test]
fn triple_refuses_states_it_does_not_have() {
    let st = SpectralTriple::new(sound_generator(), data(&[0.5, 0.5]), datum(1e-3)).unwrap();
    assert_eq!(st.connes_distance(2, 0).err(), Some(ConnesError::StateOutOfRange { idx: 2, n: 2 }));
    assert_eq!(st.connes_distance(1, 2).err(), Some(ConnesError::StateOutOfRange { idx: 2, n: 2 }));
    assert_eq!(st.connes_distance(4, 3).err(), Some(ConnesError::StateOutOfRange { idx: 4, n: 2 }));
    assert!(st.connes_distance(0, 1).is_ok());
}

#[test]
fn triple_settles_a_state_against_itself() {
    let st = SpectralTriple::new(sound_generator(), data(&[0.5, 0.5]), datum(1e-3)).unwrap();
    for i in 0..2 {
        assert_eq!(st.connes_distance(i, i).unwrap().distance(), Some(datum(0.0)));
    }
}

#[test]
fn clone_keeps_the_parts() {
    let st = SpectralTriple::new(sound_generator(), data(&[0.5, 0.5]), datum(1e-3)).unwrap();
    let copy = st.clone();
    assert_eq!(copy.generator.entries(), st.generator.entries());
    assert_eq!(copy.stationary, st.stationary);
    assert_eq!(copy.epsilon, st.epsilon);
}
