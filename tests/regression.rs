use linear_regression::{Dataset, DatasetRow, LinearModel, RegressionError, MAX_ROWS, SCALE, VALUE_LIMIT};

const S: i64 = SCALE;

fn dataset_of(rows: &[(i64, i64)]) -> Dataset {
    let mut d = Dataset::new();
    assert_eq!(d.load(&rows.to_vec()), Ok(()));
    d
}

fn model(a: i64, b: i64, learning_rate: i64) -> LinearModel {
    LinearModel { a, b, learning_rate }
}

fn as_f64(v: i64) -> f64 {
    v as f64 / S as f64
}

#[test]
fn perfect_line_is_recovered() {
    let raw = [(0, 0), (S, 2 * S), (2 * S, 4 * S)];
    let mut d = dataset_of(&raw);
    assert_eq!(d.normalize(), Ok(()));
    let mut m = model(0, 0, S / 10);
    assert_eq!(m.train(&d, 10_000), Ok(()));
    let r2_normalized = m.determination_coefficient(&d).unwrap();
    assert!((as_f64(r2_normalized) - 1.0).abs() < 1e-2);
    assert_eq!(m.denormalize(&d), Ok(()));
    assert!((as_f64(m.a) - 2.0).abs() < 1e-2);
    assert!(as_f64(m.b).abs() < 1e-2);
    let original = dataset_of(&raw);
    let r2 = m.determination_coefficient(&original).unwrap();
    assert!((as_f64(r2) - 1.0).abs() < 1e-2);
}

#[test]
fn training_on_empty_dataset_fails() {
    let d = Dataset::new();
    let mut m = LinearModel::new();
    assert_eq!(m.train(&d, 10), Err(RegressionError::EmptyDataset));
    assert_eq!(m.train(&d, 0), Err(RegressionError::EmptyDataset));
    assert_eq!(m, LinearModel::new());
    assert_eq!(m.cost_a(&d), Err(RegressionError::EmptyDataset));
    assert_eq!(m.cost_b(&d), Err(RegressionError::EmptyDataset));
    assert_eq!(m.gradient_descent(&d), Err(RegressionError::EmptyDataset));
    assert_eq!(m.determination_coefficient(&d), Err(RegressionError::EmptyDataset));
}

#[test]
fn constant_prices_make_the_metric_degenerate() {
    let d = dataset_of(&[(0, 5 * S), (S, 5 * S), (2 * S, 5 * S)]);
    let m = model(S, 0, S / 10);
    assert_eq!(m.determination_coefficient(&d), Err(RegressionError::DegenerateMetric));
}

#[test]
fn normalize_maps_onto_unit_interval() {
    let mut row = DatasetRow::new();
    for v in [3 * S, 5 * S, 4 * S, 7 * S] {
        assert_eq!(row.push(v), Ok(()));
    }
    assert_eq!(row.set_range(), Ok(()));
    assert_eq!((row.min, row.max), (3 * S, 7 * S));
    assert_eq!(row.normalize(), Ok(()));
    assert_eq!(row.data, vec![0, 500_000, 250_000, S]);
    assert_eq!((row.min, row.max), (3 * S, 7 * S));
}

#[test]
fn normalize_with_negative_values_rounds_down() {
    let mut d = dataset_of(&[(-S, 1), (2 * S, 3), (0, 2)]);
    assert_eq!(d.normalize(), Ok(()));
    assert_eq!(d.x.data, vec![0, S, 333_333]);
    assert_eq!(d.y.data, vec![0, S, 500_000]);
    for v in d.x.data.iter().chain(d.y.data.iter()) {
        assert!(0 <= *v && *v <= S);
    }
}

#[test]
fn normalize_refuses_constant_column() {
    let mut d = dataset_of(&[(S, 2 * S), (S, 3 * S)]);
    assert_eq!(d.normalize(), Err(RegressionError::DegenerateRange));
    assert_eq!(d.x.data, vec![S, S]);
    assert_eq!(d.y.data, vec![2 * S, 3 * S]);
    let mut row = DatasetRow::new();
    assert_eq!(row.push(4), Ok(()));
    assert_eq!(row.set_range(), Ok(()));
    assert_eq!(row.normalize(), Err(RegressionError::DegenerateRange));
    assert_eq!(row.data, vec![4]);
}

#[test]
fn set_range_twice_gives_same_bounds() {
    let mut row = DatasetRow::new();
    for v in [9, -4, 12, 0, 12] {
        assert_eq!(row.push(v), Ok(()));
    }
    assert_eq!(row.set_range(), Ok(()));
    let first = (row.min, row.max);
    assert_eq!(row.set_range(), Ok(()));
    assert_eq!((row.min, row.max), first);
    assert_eq!(first, (-4, 12));
}

#[test]
fn set_range_on_empty_column_fails() {
    let mut row = DatasetRow::new();
    assert_eq!(row.set_range(), Err(RegressionError::EmptyData));
    assert_eq!((row.min, row.max), (0, 0));
    let mut d = Dataset::new();
    assert_eq!(d.load(&Vec::new()), Err(RegressionError::EmptyData));
}

#[test]
fn estimate_is_linear() {
    let m = model(1_500_000, 250_000, S / 5);
    for (x1, x2) in [(3 * S, S), (-7, 11), (123_456_789, -987_654)] {
        let lhs = m.estimate(x1) - m.estimate(x2);
        let rhs = ((m.a as i128 * (x1 - x2) as i128).div_euclid(S as i128)) as i64;
        assert!(lhs - rhs == 0 || lhs - rhs == 1);
    }
}

#[test]
fn estimate_exact_values() {
    let m = model(2 * S, S / 2, S / 5);
    assert_eq!(m.estimate(3 * S), 6_500_000);
    let m = model(1_500_000, 0, S / 5);
    assert_eq!(m.estimate(-1), -2);
    assert_eq!(LinearModel::new().estimate(42 * S), 0);
}

#[test]
fn perfect_fit_scores_one() {
    let d = dataset_of(&[(0, S), (S, 3 * S), (2 * S, 5 * S)]);
    let m = model(2 * S, S, S / 5);
    assert_eq!(m.determination_coefficient(&d), Ok(S));
}

#[test]
fn imperfect_fit_scores_below_one() {
    let d = dataset_of(&[(0, 0), (S, S), (2 * S, 3 * S)]);
    let m = model(S, 0, S / 5);
    assert_eq!(m.determination_coefficient(&d), Ok(785_715));
    let bad = model(-3 * S, 7 * S, S / 5);
    assert!(bad.determination_coefficient(&d).unwrap() <= S);
}

#[test]
fn metric_overflow_is_reported() {
    let d = dataset_of(&[(VALUE_LIMIT, 0), (VALUE_LIMIT, 1)]);
    let m = model(VALUE_LIMIT, 0, S / 5);
    assert_eq!(m.determination_coefficient(&d), Err(RegressionError::Overflow));
}

#[test]
fn costs_exact_values() {
    let d = dataset_of(&[(0, 0), (S, 2 * S), (2 * S, 4 * S)]);
    let m = model(0, 0, S / 10);
    assert_eq!(m.cost_a(&d), Ok(-3_333_334));
    assert_eq!(m.cost_b(&d), Ok(-2_000_000));
}

#[test]
fn gradient_step_updates_both_parameters_together() {
    let d = dataset_of(&[(0, 0), (S, 2 * S), (2 * S, 4 * S)]);
    let mut m = model(0, 0, S / 10);
    assert_eq!(m.gradient_descent(&d), Ok(()));
    assert_eq!((m.a, m.b), (333_334, 200_000));
    let mut t = model(0, 0, S / 10);
    assert_eq!(t.train(&d, 2), Ok(()));
    assert_eq!((t.a, t.b), (591_112, 346_667));
    assert_eq!(t.learning_rate, S / 10);
}

#[test]
fn zero_iterations_leave_model_unchanged() {
    let d = dataset_of(&[(0, 0), (S, 2 * S)]);
    let mut m = model(5, 7, S / 10);
    assert_eq!(m.train(&d, 0), Ok(()));
    assert_eq!(m, model(5, 7, S / 10));
}

#[test]
fn diverging_training_overflows() {
    let d = dataset_of(&[(1000 * S, 1000 * S)]);
    let mut m = model(0, 0, VALUE_LIMIT / 2);
    assert_eq!(m.train(&d, 5), Err(RegressionError::Overflow));
    assert_eq!(m, model(0, 0, VALUE_LIMIT / 2));
    assert_eq!(m.gradient_descent(&d), Err(RegressionError::Overflow));
    assert_eq!(m, model(0, 0, VALUE_LIMIT / 2));
}

#[test]
fn denormalize_exact_values() {
    let d = dataset_of(&[(2 * S, S), (6 * S, 9 * S)]);
    let mut m = model(500_000, 250_000, S / 5);
    assert_eq!(m.denormalize(&d), Ok(()));
    assert_eq!((m.a, m.b), (S, S));
    assert_eq!(m.learning_rate, S / 5);
}

#[test]
fn denormalize_refuses_constant_mileage() {
    let d = dataset_of(&[(2 * S, S), (2 * S, 9 * S)]);
    let mut m = model(500_000, 250_000, S / 5);
    assert_eq!(m.denormalize(&d), Err(RegressionError::DegenerateRange));
    assert_eq!(m, model(500_000, 250_000, S / 5));
    assert_eq!(LinearModel::new().denormalize(&Dataset::new()), Err(RegressionError::DegenerateRange));
}

#[test]
fn denormalize_overflow_is_reported() {
    let d = dataset_of(&[(0, -VALUE_LIMIT), (1, VALUE_LIMIT)]);
    let mut m = model(VALUE_LIMIT, 0, S / 5);
    assert_eq!(m.denormalize(&d), Err(RegressionError::Overflow));
    assert_eq!(m, model(VALUE_LIMIT, 0, S / 5));
}

#[test]
fn normalized_training_matches_raw_training() {
    let raw: Vec<(i64, i64)> = (0..=10).map(|i| (i * S, 3 * i * S + S)).collect();
    let mut d = dataset_of(&raw);
    assert_eq!(d.normalize(), Ok(()));
    let mut via_normalized = model(0, 0, S / 10);
    assert_eq!(via_normalized.train(&d, 20_000), Ok(()));
    assert_eq!(via_normalized.denormalize(&d), Ok(()));
    let direct_data = dataset_of(&raw);
    let mut direct = model(0, 0, S / 100);
    assert_eq!(direct.train(&direct_data, 20_000), Ok(()));
    assert!((as_f64(via_normalized.a) - as_f64(direct.a)).abs() < 1e-2);
    assert!((as_f64(via_normalized.b) - as_f64(direct.b)).abs() < 1e-2);
    assert!((as_f64(direct.a) - 3.0).abs() < 1e-2);
}

#[test]
fn push_refuses_out_of_range_values() {
    let mut d = Dataset::new();
    assert_eq!(d.push((VALUE_LIMIT + 1, 0)), Err(RegressionError::ValueOutOfRange));
    assert_eq!(d.push((0, -VALUE_LIMIT - 1)), Err(RegressionError::ValueOutOfRange));
    assert_eq!(d.len(), 0);
    assert_eq!(d.push((VALUE_LIMIT, -VALUE_LIMIT)), Ok(()));
    assert_eq!(d.len(), 1);
    assert_eq!(d.pairs(), vec![(VALUE_LIMIT, -VALUE_LIMIT)]);
    let mut row = DatasetRow::new();
    assert_eq!(row.push(i64::MIN), Err(RegressionError::ValueOutOfRange));
    assert_eq!(row.len(), 0);
    assert_eq!(d.load(&vec![(1, 2), (i64::MAX, 0)]), Err(RegressionError::ValueOutOfRange));
    assert_eq!(d.len(), 1);
}

#[test]
fn push_refuses_rows_beyond_capacity() {
    let mut row = DatasetRow::new();
    for i in 0..MAX_ROWS {
        assert_eq!(row.push(i as i64), Ok(()));
    }
    assert_eq!(row.push(0), Err(RegressionError::TooManyRows));
    assert_eq!(row.len(), MAX_ROWS);
    let mut d = Dataset::new();
    let rows: Vec<(i64, i64)> = (0..MAX_ROWS as i64).map(|i| (i, i)).collect();
    assert_eq!(d.load(&rows), Ok(()));
    assert_eq!(d.push((0, 0)), Err(RegressionError::TooManyRows));
    assert_eq!(d.load(&vec![(0, 0)]), Err(RegressionError::TooManyRows));
    assert_eq!(d.len(), MAX_ROWS);
}

#[test]
fn load_appends_rows_and_sets_ranges() {
    let mut d = Dataset::new();
    assert_eq!(d.load(&vec![(3, 30), (1, 50), (2, 10)]), Ok(()));
    assert_eq!(d.pairs(), vec![(3, 30), (1, 50), (2, 10)]);
    assert_eq!((d.x.min, d.x.max, d.y.min, d.y.max), (1, 3, 10, 50));
    assert_eq!(d.len(), 3);
}

#[test]
fn model_record_round_trip() {
    let m = model(-12_345, 678_910, S / 10);
    let mut restored = LinearModel::new();
    assert_eq!(restored.load(m.save()), Ok(()));
    assert_eq!(restored, m);
    assert_eq!(restored.load((0, 0, 0)), Err(RegressionError::ValueOutOfRange));
    assert_eq!(restored.load((VALUE_LIMIT + 1, 0, 1)), Err(RegressionError::ValueOutOfRange));
    assert_eq!(restored, m);
    let fresh = LinearModel::new();
    assert_eq!(fresh.save(), (0, 0, 200_000));
}

#[test]
fn denormalize_inverts_rescaling_with_offset_mileage() {
    let mut d = Dataset::new();
    assert_eq!(d.push((S, 10 * S)), Ok(()));
    assert_eq!(d.push((3 * S, 14 * S)), Ok(()));
    assert_eq!(d.x.set_range(), Ok(()));
    assert_eq!(d.y.set_range(), Ok(()));
    assert_eq!(d.normalize(), Ok(()));
    let mut m = model(S, 0, S / 5);
    assert_eq!(m.denormalize(&d), Ok(()));
    assert_eq!((m.a, m.b), (2 * S, 8 * S));
}

#[test]
fn normalized_training_round_trip_with_offset_mileage() {
    let raw: Vec<(i64, i64)> = (0..=10).map(|i| (i * S + 5 * S, 3 * (i * S + 5 * S) + S)).collect();
    let mut d = dataset_of(&raw);
    assert_eq!(d.normalize(), Ok(()));
    let mut via_normalized = model(0, 0, S / 10);
    assert_eq!(via_normalized.train(&d, 20_000), Ok(()));
    assert_eq!(via_normalized.denormalize(&d), Ok(()));
    let direct_data = dataset_of(&raw);
    let mut direct = model(0, 0, S / 1000);
    assert_eq!(direct.train(&direct_data, 200_000), Ok(()));
    for m in [via_normalized, direct] {
        assert!((as_f64(m.a) - 3.0).abs() < 1e-2);
        assert!((as_f64(m.b) - 1.0).abs() < 1e-2);
    }
    assert!((as_f64(via_normalized.b) - as_f64(direct.b)).abs() < 1e-2);
}

fn pushed(rows: &[(i64, i64)]) -> Dataset {
    let mut d = Dataset::new();
    for row in rows {
        assert_eq!(d.push(*row), Ok(()));
    }
    d
}

#[test]
fn pushed_rows_normalize_in_order() {
    let mut d = pushed(&[(0, 0), (S, 2 * S), (2 * S, 4 * S)]);
    assert_eq!(d.x.set_range(), Ok(()));
    assert_eq!(d.y.set_range(), Ok(()));
    assert_eq!(d.normalize(), Ok(()));
    assert_eq!(d.pairs(), vec![(0, 0), (S / 2, S / 2), (S, S)]);
    assert_eq!(d.len(), 3);
}

#[test]
fn determination_exact_values() {
    let d = pushed(&[(0, 0), (S, 2 * S), (2 * S, 4 * S)]);
    assert_eq!(model(0, 0, S / 5).determination_coefficient(&d), Ok(-1_500_000));
    assert_eq!(model(2 * S, 0, S / 5).determination_coefficient(&d), Ok(S));
    assert_eq!(model(0, 2 * S, S / 5).determination_coefficient(&d), Ok(0));
    let flat = pushed(&[(0, 5 * S), (S, 5 * S), (2 * S, 5 * S)]);
    assert_eq!(LinearModel::new().determination_coefficient(&flat), Err(RegressionError::DegenerateMetric));
    assert_eq!(model(0, 5 * S, S / 5).determination_coefficient(&flat), Err(RegressionError::DegenerateMetric));
}

#[test]
fn perfect_fit_is_a_fixed_point_of_training() {
    let d = pushed(&[(0, 0), (S, 2 * S), (2 * S, 4 * S)]);
    let mut m = model(2 * S, 0, S / 10);
    assert_eq!(m.train(&d, 100), Ok(()));
    assert_eq!((m.a, m.b), (2 * S, 0));
    let mut fresh = model(0, 0, S / 10);
    assert_eq!(fresh.train(&d, 1), Ok(()));
    assert_eq!((fresh.a, fresh.b), (333_334, 200_000));
}
