use egui_plot::grid::{
    ceil_div_exec, fill_between, generate_marks, GridError, GridInput, GridMark, MAX_MARKS,
};
use egui_plot::power::next_power;
use egui_plot::transform::{tier_step_sizes, LinearAxisTransform, LOG_BASE};

fn mark(value: i64, step_size: i64) -> GridMark {
    GridMark { value, step_size }
}

/// The expected marks for base spacing 1 over (0, 25).
fn expected_zero_to_twenty_five() -> Vec<GridMark> {
    let mut expected = Vec::new();
    for v in 0..25 {
        let step = if v == 0 {
            100
        } else if v == 10 || v == 20 {
            10
        } else {
            1
        };
        expected.push(mark(v, step));
    }
    expected
}

#[test]
fn transform_constructors() {
    assert!(!LinearAxisTransform::normal().is_inverted());
    assert!(LinearAxisTransform::inverted().is_inverted());
    assert!(LinearAxisTransform::new(true).is_inverted());
    assert!(!LinearAxisTransform::new(false).is_inverted());
}

#[test]
fn inverted_sign_is_negated() {
    assert_eq!(LinearAxisTransform::normal().sign(), 1);
    assert_eq!(LinearAxisTransform::inverted().sign(), -1);
    assert_eq!(
        LinearAxisTransform::inverted().sign(),
        -LinearAxisTransform::normal().sign()
    );
}

#[test]
fn ceil_div_rounds_up() {
    assert_eq!(ceil_div_exec(10, 5), 2);
    assert_eq!(ceil_div_exec(11, 5), 3);
    assert_eq!(ceil_div_exec(0, 5), 0);
    assert_eq!(ceil_div_exec(-7, 5), -1);
    assert_eq!(ceil_div_exec(-10, 5), -2);
    assert_eq!(ceil_div_exec(i64::MIN, 1), i64::MIN);
    assert_eq!(ceil_div_exec(i64::MAX, 2), i64::MAX / 2 + 1);
}

#[test]
fn next_power_in_hundredths() {
    // 0.01, 0.02 and 0.2 written as hundredths
    assert_eq!(next_power(1, 10), Ok(1));
    assert_eq!(next_power(2, 10), Ok(10));
    assert_eq!(next_power(20, 10), Ok(100));
}

#[test]
fn next_power_values() {
    assert_eq!(next_power(1000, 10), Ok(1000));
    assert_eq!(next_power(1001, 10), Ok(10000));
    assert_eq!(next_power(5, 2), Ok(8));
    assert_eq!(next_power(8, 2), Ok(8));
    assert_eq!(next_power(-20, 10), Ok(100));
    assert_eq!(next_power(-1, 10), Ok(1));
    assert_eq!(next_power(i64::MIN, 2), Err(GridError::Overflow));
    assert_eq!(next_power(1 << 62, 2), Ok(1 << 62));
}

#[test]
fn next_power_errors() {
    assert_eq!(next_power(0, 10), Err(GridError::InvalidMagnitude));
    assert_eq!(next_power(5, 1), Err(GridError::InvalidBase));
    assert_eq!(next_power(5, -3), Err(GridError::InvalidBase));
    assert_eq!(next_power(i64::MAX, 10), Err(GridError::Overflow));
}

#[test]
fn fill_between_excludes_exact_upper_multiple() {
    assert_eq!(fill_between(5, 0, 10), Ok(vec![mark(0, 5), mark(5, 5)]));
}

#[test]
fn fill_between_partial_bounds() {
    assert_eq!(fill_between(5, 3, 12), Ok(vec![mark(5, 5), mark(10, 5)]));
    assert_eq!(fill_between(5, -7, -1), Ok(vec![mark(-5, 5)]));
    assert_eq!(fill_between(5, 4, 4), Ok(vec![]));
    assert_eq!(fill_between(5, 10, 10), Ok(vec![]));
}

#[test]
fn fill_between_errors() {
    assert_eq!(fill_between(0, 0, 10), Err(GridError::InvalidMagnitude));
    assert_eq!(fill_between(-5, 0, 10), Err(GridError::InvalidMagnitude));
    assert_eq!(fill_between(5, 10, 0), Err(GridError::InvertedInterval));
    assert_eq!(fill_between(1, 0, i64::MAX), Err(GridError::ResourceLimit));
}

#[test]
fn fill_between_at_mark_ceiling() {
    let marks = fill_between(1, 0, MAX_MARKS).unwrap();
    assert_eq!(marks.len() as i64, MAX_MARKS);
    assert_eq!(fill_between(1, 0, MAX_MARKS + 1), Err(GridError::ResourceLimit));
}

#[test]
fn generate_marks_keeps_coarsest_tier() {
    assert_eq!(
        generate_marks([1, 10, 100], (0, 25)),
        Ok(expected_zero_to_twenty_five())
    );
}

#[test]
fn generate_marks_negative_range() {
    assert_eq!(
        generate_marks([5, 50, 500], (-60, -40)),
        Ok(vec![mark(-60, 5), mark(-55, 5), mark(-50, 50), mark(-45, 5)])
    );
}

#[test]
fn generate_marks_errors() {
    assert_eq!(generate_marks([0, 0, 0], (0, 10)), Err(GridError::InvalidMagnitude));
    assert_eq!(generate_marks([1, 10, 100], (10, 0)), Err(GridError::InvertedInterval));
    assert_eq!(
        generate_marks([1, 10, 100], (i64::MIN, i64::MAX)),
        Err(GridError::ResourceLimit)
    );
}

#[test]
fn grid_marks_end_to_end() {
    let input = GridInput { base_step_size: 1, bounds: (0, 25) };
    let marks = LinearAxisTransform::normal().grid_marks(&input).unwrap();
    assert_eq!(marks, expected_zero_to_twenty_five());
    assert!(!marks.iter().any(|m| m.value == 25));
}

#[test]
fn grid_marks_rounds_spacing_up() {
    let input = GridInput { base_step_size: 3, bounds: (0, 25) };
    let marks = LinearAxisTransform::inverted().grid_marks(&input).unwrap();
    assert_eq!(marks, vec![mark(0, 1000), mark(10, 10), mark(20, 10)]);
    let negative = GridInput { base_step_size: -3, bounds: (0, 25) };
    assert_eq!(LinearAxisTransform::normal().grid_marks(&negative), Ok(marks));
}

#[test]
fn grid_marks_zero_spacing_is_empty() {
    for bounds in [(0, 25), (-100, 100), (5, 5), (10, 0), (i64::MIN, i64::MAX)] {
        let input = GridInput { base_step_size: 0, bounds };
        assert_eq!(LinearAxisTransform::normal().grid_marks(&input), Ok(vec![]));
    }
}

#[test]
fn grid_marks_errors() {
    let overflow = GridInput { base_step_size: i64::MAX / 10, bounds: (0, 1) };
    assert_eq!(
        LinearAxisTransform::normal().grid_marks(&overflow),
        Err(GridError::Overflow)
    );
    let inverted = GridInput { base_step_size: 1, bounds: (5, 0) };
    assert_eq!(
        LinearAxisTransform::normal().grid_marks(&inverted),
        Err(GridError::InvertedInterval)
    );
    let too_many = GridInput { base_step_size: 1, bounds: (0, i64::MAX) };
    assert_eq!(
        LinearAxisTransform::normal().grid_marks(&too_many),
        Err(GridError::ResourceLimit)
    );
    assert_eq!(LOG_BASE, 10);
}

#[test]
fn generated_marks_cover_every_tier() {
    let (min, max) = (-137, 412);
    let generated = generate_marks([3, 30, 300], (min, max)).unwrap();
    for tier in [3, 30, 300] {
        for m in fill_between(tier, min, max).unwrap() {
            let kept = generated.iter().find(|g| g.value == m.value).unwrap();
            assert!(kept.step_size >= tier);
        }
    }
    for g in &generated {
        let own = fill_between(g.step_size, min, max).unwrap();
        assert!(own.contains(g));
    }
    for pair in generated.windows(2) {
        assert!(pair[0].value < pair[1].value);
    }
}

#[test]
fn next_power_is_least_power() {
    for v in 1..2000i64 {
        let p = next_power(v, 10).unwrap();
        assert!(p >= v);
        assert!(p == 1 || p / 10 < v);
    }
}

#[test]
fn inverted_bounds_reported_before_step() {
    assert_eq!(fill_between(0, 10, 0), Err(GridError::InvertedInterval));
    assert_eq!(fill_between(-5, 10, 0), Err(GridError::InvertedInterval));
    assert_eq!(generate_marks([0, 0, 0], (10, 0)), Err(GridError::InvertedInterval));
    let huge = GridInput { base_step_size: i64::MAX, bounds: (5, 0) };
    assert_eq!(
        LinearAxisTransform::normal().grid_marks(&huge),
        Err(GridError::InvertedInterval)
    );
}

#[test]
fn tier_step_sizes_values() {
    assert_eq!(tier_step_sizes(1), Ok([1, 10, 100]));
    assert_eq!(tier_step_sizes(1000), Ok([1000, 10000, 100000]));
    assert_eq!(tier_step_sizes(i64::MAX / 100), Ok([i64::MAX / 100, i64::MAX / 100 * 10, i64::MAX / 100 * 100]));
    assert_eq!(tier_step_sizes(i64::MAX / 100 + 1), Err(GridError::Overflow));
}
