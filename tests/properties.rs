use dice_roller::dice::{MINIMUM_DIE_SIDES, MINIMUM_DIE_VALUE};
use dice_roller::{randomMulti, Die, Equation, Roll, RollResult};

#[test]
fn die_default_has_minimum_sides() {
    assert_eq!(Die::default().sides, MINIMUM_DIE_SIDES);
    assert_eq!(Die::default().to_string(), "d2");
}

#[test]
fn die_renders_large_side_count() {
    assert_eq!(Die::new(1234567890).to_string(), "d1234567890");
    assert_eq!(Die::new(0).to_string(), "d0");
    assert_eq!(Die::new(100).to_string(), "d100");
}

#[test]
fn dice_order_by_sides() {
    assert!(Die::new(4) < Die::new(6));
    assert_eq!(Die::new(8), Die::new(8));
}

#[test]
fn equation_empty_renders_empty() {
    let e = Equation::new();
    assert_eq!(e.to_string(), "");
}

#[test]
fn equation_order_of_insertion_is_irrelevant() {
    let mut a = Equation::new();
    a.add(Die::new(20));
    a.add(Die::new(6));
    a.add(Die::new(4));
    a.add(Die::new(6));
    let mut b = Equation::new();
    b.add(Die::new(4));
    b.add(Die::new(6));
    b.add(Die::new(6));
    b.add(Die::new(20));
    assert_eq!(a.clone().to_string(), "1d4 + 2d6 + 1d20");
    assert_eq!(a.to_string(), b.to_string());
}

#[test]
fn equation_subtract_last_removes_key() {
    let mut e = Equation::new();
    e.add(Die::new(4));
    e.add(Die::new(6));
    e.subtract(Die::new(4));
    assert_eq!(e.count(Die::new(4)), 0);
    assert_eq!(e.read(), vec![(Die::new(6), 1)]);
}

#[test]
fn equation_subtract_absent_is_noop() {
    let mut e = Equation::new();
    e.add(Die::new(6));
    e.subtract(Die::new(12));
    assert_eq!(e.count(Die::new(12)), 0);
    assert_eq!(e.read(), vec![(Die::new(6), 1)]);
}

#[test]
fn equation_set_zero_is_stored() {
    let mut e = Equation::new();
    e.set(Die::new(8), 0);
    assert_eq!(e.read(), vec![(Die::new(8), 0)]);
    assert_eq!(e.clone().to_string(), "0d8");
    e.subtract(Die::new(8));
    assert_eq!(e.read(), vec![]);
}

#[test]
fn equation_snapshot_is_isolated() {
    let mut e = Equation::new();
    e.add(Die::new(6));
    let mut snap = e.read();
    e.add(Die::new(6));
    e.add(Die::new(4));
    assert_eq!(snap, vec![(Die::new(6), 1)]);
    snap[0].1 = 40;
    assert_eq!(e.count(Die::new(6)), 2);
    assert_eq!(e.read(), vec![(Die::new(4), 1), (Die::new(6), 2)]);
}

#[test]
fn roll_d6_ten_times_stays_in_bounds() {
    let r = Die::new(6).roll(10);
    assert_eq!(r.values.len(), 10);
    assert!(r.total >= 10 && r.total <= 60);
    assert!(r.values.iter().all(|v| *v >= MINIMUM_DIE_VALUE && *v <= 6));
    assert_eq!(r.total, r.values.iter().sum::<usize>());
    assert_eq!(r.highest, *r.values.iter().max().unwrap());
    assert_eq!(r.lowest, *r.values.iter().min().unwrap());
    assert!(r.lowest * 10 <= r.total && r.total <= r.highest * 10);
}

#[test]
fn roll_of_zero_quantity_is_empty() {
    let r = Die::new(6).roll(0);
    assert!(r.values.is_empty());
    assert_eq!((r.highest, r.lowest, r.total), (0, 0, 0));
}

#[test]
fn degenerate_die_always_shows_one() {
    let r = Die::new(0).roll(5);
    assert_eq!(r.values, vec![1, 1, 1, 1, 1]);
    assert_eq!(r.total, 5);
    let r = Die::new(1).roll(3);
    assert_eq!(r.values, vec![1, 1, 1]);
}

#[test]
fn calculate_derives_extremes_and_sum() {
    let mut r = Roll::new(Die::new(6), 0, 0, 0, vec![5, 1, 3]);
    r.calculate();
    assert_eq!((r.highest, r.lowest, r.total), (5, 1, 9));
    let mut e = Roll::new(Die::new(6), 7, 7, 7, vec![]);
    e.calculate();
    assert_eq!((e.highest, e.lowest, e.total), (0, 0, 0));
}

#[test]
fn roll_result_total_is_sum_of_roll_totals() {
    let mut e = Equation::new();
    e.add(Die::new(4));
    e.add(Die::new(6));
    e.add(Die::new(6));
    e.add(Die::new(20));
    let result = RollResult::from(&e);
    let d4 = result.get(Die::new(4)).unwrap();
    let d6 = result.get(Die::new(6)).unwrap();
    let d20 = result.get(Die::new(20)).unwrap();
    assert_eq!(result.total(), d4.total + d6.total + d20.total);
    assert_eq!(d6.values.len(), 2);
    assert_eq!(
        result.toIntermediateString(),
        format!("{} + {} + {}", d4.total, d6.total, d20.total)
    );
}

#[test]
fn roll_result_empty() {
    let r = RollResult::new();
    assert_eq!(r.total(), 0);
    assert_eq!(r.toValueString(), "");
    assert_eq!(r.toIntermediateString(), "");
    assert_eq!(r.to_string(), " ->  = 0");
    assert_eq!(r.get(Die::new(6)), None);
}

#[test]
fn roll_result_get_takes_first_match() {
    let mut r = RollResult::new();
    r.add(Roll::new(Die::new(6), 6, 6, 6, vec![6]));
    r.add(Roll::new(Die::new(6), 2, 2, 2, vec![2]));
    assert_eq!(r.get(Die::new(6)).unwrap().total, 6);
    assert_eq!(r.get(Die::new(8)), None);
}

#[test]
fn roll_result_renders_multi_digit_values() {
    let mut r = RollResult::new();
    r.add(Roll::new(Die::new(100), 100, 0, 100, vec![100, 0]));
    r.add(Roll::new(Die::new(12), 12, 12, 12, vec![12]));
    assert_eq!(r.toValueString(), "[100, 0] + [12]");
    assert_eq!(r.to_string(), "[100, 0] + [12] -> 100 + 12 = 112");
}

#[test]
fn random_draws_vary() {
    let draws = randomMulti(200, 1, 6);
    assert!(draws.iter().any(|v| *v != draws[0]));
    assert!(draws.iter().all(|v| *v >= 1 && *v <= 6));
}

#[test]
fn roll_limit_bounds_quantity() {
    assert_eq!(Die::new(0).roll_limit(), usize::MAX);
    assert_eq!(Die::new(1).roll_limit(), usize::MAX);
    assert_eq!(Die::new(4).roll_limit(), usize::MAX / 4);
}
