#![allow(non_snake_case)]

use dice_roller::{Die, Equation, Roll, RollResult};
use std::collections::BTreeMap;

fn buildEquation() -> Equation {
    let d4 = Die::new(4);
    let d6 = Die::new(6);

    let mut data = Equation::default();
    data.add(d4);
    data.add(d6);
    data.add(d6);
    data.add(d6);
    data.add(d6);
    data.add(d6);

    data
}

fn buildRollResult() -> RollResult {
    let d4 = Die::new(4);
    let d6 = Die::new(6);
    let mut data = RollResult::default();
    data.add(Roll::new(d4, 4, 2, 6, vec![4, 2]));
    data.add(Roll::new(d6, 6, 3, 9, vec![3, 6]));

    data
}

#[test]
fn test_Equation_add() {
    let d4 = Die::new(4);
    let mut data = Equation::default();
    data.add(d4);

    let expected = 1;
    let result = data.count(d4);
    assert_eq!(result, expected);
}

#[test]
fn test_Equation_clear() {
    let mut data = buildEquation();
    data.clear();

    assert_eq!(data.read().len(), 0);
}

#[test]
fn test_Equation_count() {
    let d4 = Die::new(4);
    let d6 = Die::new(6);
    let data = buildEquation();

    assert_eq!(data.count(d4), 1);
    assert_eq!(data.count(d6), 5);
}

#[test]
fn test_Equation_read() {
    let d4 = Die::new(4);
    let d6 = Die::new(6);
    let mut data = buildEquation();

    let mut result: BTreeMap<Die, usize> = data.read().into_iter().collect();
    *result.get_mut(&d6).unwrap() = 9;
    data.add(d4);

    let live: BTreeMap<Die, usize> = data.read().into_iter().collect();
    assert_ne!(result.get(&d4), live.get(&d4));
    assert_ne!(result.get(&d6), live.get(&d6));
}

#[test]
fn test_Equation_set() {
    let d4 = Die::new(4);
    let mut data = buildEquation();
    let before = data.count(d4);

    data.set(d4, 4);
    let after = data.count(d4);

    assert_ne!(before, after);
}

#[test]
fn test_Equation_subtract() {
    let d4 = Die::new(4);
    let d6 = Die::new(6);
    let mut data = buildEquation();

    let mut expected = data.count(d4) - 1;
    data.subtract(d4);

    let mut result = data.count(d4);
    assert_eq!(result, expected);

    expected = data.count(d6) - 1;
    data.subtract(d6);
    result = data.count(d6);

    assert_eq!(result, expected);
}

#[test]
fn test_Equation_toString() {
    let data = buildEquation();
    let expected = "1d4 + 5d6".to_string();
    let result = data.to_string();

    assert_eq!(result, expected);
}

#[test]
fn test_RollResult_from_Equation() {
    let d4 = Die::new(4);
    let data = buildEquation();
    let result = RollResult::from(data);

    assert_ne!(result.get(d4), None);
}

#[test]
fn test_RollResult_get() {
    let d4 = Die::new(4);
    let instance = buildRollResult();
    let result = instance.get(d4).unwrap();

    assert_eq!(result.die, d4);
    assert_eq!(result.highest, 4);
    assert_eq!(result.lowest, 2);
    assert_eq!(result.total, 6);
    assert_eq!(result.values, vec![4, 2]);
}

#[test]
fn test_RollResult_total() {
    let instance = buildRollResult();
    let result = instance.total();

    assert_eq!(result, 15);
}

#[test]
fn test_RollResult_to_string() {
    let instance = buildRollResult();
    let result = instance.to_string();
    let expected = "[4, 2] + [3, 6] -> 6 + 9 = 15".to_string();

    assert_eq!(result, expected);
}

#[test]
fn test_RollResult_toIntermediateString() {
    let instance = buildRollResult();
    let result = instance.toIntermediateString();
    let expected = "6 + 9".to_string();

    assert_eq!(result, expected);
}

#[test]
fn test_RollResult_toValueString() {
    let instance = buildRollResult();
    let result = instance.toValueString();
    let expected = "[4, 2] + [3, 6]".to_string();

    assert_eq!(result, expected);
}
