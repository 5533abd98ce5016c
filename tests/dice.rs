#![allow(non_snake_case)]

use dice_roller::dice::{MINIMUM_DIE_SIDES, MINIMUM_DIE_VALUE};
use dice_roller::{Die, Roll};

fn rollDiceTest(quantity: usize) {
    let max = 20;

    let die = Die { sides: max };
    let result = die.roll(quantity);

    assert_eq!(result.values.len(), quantity);
    assert!(result.total >= MINIMUM_DIE_VALUE * quantity);
    assert!(result.total <= max * quantity);
}

#[test]
fn test_Die_toString() {
    let die = Die { sides: 20 };
    let result = die.to_string();
    let expected = "d20".to_owned();

    assert_eq!(result, expected);
}

#[test]
fn test_Die_roll_1() {
    rollDiceTest(1);
}

#[test]
fn test_Die_roll_10() {
    rollDiceTest(10);
}

#[test]
fn test_Roll() {
    let mut result = Roll::default();
    result.values = vec![1, 2, 3, 4];
    result.calculate();

    let expected = 10;

    assert_eq!(result.total, expected);
}
