use farkle::hand::dice_combination::DiceCombination;

#[test]
fn scoring_table_is_exact() {
    assert_eq!(DiceCombination::Single { value: 1, max_count: 3 }.score(), 300);
    assert_eq!(DiceCombination::Single { value: 5, max_count: 2 }.score(), 100);
    // four ones: two beyond the base pair
    assert_eq!(DiceCombination::Multiple { value: 1, quantity: 2 }.score(), 2000);
    // three sixes
    assert_eq!(DiceCombination::Multiple { value: 6, quantity: 1 }.score(), 600);
    assert_eq!(DiceCombination::Straight { roll: 1 }.score(), 1500);
    assert_eq!(DiceCombination::Straight { roll: 2 }.score(), 1000);
    assert_eq!(DiceCombination::Straight { roll: 3 }.score(), 500);
    assert_eq!(DiceCombination::Pairs(2, 4, 6).score(), 1000);
    assert_eq!(DiceCombination::Pairs(1, 3, 5).score(), 1000);
}

#[test]
fn involved_dice_reconstructs_the_physical_dice() {
    assert_eq!(
        DiceCombination::Single { value: 5, max_count: 3 }.involved_dice(),
        vec![5, 5, 5]
    );
    assert_eq!(
        DiceCombination::Multiple { value: 4, quantity: 2 }.involved_dice(),
        vec![4, 4, 4, 4]
    );
    assert_eq!(
        DiceCombination::Straight { roll: 2 }.involved_dice(),
        vec![1, 2, 3, 4, 5, 6]
    );
    assert_eq!(
        DiceCombination::Pairs(2, 4, 6).involved_dice(),
        vec![2, 2, 4, 4, 6, 6]
    );
}

#[test]
fn only_straights_are_guaranteed() {
    assert!(DiceCombination::Straight { roll: 3 }.is_straight_roll());
    assert!(!DiceCombination::Single { value: 1, max_count: 1 }.is_straight_roll());
    assert!(!DiceCombination::Multiple { value: 2, quantity: 1 }.is_straight_roll());
    assert!(!DiceCombination::Pairs(1, 2, 3).is_straight_roll());
}
