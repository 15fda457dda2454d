use farkle::dice_set::DiceSet;
use farkle::hand::dice_combination::DiceCombination;

fn sorted(mut v: Vec<u8>) -> Vec<u8> {
    v.sort();
    v
}

#[test]
fn values_round_trip_as_bag() {
    let ds = DiceSet::from_values(&[3, 1, 3, 6, 1, 1]);
    assert_eq!(sorted(ds.dice_values()), vec![1, 1, 1, 3, 3, 6]);
    assert_eq!(ds.size(), 6);
}

#[test]
fn values_round_trip_empty() {
    let ds = DiceSet::from_values(&[]);
    assert_eq!(ds.dice_values(), Vec::<u8>::new());
    assert!(ds.is_empty());
}

#[test]
fn add_and_get_die_count() {
    let mut ds = DiceSet::new();
    ds.add(4);
    ds.add_amount(4, 2);
    ds.add_amount(2, 1);
    assert_eq!(ds.get_die_count(4), Some((4, 3)));
    assert_eq!(ds.get_die_count(2), Some((2, 1)));
    assert_eq!(ds.get_die_count(5), None);
    assert_eq!(ds.size(), 4);
    assert!(ds.has_die_value(4));
    assert!(!ds.has_die_value(5));
}

#[test]
fn remove_amount_floors_at_zero() {
    let mut ds = DiceSet::from_values(&[2, 2, 2]);
    ds.remove_amount(2, 5);
    assert_eq!(ds.get_die_count(2), None);
    assert_eq!(ds.size(), 0);

    let mut ds = DiceSet::from_values(&[2, 2, 2]);
    ds.remove_amount(2, 1);
    assert_eq!(ds.get_die_count(2), Some((2, 2)));
    assert_eq!(ds.size(), 2);

    let mut ds = DiceSet::from_values(&[2, 2]);
    ds.remove_amount(6, 4);
    assert_eq!(ds.size(), 2);
}

#[test]
fn remove_all_drops_the_face() {
    let mut ds = DiceSet::from_values(&[5, 5, 5, 3]);
    ds.remove_all(5);
    assert_eq!(ds.get_die_count(5), None);
    assert_eq!(ds.size(), 1);
    assert!(ds.has_die_value(3));
}

#[test]
fn union_combines_counts() {
    let a = DiceSet::from_values(&[1, 2, 2]);
    let b = DiceSet::from_values(&[2, 5]);
    let u = a.union(b);
    assert_eq!(u.get_die_count(1), Some((1, 1)));
    assert_eq!(u.get_die_count(2), Some((2, 3)));
    assert_eq!(u.get_die_count(5), Some((5, 1)));
    assert_eq!(u.size(), 5);
}

#[test]
fn union_is_commutative() {
    let a = DiceSet::from_values(&[1, 2, 2, 6]);
    let b = DiceSet::from_values(&[2, 5, 6, 6]);
    let ab = a.union(b);
    let ba = b.union(a);
    assert_eq!(ab.dice_values(), ba.dice_values());
}

#[test]
fn union_is_associative() {
    let a = DiceSet::from_values(&[1, 2]);
    let b = DiceSet::from_values(&[2, 3]);
    let c = DiceSet::from_values(&[3, 6, 6]);
    let ab_c = a.union(b).union(c);
    let a_bc = a.union(b.union(c));
    assert_eq!(ab_c.dice_values(), a_bc.dice_values());
}

#[test]
fn straight_is_exactly_one_of_each() {
    assert!(DiceSet::from_values(&[1, 2, 3, 4, 5, 6]).is_straight());
    assert!(DiceSet::from_values(&[6, 5, 4, 3, 2, 1]).is_straight());
    assert!(!DiceSet::from_values(&[1, 2, 3, 4, 5, 5]).is_straight());
    assert!(!DiceSet::from_values(&[1, 2, 3, 4, 5]).is_straight());
    assert!(!DiceSet::from_values(&[1, 1, 2, 2, 3, 3, 4, 4, 5, 5, 6, 6]).is_straight());
    assert!(!DiceSet::new().is_straight());
}

#[test]
fn pairs_needs_exactly_three_doubled_faces() {
    assert_eq!(DiceSet::from_values(&[2, 2, 4, 4, 6, 6]).is_pairs(), Some((2, 4, 6)));
    // an extra face alongside three pairs still counts
    assert_eq!(DiceSet::from_values(&[2, 2, 4, 4, 6, 6, 1]).is_pairs(), Some((2, 4, 6)));
    assert_eq!(DiceSet::from_values(&[2, 2, 4, 4]).is_pairs(), None);
    // a face with three of a kind is not a pair
    assert_eq!(DiceSet::from_values(&[2, 2, 4, 4, 6, 6, 6]).is_pairs(), None);
    // four doubled faces are too many
    assert_eq!(DiceSet::from_values(&[1, 1, 2, 2, 4, 4, 6, 6]).is_pairs(), None);
}

#[test]
fn find_multiples_yields_quantity_minus_two() {
    let ds = DiceSet::from_values(&[3, 3, 3, 3, 5, 5, 5, 2]);
    let multiples = ds.find_multiples();
    assert_eq!(
        multiples,
        vec![
            DiceCombination::Multiple { value: 3, quantity: 2 },
            DiceCombination::Multiple { value: 5, quantity: 1 },
        ]
    );
}

#[test]
fn take_multiples_lists_faces_with_three_or_more() {
    let ds = DiceSet::from_values(&[3, 3, 3, 3, 5, 5, 5, 2]);
    assert_eq!(ds.take_multiples(), vec![3, 5]);
    assert_eq!(DiceSet::from_values(&[1, 2]).take_multiples(), Vec::<u8>::new());
}

#[test]
fn find_singles_reports_full_counts_of_ones_and_fives() {
    let ds = DiceSet::from_values(&[1, 1, 5, 2, 3]);
    let singles = ds.find_singles();
    assert_eq!(
        singles,
        vec![
            DiceCombination::Single { value: 1, max_count: 2 },
            DiceCombination::Single { value: 5, max_count: 1 },
        ]
    );
    assert!(DiceSet::from_values(&[2, 3, 4]).find_singles().is_empty());
}

#[test]
fn rand_rolls_the_requested_number_of_valid_faces() {
    let ds = DiceSet::rand(6);
    assert_eq!(ds.size(), 6);
    let values = ds.dice_values();
    assert_eq!(values.len(), 6);
    for v in values {
        assert!((1..=6).contains(&v));
    }
    assert!(DiceSet::rand(0).is_empty());
}
