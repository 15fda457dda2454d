use farkle::dice_set::DiceSet;
use farkle::hand::dice_action::{DiceAction, ScoreAction};
use farkle::hand::dice_combination::DiceCombination;
use farkle::hand::Hand;

fn keep_new(combo: DiceCombination) -> DiceAction {
    DiceAction { dice: combo.involved_dice(), action: ScoreAction::KeepNew(combo) }
}

#[test]
fn fresh_hand_has_nothing() {
    let hand = Hand::new();
    assert_eq!(hand.cumulative_score(), 0);
    assert_eq!(hand.guaranteed_score(), 0);
    assert_eq!(hand.score_combos(), 0);
    assert!(hand.saved_dice().is_empty());
}

#[test]
fn roll_with_triple_and_singles_offers_all_of_them() {
    // roll [1,1,1,5,5,2]: a triple of ones, singles from the full face
    // counts, and a synthesized stay aggregating all of it
    let hand = Hand::new();
    let dice = DiceSet::from_values(&[1, 1, 1, 5, 5, 2]);
    let actions = hand.determine_actions(&dice);
    assert_eq!(actions.len(), 4);
    assert!(matches!(
        actions[0].action,
        ScoreAction::KeepNew(DiceCombination::Multiple { value: 1, quantity: 1 })
    ));
    assert_eq!(actions[0].dice, vec![1, 1, 1]);
    // singles are proposed from the full face count, independent of the triple
    assert!(matches!(
        actions[1].action,
        ScoreAction::KeepNew(DiceCombination::Single { value: 1, max_count: 3 })
    ));
    assert_eq!(actions[1].dice, vec![1, 1, 1]);
    assert!(matches!(
        actions[2].action,
        ScoreAction::KeepNew(DiceCombination::Single { value: 5, max_count: 2 })
    ));
    assert_eq!(actions[2].dice, vec![5, 5]);
    match &actions[3].action {
        ScoreAction::Stay(combos) => {
            assert_eq!(
                combos,
                &vec![
                    DiceCombination::Multiple { value: 1, quantity: 1 },
                    DiceCombination::Single { value: 1, max_count: 3 },
                    DiceCombination::Single { value: 5, max_count: 2 },
                ]
            );
        },
        _ => panic!("last action must be a stay"),
    }
}

#[test]
fn staying_folds_everything_and_ends_the_turn() {
    let mut hand = Hand::new();
    let dice = DiceSet::from_values(&[1, 1, 1, 5, 5, 2]);
    let mut actions = hand.determine_actions(&dice);
    let stay = actions.pop().unwrap();
    assert!(matches!(stay.action, ScoreAction::Stay(_)));
    let keep_going = hand.perform_action(stay);
    assert!(!keep_going);
    // triple of ones (1000) + three single ones (300) + two fives (100)
    assert_eq!(hand.score_combos(), 1400);
    assert_eq!(hand.guaranteed_score(), 0);
}

#[test]
fn extending_a_held_multiple_adds_the_rolled_dice() {
    // three sixes banked from a prior roll; the new roll shows one more 6
    let mut hand = Hand::new();
    let held = DiceCombination::Multiple { value: 6, quantity: 1 };
    assert!(hand.perform_action(keep_new(held)));
    assert_eq!(hand.score_combos(), 600);

    let roll = DiceSet::from_values(&[6, 3, 2]);
    let actions = hand.determine_actions(&roll);
    let extend = &actions[0];
    assert!(matches!(
        extend.action,
        ScoreAction::AddTo(DiceCombination::Multiple { value: 6, quantity: 1 })
    ));
    assert_eq!(extend.dice, vec![6]);

    let extend = DiceAction {
        dice: extend.dice.clone(),
        action: ScoreAction::AddTo(DiceCombination::Multiple { value: 6, quantity: 1 }),
    };
    assert!(hand.perform_action(extend));
    // four sixes now held
    assert_eq!(hand.score_combos(), 1200);
}

#[test]
fn extending_a_held_single_adds_the_rolled_count() {
    let mut hand = Hand::new();
    assert!(hand.perform_action(keep_new(DiceCombination::Single { value: 5, max_count: 2 })));
    assert_eq!(hand.score_combos(), 100);

    let roll = DiceSet::from_values(&[5, 2, 3]);
    let actions = hand.determine_actions(&roll);
    assert_eq!(actions.len(), 2);
    assert!(matches!(
        actions[0].action,
        ScoreAction::AddTo(DiceCombination::Single { value: 5, max_count: 1 })
    ));
    let extend = DiceAction {
        dice: vec![5],
        action: ScoreAction::AddTo(DiceCombination::Single { value: 5, max_count: 1 }),
    };
    assert!(hand.perform_action(extend));
    assert_eq!(hand.score_combos(), 150);
}

#[test]
fn accumulate_score_clears_the_hand_but_keeps_the_counters() {
    let mut hand = Hand::new();
    hand.perform_action(keep_new(DiceCombination::Straight { roll: 1 }));
    assert_eq!(hand.guaranteed_score(), 1500);
    hand.perform_action(keep_new(DiceCombination::Single { value: 1, max_count: 3 }));
    let before = hand.score_combos();
    assert_eq!(before, 1800);

    hand.accumulate_score();
    assert_eq!(hand.cumulative_score(), 1800);
    assert_eq!(hand.score_combos(), 0);
    assert_eq!(hand.guaranteed_score(), 1500);

    // the hand now behaves as fresh: the old single-1 index is gone, so a
    // new roll of ones proposes a new combination, not an extension
    let roll = DiceSet::from_values(&[1, 2]);
    let actions = hand.determine_actions(&roll);
    assert_eq!(actions.len(), 2);
    assert!(matches!(
        actions[0].action,
        ScoreAction::KeepNew(DiceCombination::Single { value: 1, max_count: 1 })
    ));
    assert!(matches!(actions[1].action, ScoreAction::Stay(_)));
    assert_eq!(hand.cumulative_score(), 1800);
}

#[test]
fn unscorable_roll_is_a_bust() {
    let hand = Hand::new();
    let dice = DiceSet::from_values(&[2, 2, 3, 4, 6, 6]);
    let actions = hand.determine_actions(&dice);
    assert!(actions.is_empty());
}

#[test]
fn straight_roll_is_guaranteed_at_once() {
    let mut hand = Hand::new();
    let dice = DiceSet::from_values(&[1, 2, 3, 4, 5, 6]);
    let actions = hand.determine_actions(&dice);
    // a straight, a single 1, a single 5, and the stay
    assert_eq!(actions.len(), 4);
    assert!(matches!(
        actions[0].action,
        ScoreAction::KeepNew(DiceCombination::Straight { roll: 1 })
    ));
    let straight = DiceAction {
        dice: actions[0].dice.clone(),
        action: ScoreAction::KeepNew(DiceCombination::Straight { roll: 1 }),
    };
    let keep_going = hand.perform_action(straight);
    assert!(keep_going);
    assert_eq!(hand.guaranteed_score(), 1500);
    assert_eq!(hand.score_combos(), 1500);
}

#[test]
fn pairs_roll_proposes_the_whole_roll() {
    let hand = Hand::new();
    let dice = DiceSet::from_values(&[3, 3, 4, 4, 6, 6]);
    let actions = hand.determine_actions(&dice);
    assert_eq!(actions.len(), 2);
    assert!(matches!(
        actions[0].action,
        ScoreAction::KeepNew(DiceCombination::Pairs(3, 4, 6))
    ));
    let mut dice_taken = actions[0].dice.clone();
    dice_taken.sort();
    assert_eq!(dice_taken, vec![3, 3, 4, 4, 6, 6]);
    assert!(matches!(actions[1].action, ScoreAction::Stay(_)));
}

#[test]
fn guaranteed_score_is_reported_for_straights_only() {
    let straight = keep_new(DiceCombination::Straight { roll: 2 });
    assert_eq!(straight.has_guaranteed_score(), Some(1000));
    let single = keep_new(DiceCombination::Single { value: 1, max_count: 2 });
    assert_eq!(single.has_guaranteed_score(), None);
    let stay = DiceAction {
        dice: vec![1, 2, 3, 4, 5, 6],
        action: ScoreAction::Stay(vec![DiceCombination::Straight { roll: 1 }]),
    };
    assert_eq!(stay.has_guaranteed_score(), None);
}

#[test]
fn score_action_combo_accessors() {
    let combo = DiceCombination::Single { value: 5, max_count: 2 };
    let action = ScoreAction::KeepNew(combo);
    assert_eq!(action.dice_combo(), combo);

    let reduced = DiceCombination::Single { value: 5, max_count: 1 };
    let replaced = action.with_combo(reduced);
    assert_eq!(replaced.dice_combo(), reduced);

    let stay = ScoreAction::Stay(vec![combo]);
    let extended = stay.with_combo(reduced);
    match extended {
        ScoreAction::Stay(combos) => assert_eq!(combos, vec![combo, reduced]),
        _ => panic!("with_combo must keep the action kind"),
    }
}

#[test]
fn action_ok_accepts_proposed_actions_only() {
    let mut hand = Hand::new();
    // a new single is fine; extending one that is not held is not
    let combo = DiceCombination::Single { value: 5, max_count: 2 };
    assert!(hand.action_ok(&keep_new(combo)));
    let extend = DiceAction { dice: vec![5, 5], action: ScoreAction::AddTo(combo) };
    assert!(!hand.action_ok(&extend));
    // a single of a face that never scores is malformed
    let bad = DiceCombination::Single { value: 3, max_count: 1 };
    assert!(!hand.action_ok(&keep_new(bad)));

    // once the single is held, the extension becomes legal
    hand.perform_action(keep_new(combo));
    assert!(hand.action_ok(&extend));

    // every action the engine proposes passes its own check
    let roll = DiceSet::from_values(&[1, 1, 1, 5, 5, 2]);
    for action in hand.determine_actions(&roll) {
        assert!(hand.action_ok(&action));
    }
}

#[test]
fn can_accumulate_on_ordinary_hands() {
    let mut hand = Hand::new();
    hand.perform_action(keep_new(DiceCombination::Single { value: 1, max_count: 3 }));
    assert!(hand.can_accumulate());
    hand.accumulate_score();
    assert_eq!(hand.cumulative_score(), 300);
}
