use farkle::dice_set::DiceSet;
use farkle::disp::render_dice;
use farkle::hand::dice_action::{DiceAction, ScoreAction};
use farkle::hand::dice_combination::DiceCombination;
use farkle::hand::Hand;

#[test]
fn dice_render_as_bracketed_faces() {
    assert_eq!(render_dice(&vec![3, 4, 4]), "[3][4][4]");
    assert_eq!(render_dice(&vec![]), "");
    let ds = DiceSet::from_values(&[6, 1, 6]);
    assert_eq!(ds.render(), "[1][6][6]");
}

#[test]
fn combinations_render_as_descriptions() {
    assert_eq!(DiceCombination::Single { value: 5, max_count: 2 }.render(), "2 5s");
    assert_eq!(DiceCombination::Multiple { value: 6, quantity: 1 }.render(), "combo of 3 6s");
    assert_eq!(DiceCombination::Multiple { value: 1, quantity: 10 }.render(), "combo of 12 1s");
    assert_eq!(DiceCombination::Straight { roll: 2 }.render(), "straight");
    assert_eq!(DiceCombination::Pairs(2, 4, 6).render(), "pairs");
}

#[test]
fn actions_render_with_their_dice() {
    let action = DiceAction {
        dice: vec![5, 5],
        action: ScoreAction::KeepNew(DiceCombination::Single { value: 5, max_count: 2 }),
    };
    assert_eq!(action.render(), "save [5][5] to form 2 5s");

    let extend = DiceAction {
        dice: vec![6],
        action: ScoreAction::AddTo(DiceCombination::Multiple { value: 6, quantity: 1 }),
    };
    assert_eq!(extend.render(), "save [6] to add to combo of 3 6s");

    let stay = DiceAction {
        dice: vec![1, 5],
        action: ScoreAction::Stay(vec![
            DiceCombination::Single { value: 1, max_count: 1 },
            DiceCombination::Single { value: 5, max_count: 1 },
        ]),
    };
    assert_eq!(stay.render(), "save [1][5] to stay with 1 1s,1 5s");
}

#[test]
fn hand_renders_scores_and_held_combos() {
    let mut hand = Hand::new();
    assert_eq!(
        hand.render(),
        "Cumulative score: 0 (0 guaranteed)\nSaved combos: 0 points\n"
    );
    let combo = DiceCombination::Single { value: 1, max_count: 3 };
    hand.perform_action(DiceAction {
        dice: combo.involved_dice(),
        action: ScoreAction::KeepNew(combo),
    });
    assert_eq!(
        hand.render(),
        "Cumulative score: 0 (0 guaranteed)\nSaved combos: 300 points\n3 1s\n"
    );
    assert_eq!(hand.held_combos(), vec![combo]);
}
