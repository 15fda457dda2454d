//! Actions a player may take on a roll: which dice to set aside, and what
//! that does to the hand.
use vstd::prelude::*;
use crate::hand::dice_combination::DiceCombination;

verus! {

/// What taking the dice of an action does to the hand.
pub enum ScoreAction {
    /// keep a new combination
    KeepNew(DiceCombination),
    /// add dice to an existing combination in the hand; a `Single` or
    /// `Multiple` here carries the count being added, not the stored total
    AddTo(DiceCombination),
    /// stop rolling altogether, folding these combinations into the hand
    Stay(Vec<DiceCombination>),
}

/// The spec-level shape of a [`ScoreAction`], with the `Stay` list as a `Seq`.
#[verifier::ext_equal]
pub enum ScoreActionV {
    KeepNew(DiceCombination),
    AddTo(DiceCombination),
    Stay(Seq<DiceCombination>),
}

impl View for ScoreAction {
    type V = ScoreActionV;

    open spec fn view(&self) -> ScoreActionV {
        match self {
            ScoreAction::KeepNew(c) => ScoreActionV::KeepNew(*c),
            ScoreAction::AddTo(c) => ScoreActionV::AddTo(*c),
            ScoreAction::Stay(cs) => ScoreActionV::Stay(cs@),
        }
    }
}

impl ScoreAction {
    /// The combinations the action speaks of, as a sequence.
    pub open spec fn spec_combos(self) -> Seq<DiceCombination> {
        match self {
            ScoreAction::KeepNew(c) => seq![c],
            ScoreAction::AddTo(c) => seq![c],
            ScoreAction::Stay(cs) => cs@,
        }
    }

    /// The first combination the action speaks of.
    pub fn dice_combo(&self) -> (r: DiceCombination)
        requires
            self.spec_combos().len() > 0,
        ensures
            r == self.spec_combos()[0],
    {
        match self {
            ScoreAction::KeepNew(c) => *c,
            ScoreAction::AddTo(c) => *c,
            ScoreAction::Stay(cs) => cs[0],
        }
    }

    /// The same kind of action, now speaking of `new_combo`: a `Stay` gains
    /// it at the end of its list, the other kinds replace theirs.
    pub fn with_combo(self, new_combo: DiceCombination) -> (r: Self)
        ensures
            self matches ScoreAction::KeepNew(_) ==> r == ScoreAction::KeepNew(new_combo),
            self matches ScoreAction::AddTo(_) ==> r == ScoreAction::AddTo(new_combo),
            self matches ScoreAction::Stay(cs) ==> (r matches ScoreAction::Stay(cs2) && cs2@
                == cs@.push(new_combo)),
    {
        match self {
            ScoreAction::KeepNew(_) => Self::KeepNew(new_combo),
            ScoreAction::AddTo(_) => Self::AddTo(new_combo),
            ScoreAction::Stay(mut combos) => {
                combos.push(new_combo);
                Self::Stay(combos)
            },
        }
    }
}

/// A proposed move: the rolled dice to set aside, and what doing so means.
pub struct DiceAction {
    /// the dice to keep
    pub dice: Vec<u8>,
    /// the action the user is performing by taking these dice
    pub action: ScoreAction,
}

/// The spec-level shape of a [`DiceAction`].
#[verifier::ext_equal]
pub struct DiceActionV {
    pub dice: Seq<u8>,
    pub action: ScoreActionV,
}

impl View for DiceAction {
    type V = DiceActionV;

    open spec fn view(&self) -> DiceActionV {
        DiceActionV { dice: self.dice@, action: self.action@ }
    }
}

impl DiceAction {
    /// The straight this action forms or extends, if it is one: only a
    /// straight's score is banked irrevocably the moment it is taken.
    pub open spec fn spec_straight_combo(self) -> Option<DiceCombination> {
        match self.action {
            ScoreAction::KeepNew(c) => if c matches DiceCombination::Straight { .. } {
                Some(c)
            } else {
                None
            },
            ScoreAction::AddTo(c) => if c matches DiceCombination::Straight { .. } {
                Some(c)
            } else {
                None
            },
            ScoreAction::Stay(_) => None,
        }
    }

    /// The score this action makes irrevocable, if any: the value of the
    /// straight it forms or extends.
    pub fn has_guaranteed_score(&self) -> (r: Option<u32>)
        requires
            self.spec_straight_combo() matches Some(c) ==> c.valid(),
        ensures
            self.spec_straight_combo() matches Some(c) ==> r == Some(c.spec_score() as u32),
            self.spec_straight_combo() is None ==> r is None,
    {
        match &self.action {
            ScoreAction::KeepNew(combo) => if combo.is_straight_roll() {
                Some(combo.score())
            } else {
                None
            },
            ScoreAction::AddTo(combo) => if combo.is_straight_roll() {
                Some(combo.score())
            } else {
                None
            },
            _ => None,
        }
    }
}

} // verus!
