//! The per-turn hand: held combinations, their face indices, the banked and
//! guaranteed scores, and the action-application state machine.
use vstd::prelude::*;
use crate::dice_set::DiceSet;
use crate::hand::dice_action::{DiceAction, DiceActionV, ScoreAction, ScoreActionV};
use crate::hand::dice_combination::DiceCombination;

pub mod dice_action;
pub mod dice_combination;

verus! {

/// The spec-level picture of what a hand holds: the combination arena and
/// the two face→index lookup maps (index `f - 1` holds face `f`'s entry).
#[verifier::ext_equal]
pub struct Held {
    pub combos: Seq<DiceCombination>,
    pub single: Seq<Option<usize>>,
    pub multiple: Seq<Option<usize>>,
}

/// A held state with no combinations and empty indices.
pub open spec fn empty_held() -> Held {
    Held {
        combos: Seq::empty(),
        single: Seq::new(6, |i: int| None),
        multiple: Seq::new(6, |i: int| None),
    }
}

/// Well-formedness of a held state: each index entry points into the arena,
/// at a combination of the indexed variant and face, and every held
/// combination satisfies its field invariants.
pub open spec fn held_wf(m: Held) -> bool {
    &&& m.single.len() == 6
    &&& m.multiple.len() == 6
    &&& forall|f: int|
        1 <= f <= 6 ==> match #[trigger] m.single[f - 1] {
            Some(i) => i < m.combos.len() && (m.combos[i as int] matches DiceCombination::Single {
                value,
                ..
            } && value as int == f),
            None => true,
        }
    &&& forall|f: int|
        1 <= f <= 6 ==> match #[trigger] m.multiple[f - 1] {
            Some(i) => i < m.combos.len() && (m.combos[i as int]
                matches DiceCombination::Multiple { value, .. } && value as int == f),
            None => true,
        }
    &&& forall|i: int| 0 <= i < m.combos.len() ==> (#[trigger] m.combos[i]).valid()
}

/// Whether folding `c` into the held state stays within the counters'
/// machine limits: where the face is already indexed, the entry must be of
/// the matching variant with room for the added count; an unindexed face is
/// inserted and needs no room.
pub open spec fn can_upsert(m: Held, c: DiceCombination) -> bool {
    match c {
        DiceCombination::Single { value, max_count } => if 1 <= value <= 6 {
            match m.single[value - 1] {
                Some(i) => i < m.combos.len() && match m.combos[i as int] {
                    DiceCombination::Single { value: _, max_count: m0 } => m0 + max_count <= 255,
                    _ => false,
                },
                None => true,
            }
        } else {
            false
        },
        DiceCombination::Multiple { value, quantity } => if 1 <= value <= 6 {
            match m.multiple[value - 1] {
                Some(i) => i < m.combos.len() && match m.combos[i as int] {
                    DiceCombination::Multiple { value: _, quantity: q0 } => q0 + quantity <= 253,
                    _ => false,
                },
                None => true,
            }
        } else {
            false
        },
        DiceCombination::Straight { .. } => true,
        DiceCombination::Pairs(_, _, _) => true,
    }
}

/// Whether an extension finds a registered target: a `Single` or `Multiple`
/// may only be added to a hand whose matching index already holds its face.
pub open spec fn addto_target_present(m: Held, c: DiceCombination) -> bool {
    match c {
        DiceCombination::Single { value, .. } => 1 <= value <= 6 && m.single[value - 1] is Some,
        DiceCombination::Multiple { value, .. } => 1 <= value <= 6 && m.multiple[value - 1]
            is Some,
        _ => true,
    }
}

/// Folding one combination into the held state: a `Single` or `Multiple`
/// adds its count to the entry its face indexes, or is inserted and indexed
/// if the face has none; anything else is appended to the arena.
pub open spec fn upsert_model(m: Held, c: DiceCombination) -> Held {
    match c {
        DiceCombination::Single { value, max_count } => if 1 <= value <= 6 {
            match m.single[value - 1] {
                Some(i) => if i < m.combos.len() {
                    match m.combos[i as int] {
                        DiceCombination::Single { value: v0, max_count: m0 } => Held {
                            combos: m.combos.update(
                                i as int,
                                DiceCombination::Single {
                                    value: v0,
                                    max_count: (m0 + max_count) as u8,
                                },
                            ),
                            ..m
                        },
                        _ => m,
                    }
                } else {
                    m
                },
                None => Held {
                    combos: m.combos.push(c),
                    single: m.single.update(value - 1, Some(m.combos.len() as usize)),
                    ..m
                },
            }
        } else {
            m
        },
        DiceCombination::Multiple { value, quantity } => if 1 <= value <= 6 {
            match m.multiple[value - 1] {
                Some(i) => if i < m.combos.len() {
                    match m.combos[i as int] {
                        DiceCombination::Multiple { value: v0, quantity: q0 } => Held {
                            combos: m.combos.update(
                                i as int,
                                DiceCombination::Multiple {
                                    value: v0,
                                    quantity: (q0 + quantity) as u8,
                                },
                            ),
                            ..m
                        },
                        _ => m,
                    }
                } else {
                    m
                },
                None => Held {
                    combos: m.combos.push(c),
                    multiple: m.multiple.update(value - 1, Some(m.combos.len() as usize)),
                    ..m
                },
            }
        } else {
            m
        },
        _ => Held { combos: m.combos.push(c), ..m },
    }
}

/// Folding a whole list of combinations into the held state, left to right.
pub open spec fn upsert_all(m: Held, cs: Seq<DiceCombination>) -> Held
    decreases cs.len(),
{
    if cs.len() == 0 {
        m
    } else {
        upsert_all(upsert_model(m, cs[0]), cs.skip(1))
    }
}

/// Whether every step of folding `cs` into the held state stays within the
/// machine limits of [`can_upsert`].
pub open spec fn stay_upsertable(m: Held, cs: Seq<DiceCombination>) -> bool
    decreases cs.len(),
{
    if cs.len() == 0 {
        true
    } else {
        can_upsert(m, cs[0]) && stay_upsertable(upsert_model(m, cs[0]), cs.skip(1))
    }
}

/// Keeping a brand-new combination: appended to the arena, and a `Single` or
/// `Multiple` registers its face in the matching index.
pub open spec fn keep_new_model(m: Held, c: DiceCombination) -> Held {
    match c {
        DiceCombination::Single { value, .. } => if 1 <= value <= 6 {
            Held {
                combos: m.combos.push(c),
                single: m.single.update(value - 1, Some(m.combos.len() as usize)),
                ..m
            }
        } else {
            Held { combos: m.combos.push(c), ..m }
        },
        DiceCombination::Multiple { value, .. } => if 1 <= value <= 6 {
            Held {
                combos: m.combos.push(c),
                multiple: m.multiple.update(value - 1, Some(m.combos.len() as usize)),
                ..m
            }
        } else {
            Held { combos: m.combos.push(c), ..m }
        },
        _ => Held { combos: m.combos.push(c), ..m },
    }
}

/// The summed point value of a list of combinations.
pub open spec fn spec_score_sum(cs: Seq<DiceCombination>) -> int
    decreases cs.len(),
{
    if cs.len() == 0 {
        0
    } else {
        spec_score_sum(cs.drop_last()) + cs.last().spec_score()
    }
}

/// Every combination's score is nonnegative.
proof fn lemma_score_nonneg(c: DiceCombination)
    ensures
        c.spec_score() >= 0,
{
    match c {
        DiceCombination::Multiple { value, quantity } => {
            assert((value * 100) * quantity >= 0) by (nonlinear_arith)
                requires
                    value >= 0,
                    quantity >= 0,
            ;
        },
        _ => {},
    }
}

/// A sum of combination scores is nonnegative.
proof fn lemma_score_sum_nonneg(cs: Seq<DiceCombination>)
    ensures
        spec_score_sum(cs) >= 0,
    decreases cs.len(),
{
    if cs.len() > 0 {
        lemma_score_sum_nonneg(cs.drop_last());
        lemma_score_nonneg(cs.last());
    }
}

/// A prefix of a combination list never scores more than the whole list.
proof fn lemma_score_sum_take_le(cs: Seq<DiceCombination>, j: int)
    requires
        0 <= j <= cs.len(),
    ensures
        spec_score_sum(cs.take(j)) <= spec_score_sum(cs),
    decreases cs.len() - j,
{
    if j == cs.len() {
        assert(cs.take(j) =~= cs);
    } else {
        lemma_score_sum_take_le(cs, j + 1);
        assert(cs.take(j + 1).drop_last() =~= cs.take(j));
        assert(cs.take(j + 1).last() == cs[j]);
        lemma_score_nonneg(cs[j]);
    }
}

/// The per-turn accumulator: combinations held so far, the face indices
/// into them, the banked score, and the guaranteed (straight) score.
pub struct Hand {
    /// dice set aside toward completing a straight across rolls
    saved_dice: DiceSet,
    /// the combinations we currently hold
    combos: Vec<DiceCombination>,
    /// for each face, the index of the held `Single` of that face, if any
    single_scoring: [Option<usize>; 6],
    /// for each face, the index of the held `Multiple` of that face, if any
    dice_multiples: [Option<usize>; 6],
    /// how many points have been folded in so far this turn
    cumulative_score: u32,
    /// points guaranteed by rolling straights
    guaranteed_score: u32,
}

impl Hand {
    /// The held combinations and their face indices.
    pub closed spec fn held(self) -> Held {
        Held {
            combos: self.combos@,
            single: self.single_scoring@,
            multiple: self.dice_multiples@,
        }
    }

    /// The held combinations, in insertion order.
    pub open spec fn spec_combos(self) -> Seq<DiceCombination> {
        self.held().combos
    }

    /// The banked score.
    pub closed spec fn spec_cumulative(self) -> u32 {
        self.cumulative_score
    }

    /// The guaranteed (straight) score.
    pub closed spec fn spec_guaranteed(self) -> u32 {
        self.guaranteed_score
    }

    /// The dice set aside toward a straight.
    pub closed spec fn spec_saved(self) -> DiceSet {
        self.saved_dice
    }

    /// The held `Single` index for a face.
    pub open spec fn spec_single_idx(self, f: int) -> Option<usize> {
        if 1 <= f <= 6 {
            self.held().single[f - 1]
        } else {
            None
        }
    }

    /// The held `Multiple` index for a face.
    pub open spec fn spec_multiple_idx(self, f: int) -> Option<usize> {
        if 1 <= f <= 6 {
            self.held().multiple[f - 1]
        } else {
            None
        }
    }

    /// Invariant: the held state is well-formed, and the set-aside dice are a
    /// well-formed set of at most two (a straight completes by roll three).
    pub open spec fn wf(self) -> bool {
        &&& held_wf(self.held())
        &&& self.spec_saved().wf()
        &&& self.spec_saved().spec_total() <= 2
    }

    /// A fresh hand: nothing held, nothing banked, nothing set aside.
    pub fn new() -> (r: Self)
        ensures
            r.wf(),
            r.held() == empty_held(),
            r.spec_cumulative() == 0,
            r.spec_guaranteed() == 0,
            r.spec_saved().spec_total() == 0,
            forall|f: int| r.spec_saved().spec_count(f) == 0,
    {
        let r = Hand {
            saved_dice: DiceSet::new(),
            combos: Vec::new(),
            single_scoring: [None, None, None, None, None, None],
            dice_multiples: [None, None, None, None, None, None],
            cumulative_score: 0,
            guaranteed_score: 0,
        };
        proof {
            assert(r.held() =~= empty_held());
        }
        r
    }

    /// The banked score so far.
    pub fn cumulative_score(&self) -> (r: u32)
        ensures
            r == self.spec_cumulative(),
    {
        self.cumulative_score
    }

    /// The guaranteed (straight) score so far.
    pub fn guaranteed_score(&self) -> (r: u32)
        ensures
            r == self.spec_guaranteed(),
    {
        self.guaranteed_score
    }

    /// The set of dice that we have saved toward a straight.
    pub fn saved_dice(&self) -> (r: &DiceSet)
        ensures
            *r == self.spec_saved(),
    {
        &self.saved_dice
    }

    /// The held combinations, in insertion order.
    #[verifier::loop_isolation(false)]
    pub fn held_combos(&self) -> (r: Vec<DiceCombination>)
        ensures
            r@ == self.spec_combos(),
    {
        let mut r: Vec<DiceCombination> = Vec::new();
        let mut i: usize = 0;
        while i < self.combos.len()
            invariant
                i <= self.combos@.len(),
                r@ == self.spec_combos().take(i as int),
            decreases self.combos@.len() - i,
        {
            r.push(self.combos[i]);
            i = i + 1;
            proof {
                assert(r@ =~= self.spec_combos().take(i as int));
            }
        }
        proof {
            assert(self.spec_combos().take(self.combos@.len() as int) =~= self.spec_combos());
        }
        r
    }

    /// Scores the combinations currently in the hand.
    pub fn score_combos(&self) -> (r: u32)
        requires
            self.wf(),
            spec_score_sum(self.spec_combos()) <= u32::MAX,
        ensures
            r == spec_score_sum(self.spec_combos()),
    {
        let mut total: u32 = 0;
        let mut i: usize = 0;
        proof {
            assert(self.spec_combos().take(0int) =~= Seq::<DiceCombination>::empty());
        }
        while i < self.combos.len()
            invariant
                self.wf(),
                spec_score_sum(self.spec_combos()) <= u32::MAX,
                i <= self.spec_combos().len(),
                total == spec_score_sum(self.spec_combos().take(i as int)),
            decreases self.spec_combos().len() - i,
        {
            let c = self.combos[i];
            let s = c.score();
            proof {
                assert(self.spec_combos().take(i + 1).drop_last() =~= self.spec_combos().take(
                    i as int,
                ));
                assert(self.spec_combos().take(i + 1).last() == self.spec_combos()[i as int]);
                lemma_score_sum_take_le(self.spec_combos(), i + 1);
                lemma_score_sum_nonneg(self.spec_combos().take(i as int));
            }
            total = total + s;
            i = i + 1;
        }
        proof {
            assert(self.spec_combos().take(self.spec_combos().len() as int) =~= self.spec_combos());
        }
        total
    }

    /// Folds the held combinations' value into the banked score and clears
    /// the arena and both face indices; the guaranteed score and the
    /// set-aside dice persist. Called when the roll pool is exhausted.
    pub fn accumulate_score(&mut self)
        requires
            old(self).wf(),
            old(self).spec_cumulative() + spec_score_sum(old(self).spec_combos()) <= u32::MAX,
        ensures
            final(self).wf(),
            final(self).spec_cumulative() == old(self).spec_cumulative() + spec_score_sum(
                old(self).spec_combos(),
            ),
            final(self).held() == empty_held(),
            final(self).spec_guaranteed() == old(self).spec_guaranteed(),
            final(self).spec_saved() == old(self).spec_saved(),
    {
        proof {
            lemma_score_sum_nonneg(self.spec_combos());
        }
        let combo_score = self.score_combos();
        self.cumulative_score = self.cumulative_score + combo_score;
        self.combos = Vec::new();
        self.single_scoring = [None, None, None, None, None, None];
        self.dice_multiples = [None, None, None, None, None, None];
        proof {
            assert(self.held() =~= empty_held());
        }
    }

    /// Folds one combination into the hand: adds to the existing entry of
    /// the same variant and face, or holds it as new.
    fn upsert_combo(&mut self, combo: DiceCombination)
        requires
            old(self).wf(),
            combo.valid(),
            can_upsert(old(self).held(), combo),
        ensures
            final(self).wf(),
            final(self).held() == upsert_model(old(self).held(), combo),
            final(self).spec_cumulative() == old(self).spec_cumulative(),
            final(self).spec_guaranteed() == old(self).spec_guaranteed(),
            final(self).spec_saved() == old(self).spec_saved(),
    {
        match combo {
            DiceCombination::Single { value, max_count } => {
                let idx_opt = self.single_scoring[(value - 1) as usize];
                match idx_opt {
                    Some(idx) => {
                        let existing = self.combos[idx];
                        match existing {
                            DiceCombination::Single { value: v0, max_count: m0 } => {
                                self.combos[idx] = DiceCombination::Single {
                                    value: v0,
                                    max_count: m0 + max_count,
                                };
                            },
                            _ => {
                                proof {
                                    assert(false);
                                }
                            },
                        }
                    },
                    None => {
                        let combo_idx = self.combos.len();
                        self.combos.push(combo);
                        self.single_scoring[(value - 1) as usize] = Some(combo_idx);
                    },
                }
            },
            DiceCombination::Multiple { value, quantity } => {
                let idx_opt = self.dice_multiples[(value - 1) as usize];
                match idx_opt {
                    Some(idx) => {
                        let existing = self.combos[idx];
                        match existing {
                            DiceCombination::Multiple { value: v0, quantity: q0 } => {
                                self.combos[idx] = DiceCombination::Multiple {
                                    value: v0,
                                    quantity: q0 + quantity,
                                };
                            },
                            _ => {
                                proof {
                                    assert(false);
                                }
                            },
                        }
                    },
                    None => {
                        let combo_idx = self.combos.len();
                        self.combos.push(combo);
                        self.dice_multiples[(value - 1) as usize] = Some(combo_idx);
                    },
                }
            },
            _ => {
                self.combos.push(combo);
            },
        }
        proof {
            assert(self.held() =~= upsert_model(old(self).held(), combo));
        }
    }

    /// Whether `action` may be applied to this hand: its combinations are
    /// well-formed, an extension names a face the hand has registered, and
    /// no counter overflows. An `AddTo` whose face is absent from the index
    /// is a caller error, excluded here; the `Stay` fold, by contrast,
    /// inserts combinations whose face is new.
    pub open spec fn spec_action_ok(self, action: DiceAction) -> bool {
        &&& match action.action {
            ScoreAction::KeepNew(c) => c.valid(),
            ScoreAction::AddTo(c) => c.valid() && addto_target_present(self.held(), c)
                && can_upsert(self.held(), c),
            ScoreAction::Stay(cs) => (forall|i: int|
                0 <= i < cs@.len() ==> (#[trigger] cs@[i]).valid()) && stay_upsertable(
                self.held(),
                cs@,
            ),
        }
        &&& (action.spec_straight_combo() matches Some(c) ==> self.spec_guaranteed()
            + c.spec_score() <= u32::MAX)
    }

    /// Whether folding `combo` into the hand stays within [`can_upsert`]'s
    /// machine limits.
    fn can_upsert_check(&self, combo: &DiceCombination) -> (r: bool)
        requires
            self.wf(),
            combo.valid(),
        ensures
            r == can_upsert(self.held(), *combo),
    {
        match combo {
            DiceCombination::Single { value, max_count } => {
                match self.single_scoring[(*value - 1) as usize] {
                    Some(idx) => {
                        let existing = self.combos[idx];
                        match existing {
                            DiceCombination::Single { value: _, max_count: m0 } => (m0 as u16) + (
                            *max_count as u16) <= 255,
                            _ => {
                                proof {
                                    assert(false);
                                }
                                false
                            },
                        }
                    },
                    None => true,
                }
            },
            DiceCombination::Multiple { value, quantity } => {
                match self.dice_multiples[(*value - 1) as usize] {
                    Some(idx) => {
                        let existing = self.combos[idx];
                        match existing {
                            DiceCombination::Multiple { value: _, quantity: q0 } => (q0 as u16) + (
                            *quantity as u16) <= 253,
                            _ => {
                                proof {
                                    assert(false);
                                }
                                false
                            },
                        }
                    },
                    None => true,
                }
            },
            _ => true,
        }
    }

    /// Whether an `AddTo` of `combo` names a face the hand has registered.
    fn addto_present_check(&self, combo: &DiceCombination) -> (r: bool)
        requires
            combo.valid(),
        ensures
            r == addto_target_present(self.held(), *combo),
    {
        match combo {
            DiceCombination::Single { value, .. } => self.single_scoring[(*value
                - 1) as usize].is_some(),
            DiceCombination::Multiple { value, .. } => self.dice_multiples[(*value
                - 1) as usize].is_some(),
            _ => true,
        }
    }

    /// Whether banking `combo`, if it is a straight, stays within the
    /// guaranteed counter.
    fn straight_guard_ok(&self, combo: &DiceCombination) -> (r: bool)
        requires
            combo.valid(),
        ensures
            r == (combo matches DiceCombination::Straight { .. } ==> self.spec_guaranteed()
                + combo.spec_score() <= u32::MAX),
    {
        match combo {
            DiceCombination::Straight { .. } => {
                let s = combo.score();
                self.guaranteed_score.checked_add(s).is_some()
            },
            _ => true,
        }
    }

    /// Whether [`Hand::perform_action`] accepts `action`: an executable
    /// check of exactly its precondition, for callers outside any proof.
    #[verifier::loop_isolation(false)]
    pub fn action_ok(&self, action: &DiceAction) -> (r: bool)
        requires
            self.wf(),
        ensures
            r == self.spec_action_ok(*action),
    {
        match &action.action {
            ScoreAction::KeepNew(c) => {
                if !c.is_valid() {
                    return false;
                }
                self.straight_guard_ok(c)
            },
            ScoreAction::AddTo(c) => {
                if !c.is_valid() {
                    return false;
                }
                if !self.addto_present_check(c) {
                    return false;
                }
                if !self.can_upsert_check(c) {
                    return false;
                }
                self.straight_guard_ok(c)
            },
            ScoreAction::Stay(cs) => {
                let mut scratch = Hand {
                    saved_dice: DiceSet::new(),
                    combos: self.held_combos(),
                    single_scoring: self.single_scoring,
                    dice_multiples: self.dice_multiples,
                    cumulative_score: 0,
                    guaranteed_score: 0,
                };
                proof {
                    assert(scratch.held() =~= self.held());
                }
                let n = cs.len();
                let mut i: usize = 0;
                proof {
                    assert(cs@.take(0int) =~= Seq::<DiceCombination>::empty());
                }
                while i < n
                    invariant
                        i <= n,
                        scratch.wf(),
                        scratch.held() == upsert_all(self.held(), cs@.take(i as int)),
                        stay_upsertable(self.held(), cs@.take(i as int)),
                        forall|j: int| 0 <= j < i ==> (#[trigger] cs@[j]).valid(),
                    decreases n - i,
                {
                    let c = cs[i];
                    if !c.is_valid() {
                        return false;
                    }
                    if !scratch.can_upsert_check(&c) {
                        proof {
                            if stay_upsertable(self.held(), cs@) {
                                lemma_stay_prefix(self.held(), cs@, i as int);
                            }
                        }
                        return false;
                    }
                    scratch.upsert_combo(c);
                    proof {
                        lemma_stay_snoc(self.held(), cs@.take(i as int), c);
                        lemma_upsert_all_snoc(self.held(), cs@.take(i as int), c);
                        assert(cs@.take(i + 1) =~= cs@.take(i as int).push(c));
                    }
                    i = i + 1;
                }
                proof {
                    assert(cs@.take(n as int) =~= cs@);
                }
                true
            },
        }
    }

    /// Whether [`Hand::accumulate_score`] can run without overflowing the
    /// banked counter: an executable check of exactly its precondition.
    #[verifier::loop_isolation(false)]
    pub fn can_accumulate(&self) -> (r: bool)
        requires
            self.wf(),
        ensures
            r == (self.spec_cumulative() + spec_score_sum(self.spec_combos()) <= u32::MAX),
    {
        let mut total: u32 = self.cumulative_score;
        let mut i: usize = 0;
        proof {
            assert(self.spec_combos().take(0int) =~= Seq::<DiceCombination>::empty());
        }
        while i < self.combos.len()
            invariant
                i <= self.spec_combos().len(),
                total == self.spec_cumulative() + spec_score_sum(
                    self.spec_combos().take(i as int),
                ),
            decreases self.spec_combos().len() - i,
        {
            let c = self.combos[i];
            let s = c.score();
            proof {
                assert(self.spec_combos().take(i + 1).drop_last() =~= self.spec_combos().take(
                    i as int,
                ));
                assert(self.spec_combos().take(i + 1).last() == self.spec_combos()[i as int]);
            }
            match total.checked_add(s) {
                Some(t) => {
                    total = t;
                },
                None => {
                    proof {
                        lemma_score_sum_take_le(self.spec_combos(), i + 1);
                        lemma_score_nonneg(self.spec_combos()[i as int]);
                    }
                    return false;
                },
            }
            i = i + 1;
        }
        proof {
            assert(self.spec_combos().take(self.spec_combos().len() as int)
                =~= self.spec_combos());
        }
        true
    }

    /// Applies a chosen action to the hand; returns whether play continues.
    ///
    /// A straight's score is banked into the guaranteed counter at once.
    /// `KeepNew` holds the combination under a new id; `AddTo` adds the
    /// carried count to the entry its face indexes, which the precondition
    /// demands to exist; `Stay` folds its whole list in — inserting entries
    /// whose face is new — and ends the turn by returning `false`.
    pub fn perform_action(&mut self, action: DiceAction) -> (r: bool)
        requires
            old(self).wf(),
            old(self).spec_action_ok(action),
        ensures
            final(self).wf(),
            r <==> !(action.action matches ScoreAction::Stay(_)),
            final(self).spec_cumulative() == old(self).spec_cumulative(),
            final(self).spec_saved() == old(self).spec_saved(),
            final(self).spec_guaranteed() == old(self).spec_guaranteed() + (
            match action.spec_straight_combo() {
                Some(c) => c.spec_score(),
                None => 0int,
            }),
            action.action matches ScoreAction::KeepNew(c) ==> final(self).held()
                == keep_new_model(old(self).held(), c),
            action.action matches ScoreAction::AddTo(c) ==> final(self).held() == upsert_model(
                old(self).held(),
                c,
            ),
            action.action matches ScoreAction::Stay(cs) ==> final(self).held() == upsert_all(
                old(self).held(),
                cs@,
            ),
    {
        if let Some(score) = action.has_guaranteed_score() {
            self.guaranteed_score = self.guaranteed_score + score;
        }
        match action.action {
            ScoreAction::KeepNew(combo) => {
                let combo_idx = self.combos.len();
                self.combos.push(combo);
                match combo {
                    DiceCombination::Single { value, .. } => {
                        self.single_scoring[(value - 1) as usize] = Some(combo_idx);
                    },
                    DiceCombination::Multiple { value, .. } => {
                        self.dice_multiples[(value - 1) as usize] = Some(combo_idx);
                    },
                    _ => {},
                }
                proof {
                    assert(self.held() =~= keep_new_model(old(self).held(), combo));
                }
                true
            },
            ScoreAction::AddTo(combo) => {
                self.upsert_combo(combo);
                true
            },
            ScoreAction::Stay(combos_list) => {
                let ghost pre = self.held();
                let n = combos_list.len();
                let mut i: usize = 0;
                proof {
                    assert(combos_list@.take(0int) =~= Seq::<DiceCombination>::empty());
                    assert(combos_list@.skip(0int) =~= combos_list@);
                }
                while i < n
                    invariant
                        n == combos_list@.len(),
                        i <= n,
                        forall|j: int| 0 <= j < combos_list@.len() ==> (#[trigger] combos_list@[j]).valid(),
                        self.wf(),
                        self.held() == upsert_all(pre, combos_list@.take(i as int)),
                        stay_upsertable(self.held(), combos_list@.skip(i as int)),
                        self.spec_cumulative() == old(self).spec_cumulative(),
                        self.spec_guaranteed() == old(self).spec_guaranteed(),
                        self.spec_saved() == old(self).spec_saved(),
                    decreases n - i,
                {
                    let c = combos_list[i];
                    proof {
                        assert(combos_list@.skip(i as int)[0] == combos_list@[i as int]);
                    }
                    let ghost held_before = self.held();
                    self.upsert_combo(c);
                    proof {
                        lemma_upsert_all_snoc(pre, combos_list@.take(i as int), c);
                        assert(combos_list@.take(i + 1) =~= combos_list@.take(i as int).push(c));
                        assert(combos_list@.skip(i as int).skip(1) =~= combos_list@.skip(i + 1));
                    }
                    i = i + 1;
                }
                proof {
                    assert(combos_list@.take(n as int) =~= combos_list@);
                }
                false
            },
        }
    }
}

/// The `Pairs` proposal on a roll: present exactly when three faces each
/// appear exactly twice, consuming the whole roll.
pub open spec fn pairs_actions(dice: DiceSet) -> Seq<DiceActionV> {
    if dice.spec_pairs_faces().len() == 3 {
        seq![
            DiceActionV {
                dice: dice.spec_values(),
                action: ScoreActionV::KeepNew(
                    DiceCombination::Pairs(
                        dice.spec_pairs_faces()[0],
                        dice.spec_pairs_faces()[1],
                        dice.spec_pairs_faces()[2],
                    ),
                ),
            },
        ]
    } else {
        Seq::empty()
    }
}

impl Hand {
    /// Whether the roll together with the set-aside dice is one of each face.
    pub open spec fn spec_completes_straight(self, dice: DiceSet) -> bool {
        forall|f: int|
            1 <= f <= 6 ==> dice.spec_count(f) + self.spec_saved().spec_count(f) == 1
    }

    /// The straight a completing roll forms: its roll stage is one more than
    /// the number of dice already set aside toward it.
    pub open spec fn spec_straight_for(self) -> DiceCombination {
        DiceCombination::Straight { roll: (1 + self.spec_saved().spec_total()) as u8 }
    }

    /// The straight proposal: new at stage one when nothing was set aside,
    /// an extension at a later stage otherwise.
    pub open spec fn straight_actions(self, dice: DiceSet) -> Seq<DiceActionV> {
        if self.spec_completes_straight(dice) {
            seq![
                DiceActionV {
                    dice: dice.spec_values(),
                    action: if self.spec_saved().spec_total() == 0 {
                        ScoreActionV::KeepNew(self.spec_straight_for())
                    } else {
                        ScoreActionV::AddTo(self.spec_straight_for())
                    },
                },
            ]
        } else {
            Seq::empty()
        }
    }

    /// For each face up to `k`, ascending, that the hand already holds as a
    /// `Multiple` and the roll shows at all: an extension carrying the
    /// roll's dice of that face.
    pub open spec fn mult_ext_actions(self, dice: DiceSet, k: nat) -> Seq<DiceActionV>
        decreases k,
    {
        if k == 0 || k > 6 {
            Seq::empty()
        } else {
            self.mult_ext_actions(dice, (k - 1) as nat) + if self.spec_multiple_idx(k as int)
                is Some && dice.spec_count(k as int) > 0 {
                seq![
                    DiceActionV {
                        dice: Seq::new(dice.spec_count(k as int), |i: int| k as u8),
                        action: ScoreActionV::AddTo(
                            DiceCombination::Multiple {
                                value: k as u8,
                                quantity: dice.spec_count(k as int) as u8,
                            },
                        ),
                    },
                ]
            } else {
                Seq::empty()
            }
        }
    }

    /// The `Single` proposal for face `f` (1 or 5): the roll's full count of
    /// that face, extending the held `Single` if one exists.
    pub open spec fn single_actions_for(self, dice: DiceSet, f: int) -> Seq<DiceActionV> {
        if dice.spec_count(f) > 0 {
            seq![
                DiceActionV {
                    dice: Seq::new(dice.spec_count(f), |i: int| f as u8),
                    action: if self.spec_single_idx(f) is Some {
                        ScoreActionV::AddTo(
                            DiceCombination::Single {
                                value: f as u8,
                                max_count: dice.spec_count(f) as u8,
                            },
                        )
                    } else {
                        ScoreActionV::KeepNew(
                            DiceCombination::Single {
                                value: f as u8,
                                max_count: dice.spec_count(f) as u8,
                            },
                        )
                    },
                },
            ]
        } else {
            Seq::empty()
        }
    }

    /// Every non-terminal proposal for the roll, in presentation order.
    pub open spec fn base_actions(self, dice: DiceSet) -> Seq<DiceActionV> {
        pairs_actions(dice) + self.straight_actions(dice) + self.mult_ext_actions(dice, 6)
            + mult_new_actions(dice, 6) + self.single_actions_for(dice, 1)
            + self.single_actions_for(dice, 5)
    }

    /// The `Multiple` entries of the terminal action's list, one per face up
    /// to `k`: the roll's count as an extension where the face is held, else
    /// a new `Multiple` where the roll has three or more.
    pub open spec fn stay_mult_combos(self, dice: DiceSet, k: nat) -> Seq<DiceCombination>
        decreases k,
    {
        if k == 0 || k > 6 {
            Seq::empty()
        } else {
            self.stay_mult_combos(dice, (k - 1) as nat) + if self.spec_multiple_idx(k as int)
                is Some && dice.spec_count(k as int) > 0 {
                seq![
                    DiceCombination::Multiple {
                        value: k as u8,
                        quantity: dice.spec_count(k as int) as u8,
                    },
                ]
            } else if dice.spec_count(k as int) >= 3 {
                seq![
                    DiceCombination::Multiple {
                        value: k as u8,
                        quantity: (dice.spec_count(k as int) - 2) as u8,
                    },
                ]
            } else {
                Seq::empty()
            }
        }
    }

    /// The dice consumed by the terminal action's `Multiple` entries.
    pub open spec fn stay_mult_dice(self, dice: DiceSet, k: nat) -> Seq<u8>
        decreases k,
    {
        if k == 0 || k > 6 {
            Seq::empty()
        } else {
            self.stay_mult_dice(dice, (k - 1) as nat) + if (self.spec_multiple_idx(k as int)
                is Some && dice.spec_count(k as int) > 0) || dice.spec_count(k as int) >= 3 {
                Seq::new(dice.spec_count(k as int), |i: int| k as u8)
            } else {
                Seq::empty()
            }
        }
    }

    /// The terminal action's combination list: everything proposable from
    /// this roll, one entry per variant and face.
    pub open spec fn stay_combos(self, dice: DiceSet) -> Seq<DiceCombination> {
        (if dice.spec_pairs_faces().len() == 3 {
            seq![
                DiceCombination::Pairs(
                    dice.spec_pairs_faces()[0],
                    dice.spec_pairs_faces()[1],
                    dice.spec_pairs_faces()[2],
                ),
            ]
        } else {
            Seq::empty()
        }) + (if self.spec_completes_straight(dice) {
            seq![self.spec_straight_for()]
        } else {
            Seq::empty()
        }) + self.stay_mult_combos(dice, 6) + (if dice.spec_count(1) > 0 {
            seq![
                DiceCombination::Single { value: 1u8, max_count: dice.spec_count(1) as u8 },
            ]
        } else {
            Seq::empty()
        }) + (if dice.spec_count(5) > 0 {
            seq![
                DiceCombination::Single { value: 5u8, max_count: dice.spec_count(5) as u8 },
            ]
        } else {
            Seq::empty()
        })
    }

    /// The dice the terminal action consumes, matching its list entry by
    /// entry.
    pub open spec fn stay_dice(self, dice: DiceSet) -> Seq<u8> {
        (if dice.spec_pairs_faces().len() == 3 {
            dice.spec_values()
        } else {
            Seq::empty()
        }) + (if self.spec_completes_straight(dice) {
            dice.spec_values()
        } else {
            Seq::empty()
        }) + self.stay_mult_dice(dice, 6) + (if dice.spec_count(1) > 0 {
            Seq::new(dice.spec_count(1), |i: int| 1u8)
        } else {
            Seq::empty()
        }) + (if dice.spec_count(5) > 0 {
            Seq::new(dice.spec_count(5), |i: int| 5u8)
        } else {
            Seq::empty()
        })
    }

    /// Every legal action for the roll: the proposals of
    /// [`Hand::base_actions`], and, when there is at least one, a terminal
    /// `Stay` that banks everything proposable at once.
    pub open spec fn spec_actions(self, dice: DiceSet) -> Seq<DiceActionV> {
        let base = self.base_actions(dice);
        if base.len() == 0 {
            base
        } else {
            base.push(
                DiceActionV {
                    dice: self.stay_dice(dice),
                    action: ScoreActionV::Stay(self.stay_combos(dice)),
                },
            )
        }
    }

    /// Determines every action the player may take given the rolled dice,
    /// in order: a pairs proposal, a straight proposal, extensions of held
    /// multiples, new multiples, singles, and — if anything at all was
    /// proposed — a terminal stay banking all of it. An empty result is a
    /// bust.
    /// Appends the extension proposals: for each face the hand holds as a
    /// `Multiple` and the roll shows, an `AddTo` carrying the roll's dice.
    #[verifier::loop_isolation(false)]
    fn push_ext_actions(&self, dice: &DiceSet, actions: &mut Vec<DiceAction>)
        requires
            self.wf(),
            dice.wf(),
        ensures
            final(actions)@.len() == old(actions)@.len() + self.mult_ext_actions(*dice, 6).len(),
            forall|i: int|
                0 <= i < old(actions)@.len() ==> final(actions)@[i] == old(actions)@[i],
            forall|i: int|
                old(actions)@.len() <= i < final(actions)@.len() ==> final(actions)@[i]@
                    =~~= self.mult_ext_actions(*dice, 6)[i - old(actions)@.len()],
    {
        let ghost base = old(actions)@;
        let mut f: u8 = 1;
        while f <= 6
            invariant
                1 <= f <= 7,
                actions@.len() == base.len() + self.mult_ext_actions(*dice, (f - 1) as nat).len(),
                forall|i: int| 0 <= i < base.len() ==> actions@[i] == base[i],
                forall|i: int|
                    base.len() <= i < actions@.len() ==> actions@[i]@ =~~= self.mult_ext_actions(
                        *dice,
                        (f - 1) as nat,
                    )[i - base.len()],
            decreases 7 - f,
        {
            let ghost prev = self.mult_ext_actions(*dice, (f - 1) as nat);
            if self.dice_multiples[(f - 1) as usize].is_some() {
                if let Some((die_value, count)) = dice.get_die_count(f) {
                    actions.push(
                        DiceAction {
                            dice: crate::hand::dice_combination::repeat_die(die_value, count),
                            action: ScoreAction::AddTo(
                                DiceCombination::Multiple { value: die_value, quantity: count },
                            ),
                        },
                    );
                }
            }
            f = f + 1;
            proof {
                let cur = self.mult_ext_actions(*dice, (f - 1) as nat);
                if self.spec_multiple_idx(f - 1) is Some && dice.spec_count(f - 1) > 0 {
                    assert(cur =~~= prev + seq![
                        DiceActionV {
                            dice: Seq::new(dice.spec_count(f - 1), |i: int| (f - 1) as u8),
                            action: ScoreActionV::AddTo(
                                DiceCombination::Multiple {
                                    value: (f - 1) as u8,
                                    quantity: dice.spec_count(f - 1) as u8,
                                },
                            ),
                        },
                    ]);
                } else {
                    assert(cur =~~= prev);
                }
            }
        }
    }

    /// Appends the new-multiple proposals: a `KeepNew` for every face the
    /// roll shows at least three of.
    #[verifier::loop_isolation(false)]
    fn push_new_mult_actions(&self, dice: &DiceSet, actions: &mut Vec<DiceAction>)
        requires
            dice.wf(),
        ensures
            final(actions)@.len() == old(actions)@.len() + mult_new_actions(*dice, 6).len(),
            forall|i: int|
                0 <= i < old(actions)@.len() ==> final(actions)@[i] == old(actions)@[i],
            forall|i: int|
                old(actions)@.len() <= i < final(actions)@.len() ==> final(actions)@[i]@
                    =~~= mult_new_actions(*dice, 6)[i - old(actions)@.len()],
    {
        let ghost base = old(actions)@;
        let mut f: u8 = 1;
        while f <= 6
            invariant
                1 <= f <= 7,
                actions@.len() == base.len() + mult_new_actions(*dice, (f - 1) as nat).len(),
                forall|i: int| 0 <= i < base.len() ==> actions@[i] == base[i],
                forall|i: int|
                    base.len() <= i < actions@.len() ==> actions@[i]@ =~~= mult_new_actions(
                        *dice,
                        (f - 1) as nat,
                    )[i - base.len()],
            decreases 7 - f,
        {
            let ghost prev = mult_new_actions(*dice, (f - 1) as nat);
            if let Some((die_value, count)) = dice.get_die_count(f) {
                if count >= 3 {
                    actions.push(
                        DiceAction {
                            dice: crate::hand::dice_combination::repeat_die(die_value, count),
                            action: ScoreAction::KeepNew(
                                DiceCombination::Multiple {
                                    value: die_value,
                                    quantity: count - 2,
                                },
                            ),
                        },
                    );
                }
            }
            f = f + 1;
            proof {
                let cur = mult_new_actions(*dice, (f - 1) as nat);
                if dice.spec_count(f - 1) >= 3 {
                    assert(cur =~~= prev + seq![
                        DiceActionV {
                            dice: Seq::new(dice.spec_count(f - 1), |i: int| (f - 1) as u8),
                            action: ScoreActionV::KeepNew(
                                DiceCombination::Multiple {
                                    value: (f - 1) as u8,
                                    quantity: (dice.spec_count(f - 1) - 2) as u8,
                                },
                            ),
                        },
                    ]);
                } else {
                    assert(cur =~~= prev);
                }
            }
        }
    }

    /// Appends the `Single` proposals for faces 1 and 5: the roll's full
    /// count of the face, extending a held `Single` where one exists.
    fn push_single_actions(&self, dice: &DiceSet, actions: &mut Vec<DiceAction>)
        requires
            self.wf(),
            dice.wf(),
        ensures
            final(actions)@.len() == old(actions)@.len() + (self.single_actions_for(*dice, 1)
                + self.single_actions_for(*dice, 5)).len(),
            forall|i: int|
                0 <= i < old(actions)@.len() ==> final(actions)@[i] == old(actions)@[i],
            forall|i: int|
                old(actions)@.len() <= i < final(actions)@.len() ==> final(actions)@[i]@
                    =~~= (self.single_actions_for(*dice, 1) + self.single_actions_for(*dice, 5))[
                    i - old(actions)@.len()],
    {
        if let Some((_, count)) = dice.get_die_count(1) {
            let combo = DiceCombination::Single { value: 1, max_count: count };
            let action = if self.single_scoring[0].is_some() {
                ScoreAction::AddTo(combo)
            } else {
                ScoreAction::KeepNew(combo)
            };
            actions.push(
                DiceAction { dice: crate::hand::dice_combination::repeat_die(1, count), action },
            );
        }
        if let Some((_, count)) = dice.get_die_count(5) {
            let combo = DiceCombination::Single { value: 5, max_count: count };
            let action = if self.single_scoring[4].is_some() {
                ScoreAction::AddTo(combo)
            } else {
                ScoreAction::KeepNew(combo)
            };
            actions.push(
                DiceAction { dice: crate::hand::dice_combination::repeat_die(5, count), action },
            );
        }
        proof {
            let both = self.single_actions_for(*dice, 1) + self.single_actions_for(*dice, 5);
            assert(final(actions)@.len() == old(actions)@.len() + both.len());
            assert(forall|i: int|
                old(actions)@.len() <= i < final(actions)@.len() ==> final(actions)@[i]@
                    =~~= both[i - old(actions)@.len()]);
        }
    }

    /// Builds the terminal action's combination list and the dice it
    /// consumes: everything proposable from the roll, one entry per variant
    /// and face.
    #[verifier::loop_isolation(false)]
    fn build_stay_parts(&self, dice: &DiceSet, completes: bool, saved_dice_len: usize) -> (r: (
        Vec<DiceCombination>,
        Vec<u8>,
    ))
        requires
            self.wf(),
            dice.wf(),
            completes <==> self.spec_completes_straight(*dice),
            saved_dice_len == self.spec_saved().spec_total(),
        ensures
            r.0@ == self.stay_combos(*dice),
            r.1@ == self.stay_dice(*dice),
    {
        let mut all_combos: Vec<DiceCombination> = Vec::new();
        let mut involved: Vec<u8> = Vec::new();
        if let Some((one, two, three)) = dice.is_pairs() {
            all_combos.push(DiceCombination::Pairs(one, two, three));
            let mut vals = dice.dice_values();
            involved.append(&mut vals);
        }
        if completes {
            all_combos.push(DiceCombination::Straight { roll: 1 + saved_dice_len as u8 });
            let mut vals = dice.dice_values();
            involved.append(&mut vals);
        }
        let ghost combos_pre = all_combos@;
        let ghost involved_pre = involved@;
        let mut f: u8 = 1;
        while f <= 6
            invariant
                1 <= f <= 7,
                all_combos@ =~~= combos_pre + self.stay_mult_combos(*dice, (f - 1) as nat),
                involved@ =~~= involved_pre + self.stay_mult_dice(*dice, (f - 1) as nat),
            decreases 7 - f,
        {
            let held = self.dice_multiples[(f - 1) as usize].is_some();
            if let Some((die_value, count)) = dice.get_die_count(f) {
                if held {
                    all_combos.push(
                        DiceCombination::Multiple { value: die_value, quantity: count },
                    );
                    let mut vals = crate::hand::dice_combination::repeat_die(die_value, count);
                    involved.append(&mut vals);
                } else if count >= 3 {
                    all_combos.push(
                        DiceCombination::Multiple { value: die_value, quantity: count - 2 },
                    );
                    let mut vals = crate::hand::dice_combination::repeat_die(die_value, count);
                    involved.append(&mut vals);
                }
            }
            f = f + 1;
            proof {
                assert(all_combos@ =~~= combos_pre + self.stay_mult_combos(
                    *dice,
                    (f - 1) as nat,
                ));
                assert(involved@ =~~= involved_pre + self.stay_mult_dice(*dice, (f - 1) as nat));
            }
        }
        if let Some((_, count)) = dice.get_die_count(1) {
            all_combos.push(DiceCombination::Single { value: 1, max_count: count });
            let mut vals = crate::hand::dice_combination::repeat_die(1, count);
            involved.append(&mut vals);
        }
        if let Some((_, count)) = dice.get_die_count(5) {
            all_combos.push(DiceCombination::Single { value: 5, max_count: count });
            let mut vals = crate::hand::dice_combination::repeat_die(5, count);
            involved.append(&mut vals);
        }
        proof {
            assert(all_combos@ =~~= self.stay_combos(*dice));
            assert(involved@ =~~= self.stay_dice(*dice));
        }
        (all_combos, involved)
    }

    /// Determines every action the player may take given the rolled dice,
    /// in order: a pairs proposal, a straight proposal, extensions of held
    /// multiples, new multiples, singles, and — if anything at all was
    /// proposed — a terminal stay banking all of it. An empty result is a
    /// bust.
    #[verifier::loop_isolation(false)]
    #[verifier::rlimit(60)]
    pub fn determine_actions(&self, dice: &DiceSet) -> (r: Vec<DiceAction>)
        requires
            self.wf(),
            dice.wf(),
            dice.spec_total() <= 6,
        ensures
            r@.map_values(|a: DiceAction| a@) == self.spec_actions(*dice),
    {
        let ghost e1 = pairs_actions(*dice);
        let mut actions: Vec<DiceAction> = Vec::new();
        // first, check if we have pairs
        if let Some((one, two, three)) = dice.is_pairs() {
            actions.push(
                DiceAction {
                    dice: dice.dice_values(),
                    action: ScoreAction::KeepNew(DiceCombination::Pairs(one, two, three)),
                },
            );
        }
        proof {
            assert(actions@.len() == e1.len());
            assert(forall|i: int| 0 <= i < actions@.len() ==> actions@[i]@ =~~= e1[i]);
        }
        // next, see whether these dice complete a straight with the set-aside ones
        let saved_dice_len = self.saved_dice().size();
        proof {
            assert forall|f: int|
                1 <= f <= 6 implies dice.spec_count(f) + self.spec_saved().spec_count(f)
                <= 255 by {
                crate::dice_set::lemma_count_le_total(*dice, f);
                crate::dice_set::lemma_count_le_total(self.spec_saved(), f);
            }
        }
        let u = (*dice).union(*self.saved_dice());
        let completes = u.is_straight();
        proof {
            if completes {
                assert forall|f: int|
                    1 <= f <= 6 implies dice.spec_count(f) + self.spec_saved().spec_count(f)
                    == 1 by {
                    assert(u.spec_count(f) == 1);
                }
                assert(self.spec_completes_straight(*dice));
            } else if self.spec_completes_straight(*dice) {
                assert forall|f: int| 1 <= f <= 6 implies u.spec_count(f) == 1 by {
                    assert(dice.spec_count(f) + self.spec_saved().spec_count(f) == 1);
                }
                assert(false);
            }
            assert(completes <==> self.spec_completes_straight(*dice));
        }
        let ghost e2 = e1 + self.straight_actions(*dice);
        if completes {
            let action = if saved_dice_len == 0 {
                ScoreAction::KeepNew(DiceCombination::Straight { roll: 1 })
            } else {
                ScoreAction::AddTo(DiceCombination::Straight { roll: 1 + saved_dice_len as u8 })
            };
            actions.push(DiceAction { dice: dice.dice_values(), action });
        }
        proof {
            assert(actions@.len() == e2.len());
            assert(forall|i: int| 0 <= i < actions@.len() ==> actions@[i]@ =~~= e2[i]);
        }
        // next, extensions of combinations the hand already holds
        self.push_ext_actions(dice, &mut actions);
        let ghost e3 = e2 + self.mult_ext_actions(*dice, 6);
        proof {
            assert(actions@.len() == e3.len());
            assert(forall|i: int| 0 <= i < actions@.len() ==> actions@[i]@ =~~= e3[i]);
        }
        // next, anything we can newly save from the roll alone
        self.push_new_mult_actions(dice, &mut actions);
        let ghost e4 = e3 + mult_new_actions(*dice, 6);
        proof {
            assert(actions@.len() == e4.len());
            assert(forall|i: int| 0 <= i < actions@.len() ==> actions@[i]@ =~~= e4[i]);
        }
        // finally, the scorable singles
        self.push_single_actions(dice, &mut actions);
        let ghost e6 = e4 + (self.single_actions_for(*dice, 1) + self.single_actions_for(
            *dice,
            5,
        ));
        proof {
            assert(actions@.len() == e6.len());
            assert(forall|i: int| 0 <= i < actions@.len() ==> actions@[i]@ =~~= e6[i]);
            assert(e6 =~~= self.base_actions(*dice));
        }
        // if there are actions, the player can also stay, banking them all
        if actions.len() > 0 {
            let (all_combos, involved) = self.build_stay_parts(dice, completes, saved_dice_len);
            actions.push(DiceAction { dice: involved, action: ScoreAction::Stay(all_combos) });
        }
        proof {
            let full = self.spec_actions(*dice);
            assert(actions@.len() == full.len());
            assert forall|i: int| 0 <= i < actions@.len() implies actions@[i]@ =~~= full[i] by {
                if i < e6.len() {
                    assert(actions@[i]@ =~~= e6[i]);
                }
            }
            assert forall|i: int|
                0 <= i < actions@.len() implies actions@.map_values(|a: DiceAction| a@)[i]
                == full[i] by {
                assert(actions@[i]@ =~~= full[i]);
            }
            assert(actions@.map_values(|a: DiceAction| a@) =~~= full);
        }
        actions
    }
}

/// For each face up to `k`, ascending, that the roll shows at least three
/// of: a proposal to start a new `Multiple` consuming all of them.
pub open spec fn mult_new_actions(dice: DiceSet, k: nat) -> Seq<DiceActionV>
    decreases k,
{
    if k == 0 || k > 6 {
        Seq::empty()
    } else {
        mult_new_actions(dice, (k - 1) as nat) + if dice.spec_count(k as int) >= 3 {
            seq![
                DiceActionV {
                    dice: Seq::new(dice.spec_count(k as int), |i: int| k as u8),
                    action: ScoreActionV::KeepNew(
                        DiceCombination::Multiple {
                            value: k as u8,
                            quantity: (dice.spec_count(k as int) - 2) as u8,
                        },
                    ),
                },
            ]
        } else {
            Seq::empty()
        }
    }
}

impl Default for Hand {
    /// A fresh hand, as [`Hand::new`] builds it.
    fn default() -> (r: Self)
        ensures
            r.wf(),
            r.held() == empty_held(),
            r.spec_cumulative() == 0,
            r.spec_guaranteed() == 0,
            r.spec_saved().spec_total() == 0,
    {
        Hand::new()
    }
}

/// Extension proposals up to face `k` are absent exactly when no face up
/// to `k` is both held as a multiple and present in the roll.
proof fn lemma_mult_ext_len(hand: Hand, dice: DiceSet, k: nat)
    requires
        k <= 6,
    ensures
        (hand.mult_ext_actions(dice, k).len() == 0) <==> (forall|f: int|
            1 <= f <= k ==> !(#[trigger] hand.spec_multiple_idx(f) is Some && dice.spec_count(f)
                > 0)),
    decreases k,
{
    if k > 0 {
        lemma_mult_ext_len(hand, dice, (k - 1) as nat);
    }
}

/// New-multiple proposals up to face `k` are absent exactly when no face up
/// to `k` shows three or more dice.
proof fn lemma_mult_new_len(dice: DiceSet, k: nat)
    requires
        k <= 6,
    ensures
        (mult_new_actions(dice, k).len() == 0) <==> (forall|f: int|
            1 <= f <= k ==> #[trigger] dice.spec_count(f) < 3),
    decreases k,
{
    if k > 0 {
        lemma_mult_new_len(dice, (k - 1) as nat);
    }
}

/// Law: a roll yields no action at all — a bust — exactly when nothing in
/// it scores: no three pairs, no straight completion, no die extending a
/// held multiple, no three of a kind, and no 1 or 5.
pub proof fn lemma_bust_iff_unscorable(hand: Hand, dice: DiceSet)
    ensures
        (hand.spec_actions(dice).len() == 0) <==> (dice.spec_pairs_faces().len() != 3
            && !hand.spec_completes_straight(dice) && (forall|f: int|
            1 <= f <= 6 ==> !(#[trigger] hand.spec_multiple_idx(f) is Some && dice.spec_count(f)
                > 0)) && (forall|f: int| 1 <= f <= 6 ==> #[trigger] dice.spec_count(f) < 3)
            && dice.spec_count(1) == 0 && dice.spec_count(5) == 0),
{
    lemma_mult_ext_len(hand, dice, 6);
    lemma_mult_new_len(dice, 6);
    let base = hand.base_actions(dice);
    if base.len() == 0 {
        assert(hand.spec_actions(dice).len() == 0);
    } else {
        assert(hand.spec_actions(dice).len() == base.len() + 1);
    }
}

/// A fold that stays in bounds, extended by one more combination that the
/// folded state accepts, stays in bounds.
proof fn lemma_stay_snoc(m: Held, cs: Seq<DiceCombination>, c: DiceCombination)
    requires
        stay_upsertable(m, cs),
        can_upsert(upsert_all(m, cs), c),
    ensures
        stay_upsertable(m, cs.push(c)),
    decreases cs.len(),
{
    if cs.len() == 0 {
        assert(cs.push(c)[0] == c);
        assert(cs.push(c).skip(1) =~= Seq::<DiceCombination>::empty());
        assert(upsert_all(m, cs) == m);
        assert(stay_upsertable(upsert_model(m, c), cs.push(c).skip(1)));
        assert(stay_upsertable(m, cs.push(c)) == (can_upsert(m, c) && stay_upsertable(
            upsert_model(m, c),
            cs.push(c).skip(1),
        )));
    } else {
        assert(cs.push(c)[0] == cs[0]);
        assert(cs.push(c).skip(1) =~= cs.skip(1).push(c));
        assert(upsert_all(m, cs) == upsert_all(upsert_model(m, cs[0]), cs.skip(1)));
        assert(stay_upsertable(upsert_model(m, cs[0]), cs.skip(1)));
        lemma_stay_snoc(upsert_model(m, cs[0]), cs.skip(1), c);
        assert(stay_upsertable(m, cs.push(c)) == (can_upsert(m, cs[0]) && stay_upsertable(
            upsert_model(m, cs[0]),
            cs.push(c).skip(1),
        )));
    }
}

/// A fold that stays in bounds accepts each of its combinations at the
/// state its predecessors produce.
proof fn lemma_stay_prefix(m: Held, cs: Seq<DiceCombination>, i: int)
    requires
        stay_upsertable(m, cs),
        0 <= i < cs.len(),
    ensures
        can_upsert(upsert_all(m, cs.take(i)), cs[i]),
    decreases i,
{
    if i == 0 {
        assert(cs.take(0int) =~= Seq::<DiceCombination>::empty());
        assert(upsert_all(m, cs.take(0int)) == m);
    } else {
        lemma_stay_prefix(upsert_model(m, cs[0]), cs.skip(1), i - 1);
        assert(cs.skip(1)[i - 1] == cs[i]);
        assert(cs.skip(1).take(i - 1) =~= cs.take(i).skip(1));
        assert(cs.take(i)[0] == cs[0]);
        assert(upsert_all(m, cs.take(i)) == upsert_all(
            upsert_model(m, cs.take(i)[0]),
            cs.take(i).skip(1),
        ));
    }
}

/// Folding a list and then one more combination is folding the extended list.
proof fn lemma_upsert_all_snoc(m: Held, cs: Seq<DiceCombination>, c: DiceCombination)
    ensures
        upsert_all(m, cs.push(c)) == upsert_model(upsert_all(m, cs), c),
    decreases cs.len(),
{
    if cs.len() == 0 {
        assert(cs.push(c)[0] == c);
        assert(cs.push(c).skip(1) =~= Seq::<DiceCombination>::empty());
        assert(upsert_all(m, cs.push(c)) == upsert_all(upsert_model(m, c), cs.push(c).skip(1)));
        assert(upsert_all(upsert_model(m, c), cs.push(c).skip(1)) == upsert_model(m, c));
        assert(upsert_all(m, cs) == m);
    } else {
        assert(cs.push(c)[0] == cs[0]);
        assert(cs.push(c).skip(1) =~= cs.skip(1).push(c));
        lemma_upsert_all_snoc(upsert_model(m, cs[0]), cs.skip(1), c);
        assert(upsert_all(m, cs.push(c)) == upsert_all(upsert_model(m, cs[0]), cs.push(c).skip(1)));
        assert(upsert_all(m, cs) == upsert_all(upsert_model(m, cs[0]), cs.skip(1)));
    }
}

} // verus!
