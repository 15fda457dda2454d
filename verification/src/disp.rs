//! Textual rendering for the console display: dice as bracketed face
//! values, combinations and actions as short descriptions.
use vstd::prelude::*;
use vstd::string::StringExecFns;
use crate::dice_set::DiceSet;
use crate::hand::dice_action::{DiceAction, ScoreAction};
use crate::hand::dice_combination::DiceCombination;

verus! {

/// The decimal digits of a nonnegative number, most significant first.
pub open spec fn spec_decimal(n: int) -> Seq<char>
    decreases n,
{
    let last = spec_digit_char(n % 10);
    if n < 10 {
        seq![last]
    } else {
        spec_decimal(n / 10).push(last)
    }
}

/// The character for one decimal digit.
pub open spec fn spec_digit_char(d: int) -> char {
    if d == 0 {
        '0'
    } else if d == 1 {
        '1'
    } else if d == 2 {
        '2'
    } else if d == 3 {
        '3'
    } else if d == 4 {
        '4'
    } else if d == 5 {
        '5'
    } else if d == 6 {
        '6'
    } else if d == 7 {
        '7'
    } else if d == 8 {
        '8'
    } else {
        '9'
    }
}

/// Relies on core's `Display` for `u32` through the `format!` macro: it
/// writes the value's decimal digits, most significant first, with no sign
/// and no leading zero.
#[verifier::external_body]
fn u32_to_string(n: u32) -> (r: String)
    ensures
        r@ == spec_decimal(n as int),
{
    format!("{}", n)
}

/// A list of dice as bracketed face values, `[3][4]`.
pub open spec fn spec_dice_str(vs: Seq<u8>) -> Seq<char>
    decreases vs.len(),
{
    if vs.len() == 0 {
        Seq::empty()
    } else {
        spec_dice_str(vs.drop_last()) + seq!['['] + spec_decimal(vs.last() as int) + seq![']']
    }
}

/// Renders a list of dice as bracketed face values.
pub fn render_dice(values: &Vec<u8>) -> (r: String)
    ensures
        r@ == spec_dice_str(values@),
{
    let mut r = String::new();
    let mut i: usize = 0;
    proof {
        reveal_strlit("[");
        reveal_strlit("]");
        assert(values@.take(0int) =~= Seq::<u8>::empty());
    }
    while i < values.len()
        invariant
            i <= values@.len(),
            r@ == spec_dice_str(values@.take(i as int)),
        decreases values@.len() - i,
    {
        proof {
            reveal_strlit("[");
            reveal_strlit("]");
        }
        r.append("[");
        let digits = u32_to_string(values[i] as u32);
        r.append(digits.as_str());
        r.append("]");
        i = i + 1;
        proof {
            assert(values@.take(i as int).drop_last() =~= values@.take(i - 1));
            assert(r@ =~= spec_dice_str(values@.take(i as int)));
        }
    }
    proof {
        assert(values@.take(values@.len() as int) =~= values@);
    }
    r
}

impl DiceSet {
    /// Renders the dice as bracketed face values, ascending.
    pub fn render(&self) -> (r: String)
        requires
            self.wf(),
        ensures
            r@ == spec_dice_str(self.spec_values()),
    {
        let values = self.dice_values();
        render_dice(&values)
    }
}

impl DiceCombination {
    /// The description of the combination: `<count> <face>s`,
    /// `combo of <n> <face>s`, `straight`, or `pairs`.
    pub open spec fn spec_render(self) -> Seq<char> {
        match self {
            DiceCombination::Single { value, max_count } => spec_decimal(max_count as int) + " "@
                + spec_decimal(value as int) + "s"@,
            DiceCombination::Multiple { value, quantity } => "combo of "@ + spec_decimal(
                quantity + 2,
            ) + " "@ + spec_decimal(value as int) + "s"@,
            DiceCombination::Straight { .. } => "straight"@,
            DiceCombination::Pairs(_, _, _) => "pairs"@,
        }
    }

    /// Renders the combination's short description.
    pub fn render(&self) -> (r: String)
        requires
            self.valid(),
        ensures
            r@ == self.spec_render(),
    {
        proof {
            reveal_strlit(" ");
            reveal_strlit("s");
            reveal_strlit("combo of ");
            reveal_strlit("straight");
            reveal_strlit("pairs");
        }
        match self {
            DiceCombination::Single { value, max_count } => {
                let mut r = u32_to_string(*max_count as u32);
                r.append(" ");
                let face = u32_to_string(*value as u32);
                r.append(face.as_str());
                r.append("s");
                proof {
                    assert(r@ =~= self.spec_render());
                }
                r
            },
            DiceCombination::Multiple { value, quantity } => {
                let mut r = String::from_str("combo of ");
                let n = u32_to_string(*quantity as u32 + 2);
                r.append(n.as_str());
                r.append(" ");
                let face = u32_to_string(*value as u32);
                r.append(face.as_str());
                r.append("s");
                proof {
                    assert(r@ =~= self.spec_render());
                }
                r
            },
            DiceCombination::Straight { .. } => String::from_str("straight"),
            DiceCombination::Pairs(_, _, _) => String::from_str("pairs"),
        }
    }
}

/// All combinations of a list are well-formed.
pub open spec fn all_valid(cs: Seq<DiceCombination>) -> bool {
    forall|i: int| 0 <= i < cs.len() ==> (#[trigger] cs[i]).valid()
}

/// The descriptions of a list of combinations, joined by commas.
pub open spec fn spec_combos_str(cs: Seq<DiceCombination>) -> Seq<char>
    decreases cs.len(),
{
    if cs.len() == 0 {
        Seq::empty()
    } else if cs.len() == 1 {
        cs[0].spec_render()
    } else {
        spec_combos_str(cs.drop_last()) + ","@ + cs.last().spec_render()
    }
}

impl ScoreAction {
    /// The description of the action: `form …`, `add to …`, or
    /// `stay with …`.
    pub open spec fn spec_render(self) -> Seq<char> {
        match self {
            ScoreAction::KeepNew(c) => "form "@ + c.spec_render(),
            ScoreAction::AddTo(c) => "add to "@ + c.spec_render(),
            ScoreAction::Stay(cs) => "stay with "@ + spec_combos_str(cs@),
        }
    }

    /// Renders the action's description.
    pub fn render(&self) -> (r: String)
        requires
            all_valid(self.spec_combos()),
        ensures
            r@ == self.spec_render(),
    {
        proof {
            reveal_strlit("form ");
            reveal_strlit("add to ");
            reveal_strlit("stay with ");
            reveal_strlit(",");
        }
        match self {
            ScoreAction::KeepNew(c) => {
                let mut r = String::from_str("form ");
                proof {
                    assert(self.spec_combos()[0] == *c);
                }
                let body = c.render();
                r.append(body.as_str());
                r
            },
            ScoreAction::AddTo(c) => {
                let mut r = String::from_str("add to ");
                proof {
                    assert(self.spec_combos()[0] == *c);
                }
                let body = c.render();
                r.append(body.as_str());
                r
            },
            ScoreAction::Stay(cs) => {
                let mut r = String::from_str("stay with ");
                let ghost prefix = "stay with "@;
                let mut i: usize = 0;
                proof {
                    assert(cs@.take(0int) =~= Seq::<DiceCombination>::empty());
                }
                while i < cs.len()
                    invariant
                        i <= cs@.len(),
                        all_valid(cs@),
                        r@ == prefix + spec_combos_str(cs@.take(i as int)),
                    decreases cs@.len() - i,
                {
                    proof {
                        reveal_strlit(",");
                    }
                    if i > 0 {
                        r.append(",");
                    }
                    let body = cs[i].render();
                    r.append(body.as_str());
                    i = i + 1;
                    proof {
                        assert(cs@.take(i as int).drop_last() =~= cs@.take(i - 1));
                        assert(cs@.take(i as int).last() == cs@[i - 1]);
                        assert(r@ =~= prefix + spec_combos_str(cs@.take(i as int)));
                    }
                }
                proof {
                    assert(cs@.take(cs@.len() as int) =~= cs@);
                }
                r
            },
        }
    }
}

/// One description line per held combination.
pub open spec fn spec_combo_lines(cs: Seq<DiceCombination>) -> Seq<char>
    decreases cs.len(),
{
    if cs.len() == 0 {
        Seq::empty()
    } else {
        spec_combo_lines(cs.drop_last()) + cs.last().spec_render() + "\n"@
    }
}

impl crate::hand::Hand {
    /// The hand's console picture: both score counters, the held
    /// combinations' worth, and one line per held combination.
    pub open spec fn spec_render(self) -> Seq<char> {
        "Cumulative score: "@ + spec_decimal(self.spec_cumulative() as int) + " ("@
            + spec_decimal(self.spec_guaranteed() as int) + " guaranteed)\n"@
            + "Saved combos: "@ + spec_decimal(crate::hand::spec_score_sum(self.spec_combos()))
            + " points\n"@ + spec_combo_lines(self.spec_combos())
    }

    /// Renders the hand for a line-oriented console display.
    pub fn render(&self) -> (r: String)
        requires
            self.wf(),
            crate::hand::spec_score_sum(self.spec_combos()) <= u32::MAX,
        ensures
            r@ == self.spec_render(),
    {
        proof {
            reveal_strlit("Cumulative score: ");
            reveal_strlit(" (");
            reveal_strlit(" guaranteed)\n");
            reveal_strlit("Saved combos: ");
            reveal_strlit(" points\n");
            reveal_strlit("\n");
        }
        let mut r = String::from_str("Cumulative score: ");
        let n = u32_to_string(self.cumulative_score());
        r.append(n.as_str());
        r.append(" (");
        let n = u32_to_string(self.guaranteed_score());
        r.append(n.as_str());
        r.append(" guaranteed)\n");
        r.append("Saved combos: ");
        let n = u32_to_string(self.score_combos());
        r.append(n.as_str());
        r.append(" points\n");
        let ghost prefix = r@;
        let combos = self.held_combos();
        let mut i: usize = 0;
        proof {
            assert(combos@.take(0int) =~= Seq::<DiceCombination>::empty());
        }
        while i < combos.len()
            invariant
                i <= combos@.len(),
                combos@ == self.spec_combos(),
                self.wf(),
                r@ == prefix + spec_combo_lines(combos@.take(i as int)),
            decreases combos@.len() - i,
        {
            proof {
                reveal_strlit("\n");
            }
            let line = combos[i].render();
            r.append(line.as_str());
            r.append("\n");
            i = i + 1;
            proof {
                assert(combos@.take(i as int).drop_last() =~= combos@.take(i - 1));
                assert(combos@.take(i as int).last() == combos@[i - 1]);
                assert(r@ =~= prefix + spec_combo_lines(combos@.take(i as int)));
            }
        }
        proof {
            assert(combos@.take(combos@.len() as int) =~= combos@);
            assert(r@ =~= self.spec_render());
        }
        r
    }
}

impl DiceAction {
    /// The one-line description: `save <dice> to <action>`.
    pub open spec fn spec_render(self) -> Seq<char> {
        "save "@ + spec_dice_str(self.dice@) + " to "@ + self.action.spec_render()
    }

    /// Renders the action and the dice it sets aside.
    pub fn render(&self) -> (r: String)
        requires
            all_valid(self.action.spec_combos()),
        ensures
            r@ == self.spec_render(),
    {
        proof {
            reveal_strlit("save ");
            reveal_strlit(" to ");
        }
        let mut r = String::from_str("save ");
        let dice_str = render_dice(&self.dice);
        r.append(dice_str.as_str());
        r.append(" to ");
        let action_str = self.action.render();
        r.append(action_str.as_str());
        proof {
            assert(r@ =~= self.spec_render());
        }
        r
    }
}

} // verus!
