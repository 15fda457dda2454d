//! The scoring combinations a roll can be banked as, and their point values.
use vstd::prelude::*;

verus! {

/// A scoring shape recognized by the rules.
///
/// Invariants on the fields (see [`DiceCombination::valid`]) are established
/// at the single construction site, the action-generation algorithm; consumers
/// assume them through `requires` clauses instead of re-validating.
#[derive(Clone, Copy, Debug, PartialEq, Eq, Structural)]
pub enum DiceCombination {
    /// One or more dice of a single scorable face (1 or 5).
    Single {
        /// the die face, restricted to 1 or 5
        value: u8,
        /// how many dice of that face are credited
        max_count: u8,
    },
    /// A three-of-a-kind or more.
    Multiple {
        /// the die face
        value: u8,
        /// dice beyond the base pair: `quantity + 2` dice are credited
        quantity: u8,
    },
    /// One of each face, completed on the given roll of the turn.
    Straight {
        /// which roll within the turn completed it (1, 2 or 3)
        roll: u8,
    },
    /// Three distinct faces, each appearing exactly twice.
    Pairs(u8, u8, u8),
}

impl DiceCombination {
    /// The field invariants a well-formed combination satisfies.
    ///
    /// For a `Multiple` this is the machine bound that scoring and
    /// expansion need (`quantity + 2` dice must fit a byte), not the
    /// six-dice pool bound: how many dice of a face one pool cycle can
    /// supply is a property of the pool, which a combination value does not
    /// track. The action generator only ever builds combinations from a
    /// roll of at most six dice.
    pub open spec fn valid(self) -> bool {
        match self {
            DiceCombination::Single { value, max_count: _ } => value == 1 || value == 5,
            DiceCombination::Multiple { value, quantity } => 1 <= value <= 6 && quantity + 2
                <= 255,
            DiceCombination::Straight { roll } => 1 <= roll <= 3,
            DiceCombination::Pairs(a, b, c) => 1 <= a <= 6 && 1 <= b <= 6 && 1 <= c <= 6 && a != b
                && a != c && b != c,
        }
    }

    /// Whether the combination's fields satisfy [`DiceCombination::valid`].
    pub fn is_valid(&self) -> (r: bool)
        ensures
            r == self.valid(),
    {
        match self {
            DiceCombination::Single { value, max_count: _ } => *value == 1 || *value == 5,
            DiceCombination::Multiple { value, quantity } => 1 <= *value && *value <= 6
                && *quantity <= 253,
            DiceCombination::Straight { roll } => 1 <= *roll && *roll <= 3,
            DiceCombination::Pairs(a, b, c) => 1 <= *a && *a <= 6 && 1 <= *b && *b <= 6 && 1 <= *c
                && *c <= 6 && *a != *b && *a != *c && *b != *c,
        }
    }

    /// The fixed scoring table.
    pub open spec fn spec_score(self) -> int {
        match self {
            DiceCombination::Single { value, max_count } => if value == 1 {
                100 * max_count
            } else {
                50 * max_count
            },
            DiceCombination::Multiple { value, quantity } => if value == 1 {
                1000 * quantity
            } else {
                (value * 100) * quantity
            },
            DiceCombination::Straight { roll } => if roll == 1 {
                1500int
            } else if roll == 2 {
                1000int
            } else {
                500int
            },
            DiceCombination::Pairs(_, _, _) => 1000int,
        }
    }

    /// The point value of this combination.
    pub fn score(&self) -> (r: u32)
        requires
            self.valid(),
        ensures
            r == self.spec_score(),
    {
        match self {
            DiceCombination::Single { value, max_count } => match *value {
                1 => 100u32 * (*max_count as u32),
                _ => 50u32 * (*max_count as u32),
            },
            DiceCombination::Multiple { value, quantity } => {
                let value: u32 = if *value == 1 {
                    1000
                } else {
                    (*value as u32) * 100
                };
                let qty = *quantity as u32;
                proof {
                    assert(value * qty <= 1000 * 255) by (nonlinear_arith)
                        requires
                            value <= 1000,
                            qty <= 255,
                    ;
                }
                value * qty
            },
            DiceCombination::Straight { roll } => match *roll {
                1 => 1500,
                2 => 1000,
                _ => 500,
            },
            DiceCombination::Pairs(_, _, _) => 1000,
        }
    }

    /// The flat list of physical dice this combination stands for.
    pub open spec fn spec_involved(self) -> Seq<u8> {
        match self {
            DiceCombination::Single { value, max_count } => Seq::new(
                max_count as nat,
                |i: int| value,
            ),
            DiceCombination::Multiple { value, quantity } => Seq::new(
                (quantity + 2) as nat,
                |i: int| value,
            ),
            DiceCombination::Straight { roll: _ } => seq![1u8, 2u8, 3u8, 4u8, 5u8, 6u8],
            DiceCombination::Pairs(a, b, c) => seq![a, a, b, b, c, c],
        }
    }

    /// Reconstructs the flat list of dice the combination consumes.
    pub fn involved_dice(&self) -> (r: Vec<u8>)
        requires
            self.valid(),
        ensures
            r@ == self.spec_involved(),
    {
        match self {
            DiceCombination::Single { value, max_count } => repeat_die(*value, *max_count),
            DiceCombination::Multiple { value, quantity } => repeat_die(*value, *quantity + 2),
            DiceCombination::Straight { roll: _ } => {
                let mut r: Vec<u8> = Vec::new();
                r.push(1);
                r.push(2);
                r.push(3);
                r.push(4);
                r.push(5);
                r.push(6);
                proof {
                    assert(r@ =~= seq![1u8, 2u8, 3u8, 4u8, 5u8, 6u8]);
                }
                r
            },
            DiceCombination::Pairs(a, b, c) => {
                let mut r: Vec<u8> = Vec::new();
                r.push(*a);
                r.push(*a);
                r.push(*b);
                r.push(*b);
                r.push(*c);
                r.push(*c);
                proof {
                    assert(r@ =~= seq![*a, *a, *b, *b, *c, *c]);
                }
                r
            },
        }
    }

    /// Whether this combination is a straight, the only variant whose score
    /// is banked irrevocably the moment it is formed or extended.
    pub fn is_straight_roll(&self) -> (r: bool)
        ensures
            r <==> self matches DiceCombination::Straight { .. },
    {
        match self {
            DiceCombination::Straight { .. } => true,
            _ => false,
        }
    }
}

/// A vector of `count` copies of `die`.
pub(crate) fn repeat_die(die: u8, count: u8) -> (r: Vec<u8>)
    ensures
        r@ == Seq::new(count as nat, |i: int| die),
{
    let mut r: Vec<u8> = Vec::new();
    let mut i: u8 = 0;
    while i < count
        invariant
            i <= count,
            r@ == Seq::new(i as nat, |j: int| die),
        decreases count - i,
    {
        r.push(die);
        i = i + 1;
        proof {
            assert(r@ =~= Seq::new(i as nat, |j: int| die));
        }
    }
    r
}

} // verus!
