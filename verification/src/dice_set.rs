//! The multiset of rolled dice: a count for each face 1 through 6 with a
//! memoized total, and the queries that recognize scoring shapes in a roll.
use vstd::prelude::*;
use vstd::multiset::Multiset;
use crate::hand::dice_combination::DiceCombination;
use rand::distributions::Distribution;

verus! {

/// A bag of dice, recorded as how many dice show each face.
///
/// Two sets with equal face counts are interchangeable; the `total` field is
/// only a memoized sum of the counts (see [`DiceSet::wf`]).
#[derive(Clone, Copy, Debug)]
pub struct DiceSet {
    /// die value frequency, indexed by face - 1
    counts: [u8; 6],
    /// total number of dice in the set, memoized
    total: usize,
}

impl DiceSet {
    /// How many dice show `face`; 0 for anything outside 1..=6.
    pub closed spec fn spec_count(self, face: int) -> nat {
        if 1 <= face <= 6 {
            self.counts@[face - 1] as nat
        } else {
            0
        }
    }

    /// The sum of the counts of faces 1..=k.
    pub closed spec fn sum_upto(self, k: nat) -> nat
        decreases k,
    {
        if k == 0 || k > 6 {
            0
        } else {
            self.sum_upto((k - 1) as nat) + self.spec_count(k as int)
        }
    }

    /// The memoized number of dice in the set.
    pub closed spec fn spec_total(self) -> nat {
        self.total as nat
    }

    /// Internal invariant: the memoized total equals the sum of the counts.
    pub closed spec fn wf(self) -> bool {
        self.total == self.sum_upto(6)
    }

    /// The face→count mapping the set stands for; a face with count 0 is absent.
    pub open spec fn spec_count_map(self) -> Map<u8, nat> {
        Map::new(
            |f: u8| 1 <= f <= 6 && self.spec_count(f as int) > 0,
            |f: u8| self.spec_count(f as int),
        )
    }

    /// An empty set of dice.
    pub fn new() -> (r: Self)
        ensures
            r.wf(),
            r.spec_total() == 0,
            forall|f: int| r.spec_count(f) == 0,
    {
        let r = Self { counts: [0, 0, 0, 0, 0, 0], total: 0 };
        proof {
            lemma_sum_of_six(r);
        }
        r
    }

    /// Adds `amount` dice showing `die`.
    pub fn add_amount(&mut self, die: u8, amount: u8)
        requires
            old(self).wf(),
            1 <= die <= 6,
            old(self).spec_count(die as int) + amount <= 255,
        ensures
            final(self).wf(),
            final(self).spec_count(die as int) == old(self).spec_count(die as int) + amount,
            forall|f: int| f != die as int ==> final(self).spec_count(f) == old(self).spec_count(
                f,
            ),
            final(self).spec_total() == old(self).spec_total() + amount,
    {
        proof {
            lemma_sum_bound(*old(self), 6);
        }
        let idx = (die - 1) as usize;
        let cur = self.counts[idx];
        self.counts[idx] = cur + amount;
        self.total = self.total + amount as usize;
        proof {
            lemma_sum_update(*old(self), *self, die as int, 6);
        }
    }

    /// Adds one die showing `die`.
    pub fn add(&mut self, die: u8)
        requires
            old(self).wf(),
            1 <= die <= 6,
            old(self).spec_count(die as int) + 1 <= 255,
        ensures
            final(self).wf(),
            final(self).spec_count(die as int) == old(self).spec_count(die as int) + 1,
            forall|f: int| f != die as int ==> final(self).spec_count(f) == old(self).spec_count(
                f,
            ),
            final(self).spec_total() == old(self).spec_total() + 1,
    {
        self.add_amount(die, 1)
    }

    /// Removes up to `amount` dice showing `die`, never dropping a count
    /// below zero; a face outside 1..=6 is absent and nothing changes.
    pub fn remove_amount(&mut self, die: u8, amount: u8)
        requires
            old(self).wf(),
        ensures
            final(self).wf(),
            forall|f: int| f != die as int ==> final(self).spec_count(f) == old(self).spec_count(
                f,
            ),
            final(self).spec_count(die as int) == if amount <= old(self).spec_count(die as int) {
                old(self).spec_count(die as int) - amount
            } else {
                0
            },
            final(self).spec_total() == old(self).spec_total() - (if amount
                <= old(self).spec_count(die as int) {
                amount as nat
            } else {
                old(self).spec_count(die as int)
            }),
    {
        if die < 1 || die > 6 {
            return ;
        }
        let idx = (die - 1) as usize;
        let cur = self.counts[idx];
        let removed = if amount < cur {
            amount
        } else {
            cur
        };
        proof {
            lemma_count_le_sum(*old(self), die as int, 6);
        }
        self.counts[idx] = cur - removed;
        self.total = self.total - removed as usize;
        proof {
            lemma_sum_update(*old(self), *self, die as int, 6);
        }
    }

    /// Drops the face entirely, whatever its count.
    pub fn remove_all(&mut self, die: u8)
        requires
            old(self).wf(),
        ensures
            final(self).wf(),
            forall|f: int| f != die as int ==> final(self).spec_count(f) == old(self).spec_count(
                f,
            ),
            final(self).spec_count(die as int) == 0,
            final(self).spec_total() == old(self).spec_total() - old(self).spec_count(die as int),
    {
        self.remove_amount(die, 255);
        proof {
            assert(old(self).spec_count(die as int) <= 255) by {
                if 1 <= die <= 6 {
                }
            }
        }
    }

    /// The faces, in ascending order, that appear at least three times.
    pub open spec fn multiple_faces_upto(self, k: nat) -> Seq<u8>
        decreases k,
    {
        if k == 0 || k > 6 {
            Seq::empty()
        } else {
            self.multiple_faces_upto((k - 1) as nat) + if self.spec_count(k as int) >= 3 {
                seq![k as u8]
            } else {
                Seq::empty()
            }
        }
    }

    /// The faces that have three or more dice in the set.
    pub fn take_multiples(self) -> (r: Vec<u8>)
        ensures
            r@ == self.multiple_faces_upto(6),
            forall|x: u8| #[trigger] r@.contains(x) <==> (1 <= x <= 6 && self.spec_count(x as int)
                >= 3),
            forall|i: int, j: int| 0 <= i < j < r@.len() ==> r@[i] < r@[j],
    {
        proof {
            lemma_multiple_faces_props(self, 6);
        }
        let mut r: Vec<u8> = Vec::new();
        let mut f: u8 = 1;
        while f <= 6
            invariant
                1 <= f <= 7,
                r@ == self.multiple_faces_upto((f - 1) as nat),
            decreases 7 - f,
        {
            if self.counts[(f - 1) as usize] >= 3 {
                r.push(f);
                proof {
                    assert(r@ =~= self.multiple_faces_upto((f - 1) as nat) + seq![f]);
                }
            } else {
                proof {
                    assert(r@ =~= self.multiple_faces_upto((f - 1) as nat) + Seq::<u8>::empty());
                }
            }
            f = f + 1;
        }
        r
    }

    /// Combines this set with another, face by face.
    pub fn union(self, other: Self) -> (r: Self)
        requires
            self.wf(),
            other.wf(),
            forall|f: int| 1 <= f <= 6 ==> self.spec_count(f) + other.spec_count(f) <= 255,
        ensures
            r.wf(),
            forall|f: int| r.spec_count(f) == self.spec_count(f) + other.spec_count(f),
            r.spec_total() == self.spec_total() + other.spec_total(),
    {
        let mut result = self;
        let mut f: u8 = 1;
        while f <= 6
            invariant
                1 <= f <= 7,
                self.wf(),
                other.wf(),
                result.wf(),
                forall|g: int| 1 <= g <= 6 ==> self.spec_count(g) + other.spec_count(g) <= 255,
                forall|g: int|
                    1 <= g < f ==> result.spec_count(g) == self.spec_count(g) + other.spec_count(
                        g,
                    ),
                forall|g: int| !(1 <= g < f) ==> result.spec_count(g) == self.spec_count(g),
                result.spec_total() == self.spec_total() + other.sum_upto((f - 1) as nat),
            decreases 7 - f,
        {
            let amount = other.counts[(f - 1) as usize];
            result.add_amount(f, amount);
            proof {
                assert(other.sum_upto(f as nat) == other.sum_upto((f - 1) as nat)
                    + other.spec_count(f as int));
            }
            f = f + 1;
        }
        result
    }

    /// True iff the set is one die of each face: six dice, each face once.
    pub fn is_straight(&self) -> (r: bool)
        requires
            self.wf(),
        ensures
            r <==> (forall|f: int| 1 <= f <= 6 ==> self.spec_count(f) == 1),
            r ==> self.spec_total() == 6,
    {
        let r = self.counts[0] == 1 && self.counts[1] == 1 && self.counts[2] == 1 && self.counts[3]
            == 1 && self.counts[4] == 1 && self.counts[5] == 1;
        proof {
            lemma_sum_of_six(*self);
            if r {
                assert forall|f: int| 1 <= f <= 6 implies self.spec_count(f) == 1 by {
                    assert(self.counts@[f - 1] == 1);
                }
            }
        }
        r
    }

    /// The faces, in ascending order, whose count is exactly two.
    pub open spec fn pairs_faces_upto(self, k: nat) -> Seq<u8>
        decreases k,
    {
        if k == 0 || k > 6 {
            Seq::empty()
        } else {
            self.pairs_faces_upto((k - 1) as nat) + if self.spec_count(k as int) == 2 {
                seq![k as u8]
            } else {
                Seq::empty()
            }
        }
    }

    /// The faces whose count is exactly two, ascending.
    pub open spec fn spec_pairs_faces(self) -> Seq<u8> {
        self.pairs_faces_upto(6)
    }

    /// Reports the three-pair shape: the three faces that each appear exactly
    /// twice, or `None` unless exactly three faces do. Faces with any other
    /// count are ignored.
    pub fn is_pairs(&self) -> (r: Option<(u8, u8, u8)>)
        ensures
            r is Some <==> self.spec_pairs_faces().len() == 3,
            r is Some <==> (exists|x: int, y: int, z: int| three_pair_faces(*self, x, y, z)),
            r matches Some((a, b, c)) ==> three_pair_faces(*self, a as int, b as int, c as int),
            r matches Some((a, b, c)) ==> self.spec_pairs_faces() == seq![a, b, c],
            r matches Some((a, b, c)) ==> a < b && b < c,
            r matches Some((a, b, c)) ==> self.spec_count(a as int) == 2 && self.spec_count(
                b as int,
            ) == 2 && self.spec_count(c as int) == 2,
            r matches Some((a, b, c)) ==> forall|f: int|
                1 <= f <= 6 && self.spec_count(f) == 2 ==> f == a as int || f == b as int || f
                    == c as int,
    {
        let mut found: Vec<u8> = Vec::new();
        let mut f: u8 = 1;
        while f <= 6
            invariant
                1 <= f <= 7,
                found@ == self.pairs_faces_upto((f - 1) as nat),
            decreases 7 - f,
        {
            if self.counts[(f - 1) as usize] == 2 {
                found.push(f);
                proof {
                    assert(found@ =~= self.pairs_faces_upto((f - 1) as nat) + seq![f]);
                }
            } else {
                proof {
                    assert(found@ =~= self.pairs_faces_upto((f - 1) as nat) + Seq::<u8>::empty());
                }
            }
            f = f + 1;
        }
        proof {
            lemma_pairs_faces_props(*self, 6);
            lemma_pairs_faces_len(*self);
        }
        if found.len() == 3 {
            let a = found[0];
            let b = found[1];
            let c = found[2];
            proof {
                assert(self.spec_pairs_faces().contains(a));
                assert(self.spec_pairs_faces().contains(b));
                assert(self.spec_pairs_faces().contains(c));
                assert(self.spec_pairs_faces() =~= seq![a, b, c]);
                assert forall|g: int|
                    1 <= g <= 6 && self.spec_count(g) == 2 implies g == a as int || g == b as int
                    || g == c as int by {
                    assert(self.spec_pairs_faces().contains(g as u8));
                    let i = choose|i: int|
                        0 <= i < self.spec_pairs_faces().len() && self.spec_pairs_faces()[i] == g
                            as u8;
                }
            }
            Some((a, b, c))
        } else {
            None
        }
    }

    /// The dice expanded to a flat list: each face, in ascending order,
    /// repeated as many times as its count.
    pub open spec fn values_upto(self, k: nat) -> Seq<u8>
        decreases k,
    {
        if k == 0 || k > 6 {
            Seq::empty()
        } else {
            self.values_upto((k - 1) as nat) + Seq::new(
                self.spec_count(k as int),
                |i: int| k as u8,
            )
        }
    }

    /// The flat list of individual die faces this set expands to.
    pub open spec fn spec_values(self) -> Seq<u8> {
        self.values_upto(6)
    }

    /// Expands the set back into a flat list of individual die faces.
    pub fn dice_values(&self) -> (r: Vec<u8>)
        requires
            self.wf(),
        ensures
            r@ == self.spec_values(),
            r@.len() == self.spec_total(),
            forall|i: int|
                0 <= i < r@.len() ==> 1 <= #[trigger] r@[i] <= 6 && self.spec_count(r@[i] as int)
                    > 0,
    {
        proof {
            lemma_values_elements(*self, 6);
        }
        let mut r: Vec<u8> = Vec::new();
        let mut f: u8 = 1;
        while f <= 6
            invariant
                1 <= f <= 7,
                r@ == self.values_upto((f - 1) as nat),
            decreases 7 - f,
        {
            push_copies(&mut r, f, self.counts[(f - 1) as usize]);
            proof {
                assert(r@ =~= self.values_upto((f - 1) as nat) + Seq::new(
                    self.spec_count(f as int),
                    |i: int| f,
                ));
            }
            f = f + 1;
        }
        proof {
            lemma_values_upto_props(*self, 6);
        }
        r
    }

    /// True iff the set holds no dice.
    pub fn is_empty(&self) -> (r: bool)
        requires
            self.wf(),
        ensures
            r <==> self.spec_total() == 0,
    {
        self.total == 0
    }

    /// The number of dice in the set.
    pub fn size(&self) -> (r: usize)
        ensures
            r == self.spec_total(),
    {
        self.total
    }

    /// The face and its stored count, or `None` if the face is absent.
    pub fn get_die_count(&self, die: u8) -> (r: Option<(u8, u8)>)
        ensures
            r is Some <==> self.spec_count(die as int) > 0,
            r matches Some((d, c)) ==> d == die && c == self.spec_count(die as int),
    {
        if 1 <= die && die <= 6 {
            let c = self.counts[(die - 1) as usize];
            if c > 0 {
                Some((die, c))
            } else {
                None
            }
        } else {
            None
        }
    }

    /// True iff at least one die shows `die`.
    pub fn has_die_value(&self, die: u8) -> (r: bool)
        ensures
            r <==> self.spec_count(die as int) > 0,
    {
        if 1 <= die && die <= 6 {
            self.counts[(die - 1) as usize] > 0
        } else {
            false
        }
    }

    /// A new `Multiple` for each face with three or more dice, ascending:
    /// `quantity` is the count beyond the base pair.
    pub open spec fn find_multiples_upto(self, k: nat) -> Seq<DiceCombination>
        decreases k,
    {
        if k == 0 || k > 6 {
            Seq::empty()
        } else {
            self.find_multiples_upto((k - 1) as nat) + if self.spec_count(k as int) >= 3 {
                seq![
                    DiceCombination::Multiple {
                        value: k as u8,
                        quantity: (self.spec_count(k as int) - 2) as u8,
                    },
                ]
            } else {
                Seq::empty()
            }
        }
    }

    /// The `Multiple` combinations this roll can start.
    pub open spec fn spec_find_multiples(self) -> Seq<DiceCombination> {
        self.find_multiples_upto(6)
    }

    /// For every face with count ≥ 3, a `Multiple` with quantity = count − 2.
    pub fn find_multiples(&self) -> (r: Vec<DiceCombination>)
        ensures
            r@ == self.spec_find_multiples(),
            forall|f: int|
                1 <= f <= 6 && #[trigger] self.spec_count(f) >= 3 ==> r@.contains(
                    DiceCombination::Multiple {
                        value: f as u8,
                        quantity: (self.spec_count(f) - 2) as u8,
                    },
                ),
            forall|i: int|
                0 <= i < r@.len() ==> (#[trigger] r@[i] matches DiceCombination::Multiple {
                    value,
                    quantity,
                } && 1 <= value <= 6 && self.spec_count(value as int) >= 3 && quantity + 2
                    == self.spec_count(value as int)),
            forall|i: int, j: int| 0 <= i < j < r@.len() ==> r@[i] != r@[j],
    {
        proof {
            lemma_find_multiples_props(*self, 6);
        }
        let mut r: Vec<DiceCombination> = Vec::new();
        let mut f: u8 = 1;
        while f <= 6
            invariant
                1 <= f <= 7,
                r@ == self.find_multiples_upto((f - 1) as nat),
            decreases 7 - f,
        {
            let c = self.counts[(f - 1) as usize];
            if c >= 3 {
                r.push(DiceCombination::Multiple { value: f, quantity: c - 2 });
                proof {
                    assert(r@ =~= self.find_multiples_upto((f - 1) as nat) + seq![
                        DiceCombination::Multiple {
                            value: f,
                            quantity: (self.spec_count(f as int) - 2) as u8,
                        },
                    ]);
                }
            } else {
                proof {
                    assert(r@ =~= self.find_multiples_upto((f - 1) as nat)
                        + Seq::<DiceCombination>::empty());
                }
            }
            f = f + 1;
        }
        r
    }

    /// A maximal `Single` proposal for each of the scorable faces 1 and 5
    /// that is present: the player later chooses how many to actually take.
    pub open spec fn spec_find_singles(self) -> Seq<DiceCombination> {
        (if self.spec_count(1) > 0 {
            seq![
                DiceCombination::Single { value: 1u8, max_count: self.spec_count(1) as u8 },
            ]
        } else {
            Seq::empty()
        }) + (if self.spec_count(5) > 0 {
            seq![
                DiceCombination::Single { value: 5u8, max_count: self.spec_count(5) as u8 },
            ]
        } else {
            Seq::empty()
        })
    }

    /// For faces 1 and 5, if present, a `Single` carrying the full count.
    pub fn find_singles(&self) -> (r: Vec<DiceCombination>)
        ensures
            r@ == self.spec_find_singles(),
    {
        let mut r: Vec<DiceCombination> = Vec::new();
        let c1 = self.counts[0];
        if c1 > 0 {
            r.push(DiceCombination::Single { value: 1, max_count: c1 });
        }
        let c5 = self.counts[4];
        if c5 > 0 {
            r.push(DiceCombination::Single { value: 5, max_count: c5 });
        }
        proof {
            assert(r@ =~= self.spec_find_singles());
        }
        r
    }

    /// Builds a set from a flat list of die faces.
    pub fn from_values(values: &[u8]) -> (r: Self)
        requires
            forall|i: int| 0 <= i < values@.len() ==> 1 <= #[trigger] values@[i] <= 6,
            values@.len() <= 255,
        ensures
            r.wf(),
            r.spec_total() == values@.len(),
            forall|x: u8| r.spec_count(x as int) == values@.to_multiset().count(x),
    {
        broadcast use vstd::seq_lib::group_to_multiset_ensures;
        broadcast use vstd::multiset::group_multiset_axioms;
        broadcast use vstd::multiset::group_multiset_properties;

        let mut r = Self::new();
        let mut i: usize = 0;
        proof {
            assert(values@.take(0int).len() == 0);
            assert forall|x: u8| values@.take(0int).to_multiset().count(x) == 0 by {
                assert(!values@.take(0int).contains(x));
            }
        }
        while i < values.len()
            invariant
                i <= values@.len(),
                values@.len() <= 255,
                forall|j: int| 0 <= j < values@.len() ==> 1 <= #[trigger] values@[j] <= 6,
                r.wf(),
                r.spec_total() == i,
                forall|x: u8| r.spec_count(x as int) == values@.take(i as int).to_multiset().count(
                    x,
                ),
            decreases values@.len() - i,
        {
            let v = values[i];
            proof {
                lemma_count_le_sum(r, v as int, 6);
            }
            r.add(v);
            proof {
                assert(values@.take(i + 1) =~= values@.take(i as int).push(values@[i as int]));
                vstd::seq_lib::to_multiset_build(values@.take(i as int), v);
            }
            i = i + 1;
        }
        proof {
            assert(values@.take(values@.len() as int) =~= values@);
        }
        r
    }

    /// Rolls `count` dice uniformly and gathers them into a set.
    pub fn rand(count: usize) -> (r: Self)
        requires
            count <= 255,
        ensures
            r.wf(),
            r.spec_total() == count,
            forall|f: int| !(1 <= f <= 6) ==> r.spec_count(f) == 0,
    {
        let faces = sample_faces(count);
        Self::from_values(faces.as_slice())
    }
}

impl Default for DiceSet {
    /// An empty set of dice.
    fn default() -> (r: Self)
        ensures
            r.wf(),
            r.spec_total() == 0,
            forall|f: int| r.spec_count(f) == 0,
    {
        Self::new()
    }
}

/// Relies on `rand::distributions::Uniform::new_inclusive(1, 6)` and
/// `Distribution::sample_iter` with the thread-local generator: every sampled
/// value lies in the inclusive range 1..=6. Nothing else is assumed of the
/// random outcome.
#[verifier::external_body]
fn sample_faces(count: usize) -> (r: Vec<u8>)
    ensures
        r@.len() == count,
        forall|i: int| 0 <= i < r@.len() ==> 1 <= #[trigger] r@[i] <= 6,
{
    let rng = rand::thread_rng();
    rand::distributions::Uniform::new_inclusive(1u8, 6u8).sample_iter(rng).take(count).collect()
}

/// Appends `count` copies of `die` to `v`.
fn push_copies(v: &mut Vec<u8>, die: u8, count: u8)
    ensures
        final(v)@ == old(v)@ + Seq::new(count as nat, |i: int| die),
{
    let mut i: u8 = 0;
    while i < count
        invariant
            i <= count,
            v@ == old(v)@ + Seq::new(i as nat, |j: int| die),
        decreases count - i,
    {
        v.push(die);
        i = i + 1;
        proof {
            assert(v@ =~= old(v)@ + Seq::new(i as nat, |j: int| die));
        }
    }
}

/// If `a` and `b` agree on every face but `f`, their partial sums differ by
/// exactly the difference at `f`.
proof fn lemma_sum_update(a: DiceSet, b: DiceSet, f: int, k: nat)
    requires
        1 <= f <= 6,
        k <= 6,
        forall|g: int| g != f ==> a.spec_count(g) == b.spec_count(g),
    ensures
        b.sum_upto(k) == a.sum_upto(k) + if f <= k {
            b.spec_count(f) - a.spec_count(f)
        } else {
            0
        },
    decreases k,
{
    if k > 0 {
        lemma_sum_update(a, b, f, (k - 1) as nat);
    }
}

/// A single face's count never exceeds the sum of counts up to it.
proof fn lemma_count_le_sum(a: DiceSet, f: int, k: nat)
    requires
        k <= 6,
    ensures
        1 <= f <= k ==> a.spec_count(f) <= a.sum_upto(k),
    decreases k,
{
    if k > 0 {
        lemma_count_le_sum(a, f, (k - 1) as nat);
    }
}

/// Each count is at most 255, so the sum of counts is at most 255 per face.
proof fn lemma_sum_bound(a: DiceSet, k: nat)
    requires
        k <= 6,
    ensures
        a.sum_upto(k) <= 255 * k,
    decreases k,
{
    if k > 0 {
        lemma_sum_bound(a, (k - 1) as nat);
    }
}

/// The sum over all six faces, written out.
proof fn lemma_sum_of_six(a: DiceSet)
    ensures
        a.sum_upto(6) == a.spec_count(1) + a.spec_count(2) + a.spec_count(3) + a.spec_count(4)
            + a.spec_count(5) + a.spec_count(6),
{
    assert(a.sum_upto(0) == 0);
    assert(a.sum_upto(1) == a.sum_upto(0) + a.spec_count(1));
    assert(a.sum_upto(2) == a.sum_upto(1) + a.spec_count(2));
    assert(a.sum_upto(3) == a.sum_upto(2) + a.spec_count(3));
    assert(a.sum_upto(4) == a.sum_upto(3) + a.spec_count(4));
    assert(a.sum_upto(5) == a.sum_upto(4) + a.spec_count(5));
    assert(a.sum_upto(6) == a.sum_upto(5) + a.spec_count(6));
}

/// Exactly three faces show a pair: `a`, `b` and `c` are distinct faces in
/// ascending order, each counting exactly two, and no other face counts two.
pub open spec fn three_pair_faces(s: DiceSet, a: int, b: int, c: int) -> bool {
    &&& 1 <= a && a < b && b < c && c <= 6
    &&& s.spec_count(a) == 2
    &&& s.spec_count(b) == 2
    &&& s.spec_count(c) == 2
    &&& forall|f: int| 1 <= f <= 6 && s.spec_count(f) == 2 ==> f == a || f == b || f == c
}

/// Faces outside 1..=6 never hold dice.
pub proof fn lemma_count_range(a: DiceSet, f: int)
    ensures
        !(1 <= f <= 6) ==> a.spec_count(f) == 0,
{
}

/// No face's count exceeds what one byte can store.
pub proof fn lemma_count_cap(a: DiceSet, f: int)
    ensures
        a.spec_count(f) <= 255,
{
}

/// The faces with three or more dice, collected ascending: membership,
/// order, bounds.
pub proof fn lemma_multiple_faces_props(a: DiceSet, k: nat)
    requires
        k <= 6,
    ensures
        forall|x: u8| #[trigger] a.multiple_faces_upto(k).contains(x) <==> (1 <= x <= k
            && a.spec_count(x as int) >= 3),
        forall|i: int|
            0 <= i < a.multiple_faces_upto(k).len() ==> 1 <= #[trigger] a.multiple_faces_upto(k)[i]
                <= k,
        forall|i: int, j: int|
            0 <= i < j < a.multiple_faces_upto(k).len() ==> a.multiple_faces_upto(k)[i]
                < a.multiple_faces_upto(k)[j],
    decreases k,
{
    if k > 0 {
        lemma_multiple_faces_props(a, (k - 1) as nat);
        let prev = a.multiple_faces_upto((k - 1) as nat);
        let cur = a.multiple_faces_upto(k);
        assert forall|x: u8| #[trigger] cur.contains(x) implies (1 <= x <= k && a.spec_count(
            x as int,
        ) >= 3) by {
            let i = choose|i: int| 0 <= i < cur.len() && cur[i] == x;
            if i < prev.len() {
                assert(prev.contains(x));
            }
        }
        assert forall|x: u8| (1 <= x <= k && a.spec_count(x as int) >= 3) implies #[trigger] cur
            .contains(x) by {
            if x < k {
                assert(prev.contains(x));
                let i = choose|i: int| 0 <= i < prev.len() && prev[i] == x;
                assert(cur[i] == x);
            } else {
                assert(cur[cur.len() - 1] == x);
            }
        }
    }
}

/// The new-multiple proposals up to face `k`: one entry per face with three
/// or more dice, carrying count − 2 as its quantity, nothing else, and no
/// entry repeated.
pub proof fn lemma_find_multiples_props(a: DiceSet, k: nat)
    requires
        k <= 6,
    ensures
        forall|f: int|
            1 <= f <= k && #[trigger] a.spec_count(f) >= 3 ==> a.find_multiples_upto(k).contains(
                DiceCombination::Multiple { value: f as u8, quantity: (a.spec_count(f) - 2) as u8 },
            ),
        forall|i: int|
            0 <= i < a.find_multiples_upto(k).len() ==> (#[trigger] a.find_multiples_upto(k)[i]
                matches DiceCombination::Multiple { value, quantity } && 1 <= value <= k
                && a.spec_count(value as int) >= 3 && quantity + 2 == a.spec_count(value as int)),
        forall|i: int, j: int|
            0 <= i < j < a.find_multiples_upto(k).len() ==> a.find_multiples_upto(k)[i]
                != a.find_multiples_upto(k)[j],
    decreases k,
{
    if k > 0 {
        lemma_find_multiples_props(a, (k - 1) as nat);
        let prev = a.find_multiples_upto((k - 1) as nat);
        let cur = a.find_multiples_upto(k);
        assert forall|f: int|
            1 <= f <= k && #[trigger] a.spec_count(f) >= 3 implies cur.contains(
            DiceCombination::Multiple { value: f as u8, quantity: (a.spec_count(f) - 2) as u8 },
        ) by {
            let c = DiceCombination::Multiple {
                value: f as u8,
                quantity: (a.spec_count(f) - 2) as u8,
            };
            if f < k {
                assert(prev.contains(c));
                let i = choose|i: int| 0 <= i < prev.len() && prev[i] == c;
                assert(cur[i] == c);
            } else {
                assert(cur[cur.len() - 1] == c);
            }
        }
        assert forall|i: int, j: int|
            0 <= i < j < cur.len() implies cur[i] != cur[j] by {
            if j < prev.len() {
            } else if a.spec_count(k as int) >= 3 {
                assert(prev[i] matches DiceCombination::Multiple { value, .. } && value < k);
                assert(cur[j] matches DiceCombination::Multiple { value, .. } && value == k);
            }
        }
    }
}

/// Every die in the flat expansion up to face `k` is a face up to `k` whose
/// count is positive.
pub proof fn lemma_values_elements(a: DiceSet, k: nat)
    requires
        k <= 6,
    ensures
        forall|i: int|
            0 <= i < a.values_upto(k).len() ==> 1 <= #[trigger] a.values_upto(k)[i] <= k
                && a.spec_count(a.values_upto(k)[i] as int) > 0,
    decreases k,
{
    if k > 0 {
        lemma_values_elements(a, (k - 1) as nat);
        let prev = a.values_upto((k - 1) as nat);
        let cur = a.values_upto(k);
        assert forall|i: int|
            0 <= i < cur.len() implies 1 <= #[trigger] cur[i] <= k && a.spec_count(
            cur[i] as int,
        ) > 0 by {
            if i >= prev.len() {
                assert(cur[i] == k as u8);
            }
        }
    }
}

/// The faces with count exactly two number three iff there are faces `x`,
/// `y`, `z` as in [`three_pair_faces`].
pub proof fn lemma_pairs_faces_len(a: DiceSet)
    ensures
        (a.spec_pairs_faces().len() == 3) <==> (exists|x: int, y: int, z: int|
            three_pair_faces(a, x, y, z)),
{
    lemma_pairs_faces_props(a, 6);
    let pf = a.spec_pairs_faces();
    if pf.len() == 3 {
        let x = pf[0];
        let y = pf[1];
        let z = pf[2];
        assert(pf.contains(x));
        assert(pf.contains(y));
        assert(pf.contains(z));
        assert forall|f: int|
            1 <= f <= 6 && a.spec_count(f) == 2 implies f == x as int || f == y as int || f == z
            as int by {
            assert(pf.contains(f as u8));
            let i = choose|i: int| 0 <= i < pf.len() && pf[i] == f as u8;
        }
        assert(three_pair_faces(a, x as int, y as int, z as int));
    }
    if exists|x: int, y: int, z: int| three_pair_faces(a, x, y, z) {
        let (x, y, z) = choose|x: int, y: int, z: int| three_pair_faces(a, x, y, z);
        assert(pf.contains(x as u8));
        assert(pf.contains(y as u8));
        assert(pf.contains(z as u8));
        let ix = choose|i: int| 0 <= i < pf.len() && pf[i] == x as u8;
        let iy = choose|i: int| 0 <= i < pf.len() && pf[i] == y as u8;
        let iz = choose|i: int| 0 <= i < pf.len() && pf[i] == z as u8;
        assert(ix != iy && ix != iz && iy != iz);
        assert(pf.len() >= 3);
        if pf.len() > 3 {
            assert(pf.contains(pf[0]));
            assert(pf.contains(pf[1]));
            assert(pf.contains(pf[2]));
            assert(pf.contains(pf[3]));
            assert(pf[0] < pf[1] && pf[1] < pf[2] && pf[2] < pf[3]);
            assert(false);
        }
    }
}

/// The faces with count two, collected ascending: membership, order, bounds.
pub proof fn lemma_pairs_faces_props(a: DiceSet, k: nat)
    requires
        k <= 6,
    ensures
        forall|x: u8| #[trigger] a.pairs_faces_upto(k).contains(x) <==> (1 <= x <= k
            && a.spec_count(x as int) == 2),
        forall|i: int|
            0 <= i < a.pairs_faces_upto(k).len() ==> 1 <= #[trigger] a.pairs_faces_upto(k)[i]
                <= k,
        forall|i: int, j: int|
            0 <= i < j < a.pairs_faces_upto(k).len() ==> a.pairs_faces_upto(k)[i]
                < a.pairs_faces_upto(k)[j],
    decreases k,
{
    if k > 0 {
        lemma_pairs_faces_props(a, (k - 1) as nat);
        let prev = a.pairs_faces_upto((k - 1) as nat);
        let cur = a.pairs_faces_upto(k);
        assert forall|x: u8| #[trigger] cur.contains(x) implies (1 <= x <= k && a.spec_count(
            x as int,
        ) == 2) by {
            let i = choose|i: int| 0 <= i < cur.len() && cur[i] == x;
            if i < prev.len() {
                assert(prev.contains(x));
            }
        }
        assert forall|x: u8| (1 <= x <= k && a.spec_count(x as int) == 2) implies #[trigger] cur
            .contains(x) by {
            if x < k {
                assert(prev.contains(x));
                let i = choose|i: int| 0 <= i < prev.len() && prev[i] == x;
                assert(cur[i] == x);
            } else {
                assert(cur[cur.len() - 1] == x);
            }
        }
    }
}

/// The flat expansion up to face `k`: its length and its bag of faces.
proof fn lemma_values_upto_props(a: DiceSet, k: nat)
    requires
        k <= 6,
    ensures
        a.values_upto(k).len() == a.sum_upto(k),
        forall|x: u8| a.values_upto(k).to_multiset().count(x) == if 1 <= x <= k {
            a.spec_count(x as int)
        } else {
            0nat
        },
    decreases k,
{
    broadcast use vstd::seq_lib::group_to_multiset_ensures;
    broadcast use vstd::multiset::group_multiset_axioms;

    if k == 0 {
        assert forall|x: u8| a.values_upto(0).to_multiset().count(x) == 0 by {
            assert(!a.values_upto(0).contains(x));
        }
    } else {
        lemma_values_upto_props(a, (k - 1) as nat);
        let prev = a.values_upto((k - 1) as nat);
        let rep = Seq::new(a.spec_count(k as int), |i: int| k as u8);
        lemma_repeat_to_multiset(k as u8, a.spec_count(k as int), rep);
        vstd::seq_lib::lemma_multiset_commutative(prev, rep);
        assert(a.values_upto(k).to_multiset() == prev.to_multiset().add(rep.to_multiset()));
    }
}

/// A sequence of `n` copies of one value counts `n` of it and none other.
proof fn lemma_repeat_to_multiset(v: u8, n: nat, s: Seq<u8>)
    requires
        s == Seq::new(n, |i: int| v),
    ensures
        forall|x: u8| #[trigger] s.to_multiset().count(x) == if x == v {
            n
        } else {
            0nat
        },
    decreases n,
{
    broadcast use vstd::seq_lib::group_to_multiset_ensures;
    broadcast use vstd::multiset::group_multiset_axioms;
    broadcast use vstd::multiset::group_multiset_properties;

    if n == 0 {
        assert forall|x: u8| s.to_multiset().count(x) == 0 by {
            assert(!s.contains(x));
        }
    } else {
        lemma_repeat_to_multiset(v, (n - 1) as nat, Seq::new((n - 1) as nat, |i: int| v));
        assert(s =~= Seq::new((n - 1) as nat, |i: int| v).push(v));
    }
}

/// In a well-formed set no single face outnumbers the whole set.
pub proof fn lemma_count_le_total(a: DiceSet, f: int)
    requires
        a.wf(),
    ensures
        a.spec_count(f) <= a.spec_total(),
{
    if 1 <= f <= 6 {
        lemma_count_le_sum(a, f, 6);
    }
}

/// Law: a dice set whose counts were built from a list of faces expands, via
/// `dice_values`, back to the same bag of faces, order aside.
pub proof fn lemma_dice_values_round_trip(values: Seq<u8>, ds: DiceSet)
    requires
        ds.wf(),
        forall|i: int| 0 <= i < values.len() ==> 1 <= #[trigger] values[i] <= 6,
        forall|x: u8| ds.spec_count(x as int) == values.to_multiset().count(x),
    ensures
        ds.spec_values().to_multiset() == values.to_multiset(),
{
    broadcast use vstd::multiset::group_multiset_axioms;

    lemma_values_upto_props(ds, 6);
    assert forall|x: u8| ds.spec_values().to_multiset().count(x) == values.to_multiset().count(
        x,
    ) by {
        assert(ds.spec_count(x as int) == values.to_multiset().count(x));
    }
    assert(ds.spec_values().to_multiset() =~= values.to_multiset());
}

/// Law: removing dice of a face never drives its count below zero, and
/// removing at least the stored count leaves the face absent.
pub proof fn lemma_remove_amount_floors(pre: DiceSet, post: DiceSet, die: u8, amount: u8)
    requires
        post.spec_count(die as int) == if amount <= pre.spec_count(die as int) {
            pre.spec_count(die as int) - amount
        } else {
            0
        },
    ensures
        post.spec_count(die as int) >= 0,
        amount >= pre.spec_count(die as int) ==> post.spec_count(die as int) == 0,
{
}

/// Law: union is commutative on the face→count mapping.
pub proof fn lemma_union_commutative(a: DiceSet, b: DiceSet, ab: DiceSet, ba: DiceSet)
    requires
        forall|f: int| ab.spec_count(f) == a.spec_count(f) + b.spec_count(f),
        forall|f: int| ba.spec_count(f) == b.spec_count(f) + a.spec_count(f),
    ensures
        forall|f: int| ab.spec_count(f) == ba.spec_count(f),
        ab.spec_count_map() == ba.spec_count_map(),
{
    assert(ab.spec_count_map() =~= ba.spec_count_map());
}

/// Law: union is associative on the face→count mapping: combining `a` with
/// `b∪c` gives the same mapping as combining `a∪b` with `c`.
pub proof fn lemma_union_associative(
    a: DiceSet,
    b: DiceSet,
    c: DiceSet,
    ab: DiceSet,
    bc: DiceSet,
    ab_c: DiceSet,
    a_bc: DiceSet,
)
    requires
        forall|f: int| ab.spec_count(f) == a.spec_count(f) + b.spec_count(f),
        forall|f: int| bc.spec_count(f) == b.spec_count(f) + c.spec_count(f),
        forall|f: int| ab_c.spec_count(f) == ab.spec_count(f) + c.spec_count(f),
        forall|f: int| a_bc.spec_count(f) == a.spec_count(f) + bc.spec_count(f),
    ensures
        forall|f: int| ab_c.spec_count(f) == a_bc.spec_count(f),
        ab_c.spec_count_map() == a_bc.spec_count_map(),
{
    assert(ab_c.spec_count_map() =~= a_bc.spec_count_map());
}

} // verus!
