//! The match-level score ledger: each player's running total and the
//! threshold they are playing to.
use vstd::prelude::*;

verus! {

/// Cumulative scores per player, with the winning threshold.
pub struct CumulativeScore {
    /// each player name and their score
    scores: Vec<(String, u32)>,
    /// what the players are playing to
    limit: u32,
}

impl CumulativeScore {
    /// The players' names, in the order they were given.
    pub closed spec fn spec_names(self) -> Seq<Seq<char>> {
        self.scores@.map_values(|e: (String, u32)| e.0@)
    }

    /// The players' scores, in the same order.
    pub closed spec fn spec_points(self) -> Seq<u32> {
        self.scores@.map_values(|e: (String, u32)| e.1)
    }

    /// The score a player must reach to win.
    pub closed spec fn spec_limit(self) -> u32 {
        self.limit
    }

    /// A fresh ledger: every named player starts at zero. The ledger is
    /// keyed by name, so a name given twice gets one entry.
    #[verifier::loop_isolation(false)]
    #[verifier::rlimit(60)]
    pub fn new(players: Vec<String>, limit: u32) -> (r: Self)
        ensures
            r.spec_limit() == limit,
            forall|i: int, j: int|
                0 <= i < j < r.spec_names().len() ==> r.spec_names()[i] != r.spec_names()[j],
            forall|i: int|
                0 <= i < players@.len() ==> r.spec_names().contains(#[trigger] players@[i]@),
            r.spec_names().len() <= players@.len(),
            r.spec_points().len() == r.spec_names().len(),
            forall|i: int| 0 <= i < r.spec_points().len() ==> r.spec_points()[i] == 0,
    {
        let mut scores: Vec<(String, u32)> = Vec::new();
        let mut i: usize = 0;
        while i < players.len()
            invariant
                i <= players@.len(),
                forall|a: int, b: int|
                    0 <= a < b < scores@.len() ==> (#[trigger] scores@[a]).0@ != (
                    #[trigger] scores@[b]).0@,
                forall|j: int|
                    #![trigger players@[j]]
                    0 <= j < i ==> exists|k: int|
                        0 <= k < scores@.len() && (#[trigger] scores@[k]).0@ == players@[j]@,
                scores@.len() <= i,
                forall|k: int| 0 <= k < scores@.len() ==> (#[trigger] scores@[k]).1 == 0,
            decreases players@.len() - i,
        {
            let ghost pre = scores@;
            let mut found = false;
            let mut k: usize = 0;
            while k < scores.len()
                invariant
                    k <= scores@.len(),
                    found <==> exists|m: int|
                        0 <= m < k && (#[trigger] scores@[m]).0@ == players@[i as int]@,
                decreases scores@.len() - k,
            {
                if scores[k].0 == players[i] {
                    found = true;
                }
                k = k + 1;
            }
            if !found {
                let name = players[i].clone();
                scores.push((name, 0));
            }
            proof {
                assert forall|j: int|
                    #![trigger players@[j]]
                    0 <= j <= i implies exists|k2: int|
                    0 <= k2 < scores@.len() && (#[trigger] scores@[k2]).0@ == players@[j]@ by {
                    if j < i {
                        let k0 = choose|k0: int|
                            0 <= k0 < pre.len() && (#[trigger] pre[k0]).0@ == players@[j]@;
                        assert(scores@[k0].0@ == players@[j]@);
                    } else if found {
                        let m = choose|m: int|
                            0 <= m < pre.len() && (#[trigger] pre[m]).0@ == players@[i as int]@;
                        assert(scores@[m].0@ == players@[j]@);
                    } else {
                        assert(scores@[scores@.len() - 1].0@ == players@[j]@);
                    }
                }
            }
            i = i + 1;
        }
        let r = Self { scores, limit };
        proof {
            assert forall|j: int|
                0 <= j < players@.len() implies r.spec_names().contains(
                #[trigger] players@[j]@,
            ) by {
                let k = choose|k: int|
                    0 <= k < scores@.len() && (#[trigger] scores@[k]).0@ == players@[j]@;
                assert(r.spec_names()[k] == players@[j]@);
            }
            assert forall|a: int, b: int|
                0 <= a < b < r.spec_names().len() implies r.spec_names()[a]
                != r.spec_names()[b] by {
                assert(r.spec_names()[a] == scores@[a].0@);
                assert(r.spec_names()[b] == scores@[b].0@);
            }
        }
        r
    }

    /// The first player whose score has reached the threshold, if any.
    pub fn has_winner(&self) -> (r: Option<&String>)
        ensures
            r is Some <==> exists|i: int|
                0 <= i < self.spec_points().len() && #[trigger] self.spec_points()[i]
                    >= self.spec_limit(),
            r matches Some(name) ==> exists|i: int|
                0 <= i < self.spec_points().len() && #[trigger] self.spec_points()[i]
                    >= self.spec_limit() && name@ == self.spec_names()[i],
    {
        let mut i: usize = 0;
        while i < self.scores.len()
            invariant
                i <= self.scores@.len(),
                forall|j: int|
                    0 <= j < i ==> #[trigger] self.spec_points()[j] < self.spec_limit(),
            decreases self.scores@.len() - i,
        {
            if self.scores[i].1 >= self.limit {
                proof {
                    assert(self.spec_points()[i as int] == self.scores@[i as int].1);
                    assert(self.spec_points()[i as int] >= self.spec_limit());
                    assert(self.spec_names()[i as int] == self.scores@[i as int].0@);
                }
                return Some(&self.scores[i].0);
            }
            proof {
                assert(self.spec_points()[i as int] == self.scores@[i as int].1);
            }
            i = i + 1;
        }
        None
    }

    /// Adds the points a turn produced to the named player's total.
    ///
    /// The caller names a player the ledger knows; the first entry of that
    /// name is credited.
    #[verifier::loop_isolation(false)]
    pub fn update_user_score(&mut self, user: &str, points: u32)
        requires
            exists|i: int|
                0 <= i < old(self).spec_names().len() && old(self).spec_names()[i] == user@,
            forall|i: int|
                0 <= i < old(self).spec_names().len() && #[trigger] old(self).spec_names()[i]
                    == user@ ==> old(self).spec_points()[i] + points <= u32::MAX,
        ensures
            final(self).spec_limit() == old(self).spec_limit(),
            final(self).spec_names() == old(self).spec_names(),
            exists|i: int|
                {
                    &&& 0 <= i < old(self).spec_names().len()
                    &&& old(self).spec_names()[i] == user@
                    &&& (forall|j: int|
                        0 <= j < i ==> #[trigger] old(self).spec_names()[j] != user@)
                    &&& final(self).spec_points() == old(self).spec_points().update(
                        i,
                        (old(self).spec_points()[i] + points) as u32,
                    )
                },
    {
        let mut i: usize = 0;
        let user_string = user.to_owned();
        while i < self.scores.len()
            invariant
                *self == *old(self),
                user_string@ == user@,
                i <= self.scores@.len(),
                forall|j: int| 0 <= j < i ==> #[trigger] self.spec_names()[j] != user@,
            decreases self.scores@.len() - i,
        {
            let matches_name = self.scores[i].0 == user_string;
            proof {
                assert(self.spec_names()[i as int] == self.scores@[i as int].0@);
                assert(self.spec_points()[i as int] == self.scores@[i as int].1);
            }
            if matches_name {
                proof {
                    assert(old(self).spec_names()[i as int] == user@);
                    assert(old(self).spec_points()[i as int] + points <= u32::MAX);
                }
                let name = self.scores[i].0.clone();
                let cur = self.scores[i].1;
                self.scores[i] = (name, cur + points);
                proof {
                    assert(final(self).spec_names() =~= old(self).spec_names());
                    assert(final(self).spec_points() =~= old(self).spec_points().update(
                        i as int,
                        (old(self).spec_points()[i as int] + points) as u32,
                    ));
                }
                return ;
            }
            i = i + 1;
        }
        proof {
            assert(false);
        }
    }
}

} // verus!
