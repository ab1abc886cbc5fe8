use vstd::prelude::*;

use crate::player::Player;

verus! {

/// The soldiers of each attacker, in order.
pub open spec fn soldier_counts(rows: Seq<Player>) -> Seq<u32> {
    rows.map_values(|p: Player| p.soldiers)
}

/// Index of the first largest value of a non-empty sequence.
pub open spec fn first_max_index(s: Seq<u32>) -> int
    decreases s.len(),
{
    if s.len() <= 1 {
        0
    } else {
        let k = first_max_index(s.drop_last());
        if s.last() > s[k] {
            s.len() - 1
        } else {
            k
        }
    }
}

/// Largest value at any index other than `l`; 0 when there is none.
pub open spec fn max_except(s: Seq<u32>, l: int) -> u32
    decreases s.len(),
{
    if s.len() == 0 {
        0
    } else {
        let r = max_except(s.drop_last(), l);
        if s.len() - 1 == l || s.last() <= r {
            r
        } else {
            s.last()
        }
    }
}

/// The attacker that leads the assault: the first of the strongest.
pub open spec fn lead_index(rows: Seq<Player>) -> int {
    first_max_index(soldier_counts(rows))
}

/// What is left of the leader after the rivalry fight: its soldiers less
/// those of the strongest other attacker.
pub open spec fn lead_strength(rows: Seq<Player>) -> u32 {
    let s = soldier_counts(rows);
    let l = first_max_index(s);
    (s[l] - max_except(s, l)) as u32
}

/// Walls count double while the defense is active.
pub open spec fn wall_factor(d: Player) -> u32 {
    if d.defense > 0 {
        2
    } else {
        1
    }
}

/// `n` soldiers assault defender `d`: first the walls, then the garrison if
/// it is free to fight. Gives the defender afterwards and the soldiers the
/// assault has left; a siege succeeds when any are left.
pub open spec fn assault(d: Player, n: u32) -> (Player, u32) {
    let k = wall_factor(d);
    let w = d.walls * k;
    if n == 0 {
        (d, 0)
    } else if n <= w {
        (Player { walls: ((w - n) / k as int) as u8, ..d }, 0)
    } else {
        let past_walls = n - w;
        let destroyed = if d.soldiers > 0 && !d.busy {
            if d.soldiers <= past_walls {
                d.soldiers as int
            } else {
                past_walls
            }
        } else {
            0
        };
        let left = past_walls - destroyed;
        let garrison = (d.soldiers - destroyed) as u32;
        if left > 0 {
            (
                Player {
                    walls: 0,
                    soldiers: garrison,
                    sieged: true,
                    defeats: (d.defeats + 1) as usize,
                    obelisks: (d.obelisks - 1) as u8,
                    ..d
                },
                left as u32,
            )
        } else {
            (Player { walls: 0, soldiers: garrison, ..d }, 0)
        }
    }
}

/// The leading attacker after the assault: with soldiers left it has taken
/// an obelisk and won a victory.
pub open spec fn after_assault(a: Player, left: u32) -> Player {
    if left > 0 {
        Player {
            soldiers: left,
            obelisks: (a.obelisks + 1) as u8,
            victories: (a.victories + 1) as usize,
            ..a
        }
    } else {
        Player { soldiers: 0, ..a }
    }
}

/// The defender after the attackers `rows` have struck it.
pub open spec fn fight_defender(d: Player, rows: Seq<Player>) -> Player {
    assault(d, lead_strength(rows)).0
}

/// Attacker `j` of `rows` after striking `d`: all but the leader have lost
/// their soldiers in the rivalry fight.
pub open spec fn fight_attacker(d: Player, rows: Seq<Player>, j: int) -> Player {
    if j == lead_index(rows) {
        after_assault(rows[j], assault(d, lead_strength(rows)).1)
    } else {
        Player { soldiers: 0, ..rows[j] }
    }
}

/// The participants of a combat: attackers with soldiers, and a defender
/// and attackers still in the game, all within the bounds.
pub open spec fn fight_ready(d: Player, rows: Seq<Player>) -> bool {
    &&& rows.len() >= 1
    &&& d.wf()
    &&& d.is_playing()
    &&& forall|j: int|
        0 <= j < rows.len() ==> {
            &&& (#[trigger] rows[j]).soldiers > 0
            &&& rows[j].wf()
            &&& rows[j].is_playing()
        }
}

/// What a combat asks of its participants: they are ready to fight, and the
/// victory and defeat counters have room for one more.
pub open spec fn can_fight(d: Player, rows: Seq<Player>) -> bool {
    &&& fight_ready(d, rows)
    &&& d.defeats < usize::MAX
    &&& forall|j: int| 0 <= j < rows.len() ==> (#[trigger] rows[j]).victories < usize::MAX
}

proof fn lemma_first_max(s: Seq<u32>)
    requires
        s.len() >= 1,
    ensures
        0 <= first_max_index(s) < s.len(),
        forall|j: int| 0 <= j < s.len() ==> #[trigger] s[j] <= s[first_max_index(s)],
    decreases s.len(),
{
    if s.len() > 1 {
        let d = s.drop_last();
        lemma_first_max(d);
        let k = first_max_index(d);
        assert(s[k] == d[k]);
        assert forall|j: int| 0 <= j < s.len() implies #[trigger] s[j] <= s[first_max_index(s)] by {
            if j < s.len() - 1 {
                assert(s[j] == d[j]);
            }
        }
    }
}

/// The leader is one of the attackers.
pub proof fn lemma_lead_in_range(rows: Seq<Player>)
    requires
        rows.len() >= 1,
    ensures
        0 <= lead_index(rows) < rows.len(),
{
    lemma_first_max(soldier_counts(rows));
}

proof fn lemma_max_except_bound(s: Seq<u32>, l: int, m: u32)
    requires
        forall|j: int| 0 <= j < s.len() ==> #[trigger] s[j] <= m,
    ensures
        max_except(s, l) <= m,
    decreases s.len(),
{
    if s.len() > 0 {
        lemma_max_except_bound(s.drop_last(), l, m);
    }
}

/// A combat never drives a count below zero nor an obelisk count above the
/// maximum: the defender loses at most one obelisk and never gains walls or
/// soldiers; each attacker keeps at most its soldiers and gains at most one
/// obelisk.
pub proof fn lemma_combat_bounds(d: Player, rows: Seq<Player>)
    requires
        fight_ready(d, rows),
    ensures
        ({
            let r = fight_defender(d, rows);
            &&& r.wf()
            &&& 0 <= r.walls <= d.walls
            &&& 0 <= r.soldiers <= d.soldiers
            &&& r.obelisks == d.obelisks || r.obelisks == d.obelisks - 1
            &&& d.defeats < usize::MAX ==> (r.defeats == d.defeats || r.defeats == d.defeats + 1)
            &&& r.defense == d.defense && r.barracks == d.barracks && r.busy == d.busy
            &&& r.victories == d.victories
        }),
        forall|j: int|
            0 <= j < rows.len() ==> {
                let a = #[trigger] fight_attacker(d, rows, j);
                &&& a.wf()
                &&& 0 <= a.soldiers <= rows[j].soldiers
                &&& a.obelisks == rows[j].obelisks || a.obelisks == rows[j].obelisks + 1
                &&& rows[j].victories < usize::MAX ==> (a.victories == rows[j].victories
                    || a.victories == rows[j].victories + 1)
                &&& a.walls == rows[j].walls && a.barracks == rows[j].barracks
                &&& a.defense == rows[j].defense && a.busy == rows[j].busy
                &&& a.sieged == rows[j].sieged && a.defeats == rows[j].defeats
            },
{
    let s = soldier_counts(rows);
    lemma_first_max(s);
    let l = first_max_index(s);
    lemma_max_except_bound(s, l, s[l]);
    let n = lead_strength(rows);
    assert(n <= rows[l].soldiers);
    let k = wall_factor(d);
    let w = d.walls * k;
    if 0 < n <= w {
        assert((w - n) / k as int <= d.walls) by (nonlinear_arith)
            requires
                0 <= w - n < w,
                w == d.walls * k,
                k == 1 || k == 2,
        ;
    }
}

impl Player {
    /// This player is struck by `attackers`, all in the same round.
    ///
    /// With several attackers, the strongest leads and loses as many soldiers
    /// as the second strongest has; every other attacker loses all of its
    /// soldiers. The leader's remaining soldiers then meet the walls (doubled
    /// while the defense is active), then the garrison unless this player is
    /// busy; any soldiers still left take one obelisk.
    pub fn attacked(&mut self, attackers: &mut Vec<Player>)
        requires
            can_fight(*old(self), old(attackers)@),
        ensures
            *final(self) == fight_defender(*old(self), old(attackers)@),
            final(attackers)@.len() == old(attackers)@.len(),
            forall|j: int|
                0 <= j < old(attackers)@.len() ==> #[trigger] final(attackers)@[j]
                    == fight_attacker(*old(self), old(attackers)@, j),
    {
        let ghost rows = attackers@;
        let ghost counts = soldier_counts(rows);
        let len = attackers.len();

        let mut lead: usize = 0;
        let mut i: usize = 1;
        while i < len
            invariant
                1 <= i <= len,
                len == rows.len(),
                attackers@ == rows,
                counts == soldier_counts(rows),
                lead == first_max_index(counts.take(i as int)),
            decreases len - i,
        {
            proof {
                lemma_first_max(counts.take(i as int));
                assert(counts.take(i as int + 1).drop_last() =~= counts.take(i as int));
            }
            if attackers[i].soldiers > attackers[lead].soldiers {
                lead = i;
            }
            i += 1;
        }
        assert(counts.take(len as int) =~= counts);
        proof {
            lemma_first_max(counts);
        }

        let mut second: u32 = 0;
        i = 0;
        while i < len
            invariant
                i <= len,
                len == rows.len(),
                attackers@ == rows,
                counts == soldier_counts(rows),
                second == max_except(counts.take(i as int), lead as int),
            decreases len - i,
        {
            assert(counts.take(i as int + 1).drop_last() =~= counts.take(i as int));
            if i != lead && attackers[i].soldiers > second {
                second = attackers[i].soldiers;
            }
            i += 1;
        }
        assert(counts.take(len as int) =~= counts);
        proof {
            lemma_max_except_bound(counts, lead as int, counts[lead as int]);
        }

        i = 0;
        while i < len
            invariant
                i <= len,
                lead < len,
                attackers@.len() == rows.len() == len,
                forall|j: int|
                    0 <= j < len ==> #[trigger] attackers@[j] == if j < i && j != lead {
                        Player { soldiers: 0, ..rows[j] }
                    } else {
                        rows[j]
                    },
            decreases len - i,
        {
            if i != lead {
                attackers[i].soldiers = 0;
            }
            i += 1;
        }

        let mut leader = attackers[lead];
        assert(leader == rows[lead as int]);
        leader.soldiers = leader.soldiers - second;
        if leader.soldiers > 0 {
            let factor: u32 = if self.defense > 0 {
                2
            } else {
                1
            };
            let walls: u32 = self.walls as u32 * factor;
            if leader.soldiers <= walls {
                self.walls = ((walls - leader.soldiers) / factor) as u8;
                leader.soldiers = 0;
            } else {
                leader.soldiers = leader.soldiers - walls;
                self.walls = 0;
                if self.soldiers > 0 && !self.busy {
                    let destroyed = if self.soldiers <= leader.soldiers {
                        self.soldiers
                    } else {
                        leader.soldiers
                    };
                    self.soldiers = self.soldiers - destroyed;
                    leader.soldiers = leader.soldiers - destroyed;
                }
                if leader.soldiers > 0 {
                    self.sieged = true;
                    self.defeats = self.defeats + 1;
                    leader.victories = leader.victories + 1;
                    self.obelisks = self.obelisks - 1;
                    leader.obelisks = leader.obelisks + 1;
                }
            }
        }
        attackers[lead] = leader;
    }
}

} // verus!
