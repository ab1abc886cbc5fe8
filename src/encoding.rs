use vstd::prelude::*;

use crate::player::{Action, Player};

verus! {

/// Number of past actions a trained policy is shown.
pub const N_ACTIONS: usize = 8;

/// Most players a trained policy is shown.
pub const MAX_PLAYERS: usize = 16;

/// Number of the first attack; the attacks on the other players follow it.
pub const ACTION_ATTACK: usize = 7;

/// Number of distinct actions a trained policy tells apart.
pub const MAX_ACTIONS: usize = ACTION_ATTACK + MAX_PLAYERS - 1;

/// Length of a trained policy's input: the past actions, one slot of
/// `MAX_ACTIONS` each, then six values for each player.
pub const INPUT_SIZE: usize = MAX_ACTIONS * N_ACTIONS + 6 * MAX_PLAYERS;

/// Player `a` comes before player `b` in the ranking: it is stronger, or as
/// strong with a lower index.
pub open spec fn ranked_before(players: Seq<Player>, a: int, b: int) -> bool {
    players[a].strength() > players[b].strength() || (players[a].strength()
        == players[b].strength() && a < b)
}

/// Whether player `a` comes before player `b` in the ranking.
fn comes_before(players: &Vec<Player>, a: usize, b: usize) -> (r: bool)
    requires
        a < players@.len(),
        b < players@.len(),
    ensures
        r == ranked_before(players@, a as int, b as int),
{
    let sa = players[a].strength_value();
    let sb = players[b].strength_value();
    sa > sb || (sa == sb && a < b)
}

/// Indices below `len`, each once, none equal to `skip`.
pub open spec fn indices_but(s: Seq<usize>, len: int, skip: int) -> bool {
    &&& forall|i: int| 0 <= i < s.len() ==> #[trigger] s[i] < len && s[i] != skip
    &&& forall|i: int, j: int| 0 <= i < j < s.len() ==> #[trigger] s[i] != #[trigger] s[j]
    &&& forall|k: int| 0 <= k < len && k != skip ==> #[trigger] s.contains(k as usize)
}

proof fn lemma_swap_keeps_indices(s: Seq<usize>, a: int, len: int, skip: int)
    requires
        0 <= a,
        a + 1 < s.len(),
        indices_but(s, len, skip),
    ensures
        indices_but(s.update(a, s[a + 1]).update(a + 1, s[a]), len, skip),
{
    let t = s.update(a, s[a + 1]).update(a + 1, s[a]);
    assert forall|k: int| 0 <= k < len && k != skip implies #[trigger] t.contains(k as usize) by {
        assert(s.contains(k as usize));
        let i = choose|i: int| 0 <= i < s.len() && s[i] == k as usize;
        if i == a {
            assert(t[a + 1] == k as usize);
        } else if i == a + 1 {
            assert(t[a] == k as usize);
        } else {
            assert(t[i] == k as usize);
        }
    }
    assert forall|i: int, j: int| 0 <= i < j < t.len() implies #[trigger] t[i] != #[trigger] t[j] by {
        let si = if i == a {
            a + 1
        } else if i == a + 1 {
            a
        } else {
            i
        };
        let sj = if j == a {
            a + 1
        } else if j == a + 1 {
            a
        } else {
            j
        };
        assert(t[i] == s[si] && t[j] == s[sj]);
        if si < sj {
            assert(s[si] != s[sj]);
        } else {
            assert(s[sj] != s[si]);
        }
    }
}

/// The other players in ranking order: stronger first, ties by index.
fn ranked_others(players: &Vec<Player>, player_index: usize) -> (r: Vec<usize>)
    requires
        player_index < players@.len(),
    ensures
        indices_but(r@, players@.len() as int, player_index as int),
        r@.len() == players@.len() - 1,
        forall|a: int, b: int|
            0 <= a < b < r@.len() ==> ranked_before(players@, r@[a] as int, r@[b] as int),
{
    let len = players.len();
    let mut order: Vec<usize> = Vec::with_capacity(len);
    let mut k: usize = 0;
    while k < len
        invariant
            k <= len == players@.len(),
            player_index < len,
            order@.len() == if k <= player_index {
                k as int
            } else {
                k - 1
            },
            forall|i: int| 0 <= i < order@.len() ==> #[trigger] order@[i] < k && order@[i] != player_index,
            forall|i: int, j: int| 0 <= i < j < order@.len() ==> #[trigger] order@[i] < #[trigger] order@[j],
            forall|e: int| 0 <= e < k && e != player_index ==> #[trigger] order@.contains(e as usize),
        decreases len - k,
    {
        if k != player_index {
            let ghost before = order@;
            order.push(k);
            proof {
                assert forall|e: int| 0 <= e < k + 1 && e != player_index implies #[trigger] order@.contains(
                    e as usize,
                ) by {
                    if e < k {
                        assert(before.contains(e as usize));
                        let i = choose|i: int| 0 <= i < before.len() && before[i] == e as usize;
                        assert(order@[i] == e as usize);
                    } else {
                        assert(order@[before.len() as int] == e as usize);
                    }
                }
            }
        }
        k += 1;
    }
    assert(indices_but(order@, len as int, player_index as int));

    let m = order.len();
    let mut i: usize = 1;
    while i < m
        invariant
            1 <= i <= m || m == 0,
            m == order@.len() == len - 1,
            len == players@.len(),
            indices_but(order@, len as int, player_index as int),
            forall|a: int, b: int|
                0 <= a < b < i && b < m ==> ranked_before(
                    players@,
                    #[trigger] order@[a] as int,
                    #[trigger] order@[b] as int,
                ),
        decreases m - i,
    {
        let mut j: usize = i;
        while j > 0 && comes_before(players, order[j], order[j - 1])
            invariant
                j <= i < m == order@.len(),
                len == players@.len(),
                indices_but(order@, len as int, player_index as int),
                forall|a: int, b: int|
                    0 <= a < b <= i && a != j && b != j ==> ranked_before(
                        players@,
                        #[trigger] order@[a] as int,
                        #[trigger] order@[b] as int,
                    ),
                forall|b: int|
                    j < b <= i ==> ranked_before(players@, order@[j as int] as int, #[trigger] order@[b] as int),
            decreases j,
        {
            let ghost s = order@;
            let lower = order[j - 1];
            let upper = order[j];
            order.set(j - 1, upper);
            order.set(j, lower);
            proof {
                lemma_swap_keeps_indices(s, j - 1, len as int, player_index as int);
                assert(order@ == s.update(j - 1, s[j as int]).update(j as int, s[j - 1]));
            }
            j -= 1;
        }
        proof {
            if j > 0 {
                assert(order@[j - 1] != order@[j as int]);
                assert(ranked_before(players@, order@[j - 1] as int, order@[j as int] as int));
            }
        }
        i += 1;
    }
    order
}

/// The order in which a trained policy is shown the players: the deciding
/// player first, then the others from strongest to weakest (ties by index);
/// and its inverse, the place at which each player is shown.
pub fn compute_permutation(players: &Vec<Player>, player_index: usize) -> (r: (Vec<usize>, Vec<usize>))
    requires
        player_index < players@.len(),
    ensures
        r.0@.len() == players@.len(),
        r.1@.len() == players@.len(),
        r.0@[0] == player_index,
        forall|n: int|
            0 <= n < players@.len() ==> #[trigger] r.0@[n] < players@.len() && r.1@[r.0@[n] as int]
                == n,
        forall|k: int|
            0 <= k < players@.len() ==> #[trigger] r.1@[k] < players@.len() && r.0@[r.1@[k] as int]
                == k,
        forall|a: int, b: int|
            1 <= a < b < players@.len() ==> ranked_before(
                players@,
                #[trigger] r.0@[a] as int,
                #[trigger] r.0@[b] as int,
            ),
{
    let len = players.len();
    let order = ranked_others(players, player_index);
    let mut permutation: Vec<usize> = Vec::with_capacity(len);
    permutation.push(player_index);
    let mut n: usize = 0;
    while n < order.len()
        invariant
            n <= order@.len(),
            permutation@ =~= seq![player_index].add(order@.take(n as int)),
        decreases order.len() - n,
    {
        permutation.push(order[n]);
        n += 1;
    }
    assert(order@.take(order@.len() as int) =~= order@);
    let ghost perm = permutation@;
    assert forall|i: int, j: int| 0 <= i < j < len implies #[trigger] perm[i] != #[trigger] perm[j] by {
        if i > 0 {
            assert(perm[i] == order@[i - 1] && perm[j] == order@[j - 1]);
        } else {
            assert(perm[j] == order@[j - 1]);
        }
    }
    assert forall|k: int| 0 <= k < len implies #[trigger] perm.contains(k as usize) by {
        if k == player_index {
            assert(perm[0] == k as usize);
        } else {
            assert(order@.contains(k as usize));
            let i = choose|i: int| 0 <= i < order@.len() && order@[i] == k as usize;
            assert(perm[i + 1] == k as usize);
        }
    }

    let mut inverse: Vec<usize> = Vec::with_capacity(len);
    n = 0;
    while n < len
        invariant
            n <= len,
            inverse@.len() == n,
            forall|k: int| 0 <= k < n ==> #[trigger] inverse@[k] == 0,
        decreases len - n,
    {
        inverse.push(0);
        n += 1;
    }
    n = 0;
    while n < len
        invariant
            n <= len == perm.len() == inverse@.len(),
            permutation@ == perm,
            forall|i: int| 0 <= i < len ==> #[trigger] perm[i] < len,
            forall|i: int, j: int| 0 <= i < j < len ==> #[trigger] perm[i] != #[trigger] perm[j],
            forall|i: int| 0 <= i < n ==> #[trigger] inverse@[perm[i] as int] == i,
            forall|k: int| 0 <= k < len ==> #[trigger] inverse@[k] < len,
        decreases len - n,
    {
        let ghost prev = inverse@;
        inverse.set(permutation[n], n);
        proof {
            assert forall|i: int| 0 <= i < n + 1 implies #[trigger] inverse@[perm[i] as int] == i by {
                if i < n {
                    assert(perm[i] != perm[n as int]);
                    assert(inverse@[perm[i] as int] == prev[perm[i] as int]);
                }
            }
        }
        n += 1;
    }
    assert forall|k: int| 0 <= k < len implies #[trigger] inverse@[k] < len && perm[inverse@[k] as int]
        == k by {
        assert(perm.contains(k as usize));
        let i = choose|i: int| 0 <= i < len && perm[i] == k as usize;
        assert(inverse@[perm[i] as int] == i);
    }
    assert forall|a: int, b: int| 1 <= a < b < len implies ranked_before(
        players@,
        #[trigger] perm[a] as int,
        #[trigger] perm[b] as int,
    ) by {
        assert(perm[a] == order@[a - 1] && perm[b] == order@[b - 1]);
    }
    (permutation, inverse)
}

/// The number a trained policy gives an action: the fixed actions first,
/// then one attack per place at which the attacked player is shown.
pub open spec fn action_index(action: Action, inverse: Seq<usize>) -> int {
    match action {
        Action::Idle => 0,
        Action::Wall => 1,
        Action::Recruit => 2,
        Action::Barracks => 3,
        Action::Obelisk => 4,
        Action::Defend => 5,
        Action::Skip => 6,
        Action::Attack(n) => ACTION_ATTACK + inverse[n as int],
    }
}

/// The number of `action`, given where each player is shown (`inverse`).
pub fn get_action_index(action: Action, inverse: &Vec<usize>) -> (r: usize)
    requires
        action matches Action::Attack(n) ==> n < inverse@.len() && inverse@[n as int] < MAX_PLAYERS,
    ensures
        r == action_index(action, inverse@),
{
    match action {
        Action::Idle => 0,
        Action::Wall => 1,
        Action::Recruit => 2,
        Action::Barracks => 3,
        Action::Obelisk => 4,
        Action::Defend => 5,
        Action::Skip => 6,
        Action::Attack(n) => ACTION_ATTACK + inverse[n],
    }
}

} // verus!
