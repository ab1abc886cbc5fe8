use vstd::prelude::*;

use rand::rngs::ThreadRng;

use crate::engine::{admissible, advance, lemma_advance_bounds, room_for, round_ready, update};
use crate::player::{attack_options, opponents, others_below, others_of, Action, Player};

verus! {

/// A decision policy: how a player chooses its action in a simulated game.
///
/// Whatever it prefers, a policy answers with an action the player is
/// offered (see `legal`). Games hold at most `usize::MAX / 2`
/// players, so that a list of players can always grow by one.
pub trait Policy {
    /// `a` is an answer the policy may give for player `index` at round
    /// `round`, when the player's past actions are `history`. A policy that
    /// does not describe its answers may give any action it is offered.
    open spec fn may_choose(
        &self,
        players: Seq<Player>,
        index: int,
        round: int,
        history: Seq<Action>,
        a: Action,
    ) -> bool {
        true
    }

    /// The action of player `index` at round `round`, knowing the actions it
    /// took so far in this game (`history`, newest last).
    fn choose_action(
        &self,
        players: &Vec<Player>,
        index: usize,
        round: usize,
        history: &Vec<Action>,
        rng: &mut ThreadRng,
    ) -> (r: Action)
        requires
            index < players@.len() <= usize::MAX / 2,
            forall|i: int| 0 <= i < players@.len() ==> (#[trigger] players@[i]).wf(),
        ensures
            legal(players@, index as int, r),
            self.may_choose(players@, index as int, round as int, history@, r),
    ;
}

/// The actions player `k` took in the rounds of `log`, oldest first.
pub open spec fn column(log: Seq<Seq<Action>>, k: int) -> Seq<Action> {
    Seq::new(log.len(), |r: int| log[r][k])
}

/// Every round of `log` after the first is what `policy` may answer for each
/// player: asked with the state then, the round number moved by `offset`, and
/// the player's own earlier actions.
pub open spec fn played_by<P: Policy>(
    policy: P,
    players: Seq<Player>,
    log: Seq<Seq<Action>>,
    offset: int,
) -> bool {
    forall|r: int, k: int|
        1 <= r < log.len() && 0 <= k < players.len() ==> policy.may_choose(
            play(players, log.take(r)),
            k,
            r + offset,
            column(log.take(r), k),
            #[trigger] log[r][k],
        )
}

/// Some player has won.
pub open spec fn has_winner(players: Seq<Player>) -> bool {
    exists|i: int| 0 <= i < players.len() && (#[trigger] players[i]).is_won()
}

/// The players after the rounds of `log`, played in order.
pub open spec fn play(players: Seq<Player>, log: Seq<Seq<Action>>) -> Seq<Player>
    decreases log.len(),
{
    if log.len() == 0 {
        players
    } else {
        advance(play(players, log.drop_last()), log.last())
    }
}

/// Every player has room for `rounds` more rounds.
pub open spec fn all_room_for(players: Seq<Player>, rounds: int) -> bool {
    forall|k: int| 0 <= k < players.len() ==> room_for(#[trigger] players[k], rounds)
}

/// `log` is a game a rollout from `players` may play: it opens with `first`;
/// each later round gives every player an admissible action and starts with
/// no winner; it stops before `max_rounds` rounds only when someone has won.
pub open spec fn is_rollout(
    players: Seq<Player>,
    first: Seq<Action>,
    log: Seq<Seq<Action>>,
    max_rounds: int,
) -> bool {
    &&& 1 <= log.len()
    &&& log.len() <= max_rounds || log.len() == 1
    &&& log[0] == first
    &&& forall|r: int|
        1 <= r < log.len() ==> {
            let state = #[trigger] play(players, log.take(r));
            &&& !has_winner(state)
            &&& round_ready(state, log[r])
        }
    &&& log.len() < max_rounds ==> has_winner(play(players, log))
}

/// Whether some player has won.
pub fn any_won(players: &Vec<Player>) -> (r: bool)
    ensures
        r == has_winner(players@),
{
    let mut i: usize = 0;
    while i < players.len()
        invariant
            i <= players.len(),
            forall|j: int| 0 <= j < i ==> !(#[trigger] players@[j]).is_won(),
        decreases players.len() - i,
    {
        if players[i].won() {
            return true;
        }
        i += 1;
    }
    false
}

proof fn lemma_play_push(players: Seq<Player>, log: Seq<Seq<Action>>, round: Seq<Action>)
    ensures
        play(players, log.push(round)) == advance(play(players, log), round),
{
    assert(log.push(round).drop_last() =~= log);
}

/// Plays a game from `players`: the first round with `actions`, then up to
/// `max_rounds` rounds in all, each player asking `policy` for its action,
/// until some player has won. Gives the players at the end.
pub fn simulate<P: Policy>(
    players: Vec<Player>,
    actions: Vec<Action>,
    policy: &P,
    rng: &mut ThreadRng,
    max_rounds: usize,
    round_offset: usize,
) -> (r: Vec<Player>)
    requires
        round_ready(players@, actions@),
        players@.len() <= usize::MAX / 2,
        all_room_for(players@, if max_rounds >= 1 { max_rounds as int } else { 1 }),
        round_offset + max_rounds <= usize::MAX,
    ensures
        exists|log: Seq<Seq<Action>>|
            {
                &&& is_rollout(players@, actions@, log, max_rounds as int)
                &&& played_by(*policy, players@, log, round_offset as int)
                &&& r@ == play(players@, log)
            },
{
    let ghost start = players@;
    let ghost first = actions@;
    let ghost budget: int = if max_rounds >= 1 {
        max_rounds as int
    } else {
        1
    };
    let len = players.len();
    proof {
        lemma_advance_bounds(start, actions@, budget);
        lemma_play_push(start, seq![], actions@);
        assert(seq![actions@].drop_last() =~= Seq::<Seq<Action>>::empty());
    }
    let mut players = update(players, &actions);
    let mut actions = actions;
    let ghost mut log: Seq<Seq<Action>> = seq![actions@];

    let mut history: Vec<Vec<Action>> = Vec::with_capacity(len);
    let mut n: usize = 0;
    while n < len
        invariant
            n <= len == actions@.len(),
            log == seq![actions@],
            history@.len() == n,
            forall|k: int| 0 <= k < n ==> (#[trigger] history@[k])@ == column(log, k),
        decreases len - n,
    {
        let mut past: Vec<Action> = Vec::with_capacity(max_rounds);
        past.push(actions[n]);
        history.push(past);
        proof {
            assert(history@[n as int]@ =~= column(log, n as int));
        }
        n += 1;
    }

    let mut round: usize = 1;
    while round < max_rounds
        invariant
            1 <= round,
            round <= max_rounds || round == 1,
            round_offset + max_rounds <= usize::MAX,
            budget == if max_rounds >= 1 {
                max_rounds as int
            } else {
                1
            },
            players@.len() == len == actions@.len() == history@.len() == start.len(),
            len <= usize::MAX / 2,
            log.len() == round,
            log[0] == first,
            players@ == play(start, log),
            all_room_for(players@, budget - round),
            forall|k: int| 0 <= k < len ==> (#[trigger] history@[k])@ == column(log, k),
            forall|r: int|
                1 <= r < log.len() ==> {
                    let state = #[trigger] play(start, log.take(r));
                    &&& !has_winner(state)
                    &&& round_ready(state, log[r])
                },
            played_by(*policy, start, log, round_offset as int),
        ensures
            log.len() == round,
            log.len() <= max_rounds || log.len() == 1,
            log[0] == first,
            players@ == play(start, log),
            forall|r: int|
                1 <= r < log.len() ==> {
                    let state = #[trigger] play(start, log.take(r));
                    &&& !has_winner(state)
                    &&& round_ready(state, log[r])
                },
            played_by(*policy, start, log, round_offset as int),
            log.len() < max_rounds ==> has_winner(play(start, log)),
        decreases max_rounds - round,
    {
        if any_won(&players) {
            break;
        }
        n = 0;
        while n < len
            invariant
                n <= len == players@.len() == actions@.len() == history@.len(),
                len <= usize::MAX / 2,
                round < max_rounds,
                round_offset + max_rounds <= usize::MAX,
                all_room_for(players@, budget - round),
                forall|k: int|
                    0 <= k < n ==> admissible(players@, k, #[trigger] actions@[k]),
                forall|k: int|
                    0 <= k < n ==> policy.may_choose(
                        players@,
                        k,
                        round + round_offset,
                        column(log, k),
                        #[trigger] actions@[k],
                    ),
                forall|k: int|
                    0 <= k < len ==> (#[trigger] history@[k])@ == if k < n {
                        column(log, k).push(actions@[k])
                    } else {
                        column(log, k)
                    },
            decreases len - n,
        {
            proof {
                assert(all_room_for(players@, budget - round));
                assert forall|i: int| 0 <= i < players@.len() implies (#[trigger] players@[i]).wf() by {
                    assert(room_for(players@[i], budget - round));
                }
            }
            let chosen = policy.choose_action(&players, n, round + round_offset, &history[n], rng);
            proof {
                lemma_legal(players@, n as int, chosen);
            }
            actions.set(n, chosen);
            history[n].push(chosen);
            n += 1;
        }
        let ghost before = players@;
        proof {
            assert(round_ready(players@, actions@));
            lemma_advance_bounds(players@, actions@, budget - round);
            lemma_play_push(start, log, actions@);
            let next = log.push(actions@);
            assert forall|r: int| 1 <= r < log.len() implies #[trigger] next.take(r) == log.take(r) by {
                assert(next.take(r) =~= log.take(r));
            }
            assert(next.take(log.len() as int) =~= log);
            assert forall|k: int| 0 <= k < len implies (#[trigger] history@[k])@ == column(next, k) by {
                assert(column(next, k) =~= column(log, k).push(actions@[k]));
            }
            assert forall|r: int, k: int| 1 <= r < next.len() && 0 <= k < start.len() implies policy.may_choose(
                play(start, next.take(r)),
                k,
                r + round_offset,
                column(next.take(r), k),
                #[trigger] next[r][k],
            ) by {
                if r < log.len() {
                    assert(next[r] == log[r]);
                    assert(next.take(r) == log.take(r));
                    assert(log[r][k] == next[r][k]);
                } else {
                    assert(next.take(r) =~= log);
                    assert(next[r] == actions@);
                }
            }
        }
        players = update(players, &actions);
        proof {
            log = log.push(actions@);
        }
        round += 1;
    }
    assert(is_rollout(start, first, log, max_rounds as int));
    players
}

/// The action that `constraints` pins for player `i`: that of the last entry
/// naming it, if any.
pub open spec fn pinned(constraints: Seq<(usize, Action)>, i: int) -> Option<Action>
    decreases constraints.len(),
{
    if constraints.len() == 0 {
        None
    } else if constraints.last().0 == i {
        Some(constraints.last().1)
    } else {
        pinned(constraints.drop_last(), i)
    }
}

/// Every entry of `constraints` names a player and pins an action it may take.
pub open spec fn constraints_fit(players: Seq<Player>, constraints: Seq<(usize, Action)>) -> bool {
    forall|j: int|
        0 <= j < constraints.len() ==> {
            let c = #[trigger] constraints[j];
            &&& c.0 < players.len()
            &&& admissible(players, c.0 as int, c.1)
        }
}

/// The actions a trial opens with: `policy`'s choice for every player, except
/// where `constraints` pins one.
pub fn first_round_actions<P: Policy>(
    players: &Vec<Player>,
    constraints: &Vec<(usize, Action)>,
    policy: &P,
    round_offset: usize,
    rng: &mut ThreadRng,
) -> (r: Vec<Action>)
    requires
        players@.len() <= usize::MAX / 2,
        forall|i: int| 0 <= i < players@.len() ==> (#[trigger] players@[i]).wf(),
        constraints_fit(players@, constraints@),
    ensures
        r@.len() == players@.len(),
        forall|i: int| 0 <= i < players@.len() ==> admissible(players@, i, #[trigger] r@[i]),
        forall|i: int|
            0 <= i < players@.len() && #[trigger] pinned(constraints@, i) is Some ==> pinned(
                constraints@,
                i,
            ) == Some(r@[i]),
        forall|i: int|
            0 <= i < players@.len() && pinned(constraints@, i) is None ==> policy.may_choose(
                players@,
                i,
                round_offset as int,
                Seq::empty(),
                #[trigger] r@[i],
            ),
{
    let len = players.len();
    let no_history: Vec<Action> = Vec::new();
    let mut actions: Vec<Action> = Vec::with_capacity(len);
    let mut n: usize = 0;
    while n < len
        invariant
            n <= len == players@.len(),
            len <= usize::MAX / 2,
            actions@.len() == n,
            forall|i: int| 0 <= i < players@.len() ==> (#[trigger] players@[i]).wf(),
            forall|i: int| 0 <= i < n ==> admissible(players@, i, #[trigger] actions@[i]),
            no_history@ == Seq::<Action>::empty(),
            forall|i: int|
                0 <= i < n ==> policy.may_choose(
                    players@,
                    i,
                    round_offset as int,
                    Seq::empty(),
                    #[trigger] actions@[i],
                ),
        decreases len - n,
    {
        let chosen = policy.choose_action(players, n, round_offset, &no_history, rng);
        proof {
            lemma_legal(players@, n as int, chosen);
        }
        actions.push(chosen);
        n += 1;
    }
    let mut j: usize = 0;
    while j < constraints.len()
        invariant
            j <= constraints.len(),
            actions@.len() == len == players@.len(),
            constraints_fit(players@, constraints@),
            forall|i: int| 0 <= i < len ==> admissible(players@, i, #[trigger] actions@[i]),
            forall|i: int|
                0 <= i < len && #[trigger] pinned(constraints@.take(j as int), i) is Some
                    ==> pinned(constraints@.take(j as int), i) == Some(actions@[i]),
            forall|i: int|
                0 <= i < len && pinned(constraints@.take(j as int), i) is None ==> policy.may_choose(
                    players@,
                    i,
                    round_offset as int,
                    Seq::empty(),
                    #[trigger] actions@[i],
                ),
        decreases constraints.len() - j,
    {
        let (index, action) = constraints[j];
        assert(constraints@[j as int] == (index, action));
        let ghost prev = actions@;
        actions.set(index, action);
        j += 1;
        assert forall|i: int|
            0 <= i < len && #[trigger] pinned(constraints@.take(j as int), i) is Some
                implies pinned(constraints@.take(j as int), i) == Some(actions@[i]) by {
            assert(constraints@.take(j as int).drop_last() =~= constraints@.take(j - 1));
            assert(constraints@.take(j as int).last() == (index, action));
            if i != index {
                assert(pinned(constraints@.take(j - 1), i) is Some);
                assert(prev[i] == actions@[i]);
            }
        }
        assert forall|i: int|
            0 <= i < len && pinned(constraints@.take(j as int), i) is None implies policy.may_choose(
            players@,
            i,
            round_offset as int,
            Seq::empty(),
            #[trigger] actions@[i],
        ) by {
            assert(constraints@.take(j as int).drop_last() =~= constraints@.take(j - 1));
            assert(constraints@.take(j as int).last() == (index, action));
            assert(i != index);
            assert(prev[i] == actions@[i]);
        }
    }
    assert(constraints@.take(constraints@.len() as int) =~= constraints@);
    actions
}

/// The round budget of a trial: at least the opening round.
pub open spec fn rounds_budget(max_rounds: usize) -> int {
    if max_rounds >= 1 {
        max_rounds as int
    } else {
        1
    }
}

/// What a trial asks of its input.
pub open spec fn trial_fits(
    players: Seq<Player>,
    constraints: Seq<(usize, Action)>,
    max_rounds: usize,
    round_offset: usize,
) -> bool {
    &&& players.len() <= usize::MAX / 2
    &&& all_room_for(players, rounds_budget(max_rounds))
    &&& constraints_fit(players, constraints)
    &&& round_offset + max_rounds <= usize::MAX
}

/// Whether `room_for(p, rounds)` holds.
fn player_has_room(p: &Player, rounds: usize) -> (r: bool)
    ensures
        r == room_for(*p, rounds as int),
{
    let wf = p.walls <= crate::player::MAX_WALLS && p.barracks <= crate::player::MAX_BARRACKS
        && p.obelisks <= crate::player::MAX_OBELISKS && p.defense <= 2;
    let soldiers = (p.soldiers as u128) + 10 * (rounds as u128) <= (u32::MAX as u128);
    let victories = (p.victories as u128) + (rounds as u128) <= (usize::MAX as u128);
    let defeats = (p.defeats as u128) + (rounds as u128) <= (usize::MAX as u128);
    wf && soldiers && victories && defeats
}

/// Whether `players`, `constraints` and the round numbers are fit for a trial.
pub fn trial_ready(
    players: &Vec<Player>,
    constraints: &Vec<(usize, Action)>,
    max_rounds: usize,
    round_offset: usize,
) -> (r: bool)
    ensures
        r == trial_fits(players@, constraints@, max_rounds, round_offset),
{
    if round_offset > usize::MAX - max_rounds || players.len() > usize::MAX / 2 {
        return false;
    }
    let budget: usize = if max_rounds >= 1 {
        max_rounds
    } else {
        1
    };
    let mut k: usize = 0;
    while k < players.len()
        invariant
            k <= players.len() <= usize::MAX / 2,
            budget as int == rounds_budget(max_rounds),
            forall|i: int| 0 <= i < k ==> room_for(#[trigger] players@[i], budget as int),
        decreases players.len() - k,
    {
        if !player_has_room(&players[k], budget) {
            return false;
        }
        k += 1;
    }
    proof {
        assert forall|i: int| 0 <= i < players@.len() implies (#[trigger] players@[i]).wf() by {
            assert(room_for(players@[i], budget as int));
        }
    }
    let mut j: usize = 0;
    while j < constraints.len()
        invariant
            j <= constraints.len(),
            players@.len() <= usize::MAX / 2,
            all_room_for(players@, rounds_budget(max_rounds)),
            forall|i: int| 0 <= i < players@.len() ==> (#[trigger] players@[i]).wf(),
            forall|jj: int|
                0 <= jj < j ==> {
                    let c = #[trigger] constraints@[jj];
                    &&& c.0 < players@.len()
                    &&& admissible(players@, c.0 as int, c.1)
                },
        decreases constraints.len() - j,
    {
        let (index, action) = constraints[j];
        if index >= players.len() || !action_admissible(players, index, action) {
            return false;
        }
        j += 1;
    }
    true
}

/// Whether `admissible(players, index, action)` holds.
pub fn action_admissible(players: &Vec<Player>, index: usize, action: Action) -> (r: bool)
    requires
        index < players@.len(),
    ensures
        r == admissible(players@, index as int, action),
{
    let playing = players[index].can_play();
    let idle = match action {
        Action::Idle => true,
        _ => false,
    };
    if playing == idle {
        return false;
    }
    match action {
        Action::Attack(t) => t < players.len() && t != index && players[t].can_play()
            && players[index].soldiers > 0,
        _ => true,
    }
}

/// One sample of a Monte Carlo evaluation: a game played from a copy of
/// `players`, opening with the policy's choices overridden by `constraints`.
/// Gives the players at the end of the game.
pub fn run_trial<P: Policy>(
    players: &Vec<Player>,
    constraints: &Vec<(usize, Action)>,
    max_rounds: usize,
    round_offset: usize,
    policy: &P,
    rng: &mut ThreadRng,
) -> (r: Vec<Player>)
    requires
        trial_fits(players@, constraints@, max_rounds, round_offset),
    ensures
        exists|log: Seq<Seq<Action>>|
            {
                &&& is_rollout(players@, log[0], log, max_rounds as int)
                &&& played_by(*policy, players@, log, round_offset as int)
                &&& r@ == play(players@, log)
                &&& forall|i: int|
                    0 <= i < players@.len() && #[trigger] pinned(constraints@, i) is Some
                        ==> pinned(constraints@, i) == Some(log[0][i])
                &&& forall|i: int|
                    0 <= i < players@.len() && pinned(constraints@, i) is None ==> policy.may_choose(
                        players@,
                        i,
                        round_offset as int,
                        Seq::empty(),
                        #[trigger] log[0][i],
                    )
            },
{
    proof {
        assert forall|i: int| 0 <= i < players@.len() implies (#[trigger] players@[i]).wf() by {
            assert(room_for(players@[i], rounds_budget(max_rounds)));
        }
    }
    let mut copy: Vec<Player> = Vec::with_capacity(players.len());
    let mut k: usize = 0;
    while k < players.len()
        invariant
            k <= players.len(),
            copy@ =~= players@.take(k as int),
        decreases players.len() - k,
    {
        copy.push(players[k]);
        k += 1;
    }
    assert(copy@ =~= players@);
    let actions = first_round_actions(players, constraints, policy, round_offset, rng);
    assert(round_ready(copy@, actions@)) by {
        assert forall|i: int| 0 <= i < copy@.len() implies crate::engine::has_room(
            #[trigger] copy@[i],
        ) by {
            assert(room_for(copy@[i], rounds_budget(max_rounds)));
        }
    }
    let ghost first = actions@;
    let r = simulate(copy, actions, policy, rng, max_rounds, round_offset);
    proof {
        let log = choose|log: Seq<Seq<Action>>|
            {
                &&& is_rollout(players@, first, log, max_rounds as int)
                &&& played_by(*policy, players@, log, round_offset as int)
                &&& r@ == play(players@, log)
            };
        assert(log[0] == first);
    }
    r
}

/// Action `a` is among those `possible_actions` offers player `i`.
pub open spec fn legal(players: Seq<Player>, i: int, a: Action) -> bool {
    players[i].options(others_of(players, i)).contains(a)
}

/// An action a player is offered whatever the other players are: building
/// below the cap, defending behind walls, recruiting or skipping.
pub open spec fn own_offered(p: Player, a: Action) -> bool {
    match a {
        Action::Recruit | Action::Skip => true,
        Action::Wall => p.walls < crate::player::MAX_WALLS,
        Action::Defend => p.walls > 0,
        Action::Barracks => p.barracks < crate::player::MAX_BARRACKS,
        Action::Obelisk => p.obelisks < crate::player::MAX_OBELISKS,
        _ => false,
    }
}

proof fn lemma_own_options(p: Player)
    ensures
        forall|a: Action| #[trigger] p.own_options().contains(a) <==> own_offered(p, a),
{
    let w = if p.walls < crate::player::MAX_WALLS {
        seq![Action::Wall]
    } else {
        seq![]
    };
    let d = if p.walls > 0 {
        seq![Action::Defend]
    } else {
        seq![]
    };
    let b = if p.barracks < crate::player::MAX_BARRACKS {
        seq![Action::Barracks]
    } else {
        seq![]
    };
    let o = if p.obelisks < crate::player::MAX_OBELISKS {
        seq![Action::Obelisk]
    } else {
        seq![]
    };
    let own = p.own_options();
    assert(own == seq![Action::Recruit, Action::Skip] + w + d + b + o);
    assert forall|a: Action| #[trigger] own.contains(a) <==> own_offered(p, a) by {
        if own.contains(a) {
            let j = choose|j: int| 0 <= j < own.len() && own[j] == a;
            let s1 = seq![Action::Recruit, Action::Skip] + w;
            let s2 = s1 + d;
            let s3 = s2 + b;
            if j < 2 {
                assert(own[j] == seq![Action::Recruit, Action::Skip][j]);
            } else if j < s1.len() {
                assert(own[j] == w[j - 2]);
            } else if j < s2.len() {
                assert(own[j] == d[j - s1.len()]);
            } else if j < s3.len() {
                assert(own[j] == b[j - s2.len()]);
            } else {
                assert(own[j] == o[j - s3.len()]);
            }
        }
        if own_offered(p, a) {
            let s1 = seq![Action::Recruit, Action::Skip] + w;
            let s2 = s1 + d;
            let s3 = s2 + b;
            match a {
                Action::Recruit => assert(own[0] == a),
                Action::Skip => assert(own[1] == a),
                Action::Wall => assert(own[2] == a),
                Action::Defend => assert(own[s1.len() as int] == a),
                Action::Barracks => assert(own[s2.len() as int] == a),
                Action::Obelisk => assert(own[s3.len() as int] == a),
                _ => {},
            }
        }
    }
}

proof fn lemma_attack_offered(players: Seq<Player>, index: int, k: int, t: int)
    requires
        0 <= t < k <= players.len() <= usize::MAX,
        t != index,
        players[t].is_playing(),
    ensures
        attack_options(others_below(players, index, k)).contains(Action::Attack(t as usize)),
    decreases k,
{
    let others = others_below(players, index, k);
    let rest = others_below(players, index, k - 1);
    if k - 1 != index {
        assert(others.drop_last() =~= rest);
    }
    if t < k - 1 {
        lemma_attack_offered(players, index, k - 1, t);
        let prev = attack_options(rest);
        let j = choose|j: int| 0 <= j < prev.len() && prev[j] == Action::Attack(t as usize);
        if k - 1 != index && others.last().1.is_playing() {
            assert(attack_options(others)[j] == Action::Attack(t as usize));
        }
    } else {
        let cur = attack_options(others);
        assert(cur[cur.len() - 1] == Action::Attack(t as usize));
    }
}

/// The actions a playing player is offered: its own ones, and attacks on
/// other players still in the game when it has soldiers. Whatever is offered
/// the engine accepts.
pub proof fn lemma_legal(players: Seq<Player>, i: int, a: Action)
    requires
        0 <= i < players.len() <= usize::MAX,
    ensures
        !players[i].is_playing() ==> (legal(players, i, a) <==> a == Action::Idle),
        players[i].is_playing() ==> (legal(players, i, a) <==> (own_offered(players[i], a)
            || match a {
            Action::Attack(t) => {
                &&& t < players.len()
                &&& t != i
                &&& players[t as int].is_playing()
                &&& players[i].soldiers > 0
            },
            _ => false,
        })),
        legal(players, i, a) ==> admissible(players, i, a),
{
    let p = players[i];
    let others = others_of(players, i);
    lemma_own_options(p);
    lemma_attack_options(players, i, players.len() as int);
    let own = p.own_options();
    let atk = attack_options(others);
    if p.is_playing() {
        if p.soldiers > 0 {
            let all = own + atk;
            if all.contains(a) {
                let j = choose|j: int| 0 <= j < all.len() && all[j] == a;
                if j < own.len() {
                    assert(own[j] == a);
                } else {
                    assert(atk[j - own.len()] == a);
                }
            }
            if own.contains(a) {
                let j = choose|j: int| 0 <= j < own.len() && own[j] == a;
                assert(all[j] == a);
            }
            if let Action::Attack(t) = a {
                if t < players.len() && t != i && players[t as int].is_playing() {
                    lemma_attack_offered(players, i, players.len() as int, t as int);
                    let j = choose|j: int| 0 <= j < atk.len() && atk[j] == a;
                    assert(all[own.len() + j] == a);
                }
            }
        }
    } else {
        if seq![Action::Idle].contains(a) {
            let j = choose|j: int| 0 <= j < 1 && seq![Action::Idle][j] == a;
        }
        if a == Action::Idle {
            assert(seq![Action::Idle][0] == a);
        }
    }
}

/// Whether `own_offered(*p, a)` holds.
pub(crate) fn offers(p: &Player, a: Action) -> (r: bool)
    ensures
        r == own_offered(*p, a),
{
    match a {
        Action::Recruit | Action::Skip => true,
        Action::Wall => p.walls < crate::player::MAX_WALLS,
        Action::Defend => p.walls > 0,
        Action::Barracks => p.barracks < crate::player::MAX_BARRACKS,
        Action::Obelisk => p.obelisks < crate::player::MAX_OBELISKS,
        _ => false,
    }
}

proof fn lemma_attack_options(players: Seq<Player>, index: int, k: int)
    requires
        0 <= k <= players.len() <= usize::MAX,
    ensures
        forall|j: int|
            0 <= j < attack_options(others_below(players, index, k)).len() ==> {
                let a = #[trigger] attack_options(others_below(players, index, k))[j];
                &&& a is Attack
                &&& a->Attack_0 < k
                &&& a->Attack_0 != index
                &&& players[a->Attack_0 as int].is_playing()
            },
    decreases k,
{
    if k > 0 {
        lemma_attack_options(players, index, k - 1);
        let others = others_below(players, index, k);
        let rest = others_below(players, index, k - 1);
        if k - 1 != index {
            assert(others.drop_last() =~= rest);
        }
    }
}

/// The actions the evaluator tries for player `index`: everything it may do,
/// in the order `possible_actions` lists them.
pub fn candidate_actions(players: &Vec<Player>, index: usize) -> (r: Vec<Action>)
    requires
        index < players@.len(),
    ensures
        r@ == players@[index as int].options(others_of(players@, index as int)),
        forall|j: int| 0 <= j < r@.len() ==> admissible(players@, index as int, #[trigger] r@[j]),
{
    let len = players.len();
    let others = opponents(players, index);
    let r = players[index].possible_actions(&others);
    proof {
        lemma_attack_options(players@, index as int, len as int);
        let p = players@[index as int];
        let own = p.own_options();
        let atk = attack_options(others_of(players@, index as int));
        if p.is_playing() && p.soldiers > 0 {
            assert forall|j: int| 0 <= j < r@.len() implies admissible(
                players@,
                index as int,
                #[trigger] r@[j],
            ) by {
                if j >= own.len() {
                    assert(r@[j] == atk[j - own.len()]);
                }
            }
        }
    }
    r
}

} // verus!
