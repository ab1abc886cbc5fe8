use vstd::prelude::*;

use rand::rngs::ThreadRng;

use crate::player::{Action, Player};
use crate::random::{
    below, choose_index, empty_indices, index_items, indices_len, push_index, thread_rng, Indices,
};
use crate::rollout::{
    first_round_actions, is_rollout, legal, lemma_legal, offers, own_offered, pinned, play, played_by,
    simulate, Policy,
};

verus! {

/// One gene of a genetic agent: what it does at one step of a game.
#[derive(Clone, Copy, Debug, PartialEq, Eq, Structural)]
pub enum SimpleAgentAction {
    Wall,
    Recruit,
    Barracks,
    Obelisk,
    Attack,
    Defend,
    Skip,
}

impl SimpleAgentAction {
    /// The game action a gene stands for; an attack gene needs a target and
    /// stands for none by itself.
    pub open spec fn to_action(self) -> Action {
        match self {
            SimpleAgentAction::Wall => Action::Wall,
            SimpleAgentAction::Recruit => Action::Recruit,
            SimpleAgentAction::Barracks => Action::Barracks,
            SimpleAgentAction::Obelisk => Action::Obelisk,
            SimpleAgentAction::Attack => Action::Idle,
            SimpleAgentAction::Defend => Action::Defend,
            SimpleAgentAction::Skip => Action::Skip,
        }
    }

    /// A gene drawn uniformly at random.
    pub fn rand(rng: &mut ThreadRng) -> Self {
        let i = below(rng, 7);
        if i == 0 {
            SimpleAgentAction::Wall
        } else if i == 1 {
            SimpleAgentAction::Recruit
        } else if i == 2 {
            SimpleAgentAction::Barracks
        } else if i == 3 {
            SimpleAgentAction::Obelisk
        } else if i == 4 {
            SimpleAgentAction::Attack
        } else if i == 5 {
            SimpleAgentAction::Defend
        } else {
            SimpleAgentAction::Skip
        }
    }
}

impl From<SimpleAgentAction> for Action {
    fn from(gene: SimpleAgentAction) -> (r: Action)
        ensures
            r == gene.to_action(),
    {
        match gene {
            SimpleAgentAction::Wall => Action::Wall,
            SimpleAgentAction::Recruit => Action::Recruit,
            SimpleAgentAction::Barracks => Action::Barracks,
            SimpleAgentAction::Obelisk => Action::Obelisk,
            SimpleAgentAction::Attack => Action::Idle,
            SimpleAgentAction::Defend => Action::Defend,
            SimpleAgentAction::Skip => Action::Skip,
        }
    }
}

impl vstd::std_specs::convert::FromSpecImpl<SimpleAgentAction> for Action {
    open spec fn obeys_from_spec() -> bool {
        true
    }

    open spec fn from_spec(gene: SimpleAgentAction) -> Action {
        gene.to_action()
    }
}

/// A genetic agent: a fixed plan, one gene per step of the game.
#[derive(Clone, Debug)]
pub struct SimpleAgent {
    pub genome: Vec<SimpleAgentAction>,
}

/// Player `t` is one that player `index` can beat: another player still in
/// the game, weaker than `index`'s soldiers.
pub open spec fn beatable(players: Seq<Player>, index: int, t: int) -> bool {
    &&& 0 <= t < players.len()
    &&& t != index
    &&& players[t].strength() < players[index].soldiers
    &&& players[t].is_playing()
}

impl SimpleAgent {
    /// An agent with `steps` random genes.
    pub fn new(steps: usize) -> (r: Self)
        ensures
            r.genome@.len() == steps,
    {
        let mut rng = thread_rng();
        Self::from_rng(steps, &mut rng)
    }

    /// An agent with `steps` random genes drawn from `rng`.
    pub fn from_rng(steps: usize, rng: &mut ThreadRng) -> (r: Self)
        ensures
            r.genome@.len() == steps,
    {
        let mut genome: Vec<SimpleAgentAction> = Vec::with_capacity(steps);
        let mut n: usize = 0;
        while n < steps
            invariant
                n <= steps,
                genome@.len() == n,
            decreases steps - n,
        {
            genome.push(SimpleAgentAction::rand(rng));
            n += 1;
        }
        Self { genome }
    }

    /// What the agent may answer for player `index` at step `step`: `Idle`
    /// for a player out of the game; `Skip` once the plan is over; for an
    /// attack gene, an attack on a player it can beat, or `Skip` when there
    /// is none; for another gene, its action if the player is offered it,
    /// else `Skip`.
    pub open spec fn step_choice(self, players: Seq<Player>, index: int, step: int, r: Action) -> bool {
        let p = players[index];
        if !p.is_playing() {
            r == Action::Idle
        } else if step < 0 || step >= self.genome.len() {
            r == Action::Skip
        } else if self.genome[step] == SimpleAgentAction::Attack {
            &&& r == Action::Skip <==> !exists|t: int| beatable(players, index, t)
            &&& r is Attack ==> beatable(players, index, r->Attack_0 as int)
            &&& r == Action::Skip || r is Attack
        } else {
            r == if own_offered(p, self.genome[step].to_action()) {
                self.genome[step].to_action()
            } else {
                Action::Skip
            }
        }
    }

    /// The action of player `index` at step `step`: the gene of that step,
    /// `Skip` once the plan is over or when the gene's action is not offered.
    /// An attack gene attacks a player picked at random among those it can
    /// beat, or skips when there is none.
    pub fn get_action(
        &self,
        players: &Vec<Player>,
        index: usize,
        step: usize,
        rng: &mut ThreadRng,
    ) -> (r: Action)
        requires
            index < players@.len() <= usize::MAX / 2,
        ensures
            self.step_choice(players@, index as int, step as int, r),
            legal(players@, index as int, r),
    {
        proof {
            lemma_legal(players@, index as int, Action::Idle);
            lemma_legal(players@, index as int, Action::Skip);
        }
        if !players[index].can_play() {
            return Action::Idle;
        }
        if step >= self.genome.len() {
            return Action::Skip;
        }
        if self.genome[step] == SimpleAgentAction::Attack {
            let own = players[index].soldiers as u64;
            let mut targets: Indices = empty_indices();
            let mut n: usize = 0;
            while n < players.len()
                invariant
                    n <= players@.len() <= usize::MAX / 2,
                    index < players@.len(),
                    own == players@[index as int].soldiers,
                    index_items(targets).len() <= n,
                    forall|j: int|
                        0 <= j < index_items(targets).len() ==> beatable(
                            players@,
                            index as int,
                            #[trigger] index_items(targets)[j] as int,
                        ),
                    forall|t: int|
                        0 <= t < n && #[trigger] beatable(players@, index as int, t)
                            ==> index_items(targets).contains(t as usize),
                decreases players.len() - n,
            {
                let p = players[n];
                if n != index && p.strength_value() < own && p.can_play() {
                    let ghost before = index_items(targets);
                    push_index(&mut targets, n);
                    proof {
                        assert forall|t: int|
                            0 <= t <= n && #[trigger] beatable(players@, index as int, t)
                                implies index_items(targets).contains(t as usize) by {
                            if t < n {
                                let j = choose|j: int|
                                    0 <= j < before.len() && before[j] == t as usize;
                                assert(index_items(targets)[j] == t as usize);
                            } else {
                                assert(index_items(targets)[before.len() as int] == t as usize);
                            }
                        }
                    }
                }
                n += 1;
            }
            if indices_len(&targets) > 0 {
                let t = choose_index(&targets, rng);
                proof {
                    let j = choose|j: int|
                        0 <= j < index_items(targets).len() && index_items(targets)[j] == t;
                    assert(beatable(players@, index as int, index_items(targets)[j] as int));
                    lemma_legal(players@, index as int, Action::Attack(t));
                }
                return Action::Attack(t);
            } else {
                proof {
                    assert forall|t: int| !beatable(players@, index as int, t) by {
                        if beatable(players@, index as int, t) {
                            assert(index_items(targets).contains(t as usize));
                        }
                    }
                }
                return Action::Skip;
            }
        }
        let action = Action::from(self.genome[step]);
        if offers(&players[index], action) {
            proof {
                lemma_legal(players@, index as int, action);
            }
            action
        } else {
            Action::Skip
        }
    }
}

impl Policy for SimpleAgent {
    /// The agent follows its genome, one gene per round.
    open spec fn may_choose(
        &self,
        players: Seq<Player>,
        index: int,
        round: int,
        history: Seq<Action>,
        a: Action,
    ) -> bool {
        self.step_choice(players, index, round, a)
    }

    fn choose_action(
        &self,
        players: &Vec<Player>,
        index: usize,
        round: usize,
        _history: &Vec<Action>,
        rng: &mut ThreadRng,
    ) -> (r: Action) {
        self.get_action(players, index, round, rng)
    }
}

/// Genetic agents playing a game together: agent `i` plays player `i`.
pub struct Lineup {
    pub agents: Vec<SimpleAgent>,
}

impl Policy for Lineup {
    /// Each player follows its own agent's genome; a player without an agent
    /// plays as one whose plan is over.
    open spec fn may_choose(
        &self,
        players: Seq<Player>,
        index: int,
        round: int,
        history: Seq<Action>,
        a: Action,
    ) -> bool {
        if 0 <= index < self.agents.len() {
            self.agents[index].step_choice(players, index, round, a)
        } else {
            a == if players[index].is_playing() {
                Action::Skip
            } else {
                Action::Idle
            }
        }
    }

    fn choose_action(
        &self,
        players: &Vec<Player>,
        index: usize,
        round: usize,
        _history: &Vec<Action>,
        rng: &mut ThreadRng,
    ) -> (r: Action) {
        proof {
            lemma_legal(players@, index as int, Action::Idle);
            lemma_legal(players@, index as int, Action::Skip);
        }
        if index < self.agents.len() {
            self.agents[index].get_action(players, index, round, rng)
        } else if players[index].can_play() {
            Action::Skip
        } else {
            Action::Idle
        }
    }
}

/// `n` fresh players.
pub open spec fn fresh_players(n: int) -> Seq<Player> {
    Seq::new(n as nat, |i: int| Player::with_values_spec(1, 1, 1, 1, 0))
}

/// The most rounds a game between fresh players can be given.
pub const MAX_STEPS: usize = 400_000_000;

/// Plays a game between fresh players, one per agent of `lineup`, for at most
/// `n_steps` rounds and until some player has won. Gives the players at the
/// end.
pub fn play_lineup(lineup: &Lineup, n_steps: usize, rng: &mut ThreadRng) -> (r: Vec<Player>)
    requires
        lineup.agents@.len() <= usize::MAX / 2,
        n_steps <= MAX_STEPS,
    ensures
        n_steps == 0 ==> r@ == fresh_players(lineup.agents@.len() as int),
        n_steps > 0 ==> exists|log: Seq<Seq<Action>>|
            {
                &&& is_rollout(fresh_players(lineup.agents@.len() as int), log[0], log, n_steps as int)
                &&& played_by(*lineup, fresh_players(lineup.agents@.len() as int), log, 0)
                &&& forall|i: int|
                    0 <= i < lineup.agents@.len() ==> lineup.may_choose(
                        fresh_players(lineup.agents@.len() as int),
                        i,
                        0,
                        Seq::empty(),
                        #[trigger] log[0][i],
                    )
                &&& r@ == play(fresh_players(lineup.agents@.len() as int), log)
            },
{
    let len = lineup.agents.len();
    let mut players: Vec<Player> = Vec::with_capacity(len);
    let mut n: usize = 0;
    while n < len
        invariant
            n <= len,
            players@ =~= fresh_players(n as int),
        decreases len - n,
    {
        players.push(Player::new());
        n += 1;
    }
    if n_steps == 0 {
        return players;
    }
    let no_constraints: Vec<(usize, Action)> = Vec::new();
    let actions = first_round_actions(&players, &no_constraints, lineup, 0, rng);
    let ghost first = actions@;
    let r = simulate(players, actions, lineup, rng, n_steps, 0);
    proof {
        let log = choose|log: Seq<Seq<Action>>|
            {
                &&& is_rollout(fresh_players(len as int), first, log, n_steps as int)
                &&& played_by(*lineup, fresh_players(len as int), log, 0)
                &&& r@ == play(fresh_players(len as int), log)
            };
        assert(log[0] == first);
        assert forall|i: int| 0 <= i < len implies #[trigger] pinned(no_constraints@, i) is None by {}
    }
    r
}

} // verus!
