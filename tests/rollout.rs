use obelisk::engine::update;
use obelisk::rollout::{
    action_admissible, any_won, candidate_actions, first_round_actions, run_trial, simulate,
    trial_ready, Policy,
};
use obelisk::{Action, Player};
use rand::rngs::ThreadRng;

/// Builds a wall while it can, then skips.
struct Builder;

impl Policy for Builder {
    fn choose_action(
        &self,
        players: &Vec<Player>,
        index: usize,
        _round: usize,
        _history: &Vec<Action>,
        _rng: &mut ThreadRng,
    ) -> Action {
        let p = &players[index];
        if !p.can_play() {
            Action::Idle
        } else if p.walls < 10 {
            Action::Wall
        } else {
            Action::Skip
        }
    }
}

/// Builds obelisks, and checks the history it is given.
struct ObeliskBuilder;

impl Policy for ObeliskBuilder {
    fn choose_action(
        &self,
        players: &Vec<Player>,
        index: usize,
        round: usize,
        history: &Vec<Action>,
        _rng: &mut ThreadRng,
    ) -> Action {
        assert!(history.len() == round || round == 0);
        if !players[index].can_play() {
            Action::Idle
        } else {
            Action::Obelisk
        }
    }
}

#[test]
fn any_won_finds_a_winner() {
    assert!(!any_won(&vec![Player::new(), Player::new()]));
    assert!(any_won(&vec![Player::new(), Player::with_values(1, 1, 1, 10, 0)]));
    assert!(!any_won(&vec![]));
}

#[test]
fn simulate_runs_the_round_budget() {
    let mut rng = rand::thread_rng();
    let players = vec![Player::new(), Player::new()];
    let r = simulate(players, vec![Action::Skip, Action::Skip], &Builder, &mut rng, 5, 0);
    // One skip, then four walls.
    assert_eq!(r[0], Player::with_values(5, 2, 1, 1, 0));
    assert_eq!(r[1], Player::with_values(5, 2, 1, 1, 0));
}

#[test]
fn simulate_plays_the_first_round_even_without_budget() {
    let mut rng = rand::thread_rng();
    let r = simulate(vec![Player::new()], vec![Action::Skip], &Builder, &mut rng, 0, 0);
    assert_eq!(r[0], Player::with_values(1, 2, 1, 1, 0));
}

#[test]
fn simulate_stops_at_a_winner() {
    let mut rng = rand::thread_rng();
    let players = vec![Player::with_values(1, 1, 1, 8, 0), Player::new()];
    let r = simulate(
        players,
        vec![Action::Obelisk, Action::Obelisk],
        &ObeliskBuilder,
        &mut rng,
        50,
        0,
    );
    assert_eq!(r[0].obelisks, 10);
    assert_eq!(r[1].obelisks, 3);
}

#[test]
fn constraints_pin_the_first_round() {
    let mut rng = rand::thread_rng();
    let players = vec![Player::new(), Player::new(), Player::new()];
    let constraints = vec![(1, Action::Skip), (2, Action::Recruit), (1, Action::Attack(0))];
    let actions = first_round_actions(&players, &constraints, &Builder, 0, &mut rng);
    assert_eq!(actions, vec![Action::Wall, Action::Attack(0), Action::Recruit]);
}

#[test]
fn trial_applies_constraints() {
    let mut rng = rand::thread_rng();
    let players = vec![Player::new(), Player::new()];
    let constraints = vec![(0, Action::Skip)];
    let r = run_trial(&players, &constraints, 3, 0, &Builder, &mut rng);
    assert_eq!(r[0], Player::with_values(3, 2, 1, 1, 0));
    assert_eq!(r[1], Player::with_values(4, 1, 1, 1, 0));
    // The input is left as it was.
    assert_eq!(players[0], Player::new());
}

#[test]
fn trial_readiness() {
    let players = vec![Player::new(), Player::with_values(1, 1, 1, 0, 0)];
    assert!(trial_ready(&players, &vec![(0, Action::Skip)], 10, 4));
    // Out of range, wrong for a player out of the game, attack on a player
    // out of the game.
    assert!(!trial_ready(&players, &vec![(2, Action::Skip)], 10, 4));
    assert!(!trial_ready(&players, &vec![(1, Action::Skip)], 10, 4));
    assert!(!trial_ready(&players, &vec![(0, Action::Attack(1))], 10, 4));
    assert!(trial_ready(&players, &vec![(1, Action::Idle)], 10, 4));
    // Round numbers that overflow, soldiers without room to grow.
    assert!(!trial_ready(&players, &vec![], usize::MAX, 1));
    let crowded = vec![Player::with_values(1, u32::MAX - 5, 1, 1, 0)];
    assert!(!trial_ready(&crowded, &vec![], 1, 0));
    // Walls above the maximum.
    assert!(!trial_ready(&vec![Player::with_values(11, 1, 1, 1, 0)], &vec![], 1, 0));
}

#[test]
fn admissible_actions() {
    let players = vec![Player::new(), Player::with_values(1, 0, 1, 1, 0), Player::with_values(1, 1, 1, 10, 0)];
    assert!(action_admissible(&players, 0, Action::Attack(1)));
    assert!(!action_admissible(&players, 0, Action::Attack(0)));
    assert!(!action_admissible(&players, 0, Action::Attack(2)));
    assert!(!action_admissible(&players, 0, Action::Attack(3)));
    assert!(!action_admissible(&players, 1, Action::Attack(0)));
    assert!(!action_admissible(&players, 0, Action::Idle));
    assert!(action_admissible(&players, 2, Action::Idle));
    assert!(!action_admissible(&players, 2, Action::Skip));
}

#[test]
fn candidates_of_a_player() {
    let players = vec![Player::new(), Player::new(), Player::with_values(1, 1, 1, 0, 0)];
    assert_eq!(
        candidate_actions(&players, 0),
        vec![
            Action::Recruit,
            Action::Skip,
            Action::Wall,
            Action::Defend,
            Action::Barracks,
            Action::Obelisk,
            Action::Attack(1),
        ]
    );
    assert_eq!(candidate_actions(&players, 2), vec![Action::Idle]);
}

#[test]
fn candidates_play_one_round() {
    let players = vec![Player::new(), Player::new()];
    for action in candidate_actions(&players, 0) {
        let r = update(players.clone(), &vec![action, Action::Skip]);
        assert_eq!(r.len(), 2);
    }
}
