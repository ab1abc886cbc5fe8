use obelisk::genetic_basic::{play_lineup, Lineup, SimpleAgent, SimpleAgentAction};
use obelisk::rollout::Policy;
use obelisk::{Action, Player};

fn agent(genome: Vec<SimpleAgentAction>) -> SimpleAgent {
    SimpleAgent { genome }
}

#[test]
fn genes_stand_for_actions() {
    assert_eq!(Action::from(SimpleAgentAction::Wall), Action::Wall);
    assert_eq!(Action::from(SimpleAgentAction::Recruit), Action::Recruit);
    assert_eq!(Action::from(SimpleAgentAction::Barracks), Action::Barracks);
    assert_eq!(Action::from(SimpleAgentAction::Obelisk), Action::Obelisk);
    assert_eq!(Action::from(SimpleAgentAction::Attack), Action::Idle);
    assert_eq!(Action::from(SimpleAgentAction::Defend), Action::Defend);
    assert_eq!(Action::from(SimpleAgentAction::Skip), Action::Skip);
}

#[test]
fn random_agents_have_the_requested_length() {
    let mut rng = rand::thread_rng();
    assert_eq!(SimpleAgent::from_rng(17, &mut rng).genome.len(), 17);
    assert_eq!(SimpleAgent::new(0).genome.len(), 0);
    assert_eq!(SimpleAgent::new(50).genome.len(), 50);
}

#[test]
fn random_genes_cover_every_gene() {
    let mut rng = rand::thread_rng();
    let mut seen = [false; 7];
    for _ in 0..2000 {
        let i = match SimpleAgentAction::rand(&mut rng) {
            SimpleAgentAction::Wall => 0,
            SimpleAgentAction::Recruit => 1,
            SimpleAgentAction::Barracks => 2,
            SimpleAgentAction::Obelisk => 3,
            SimpleAgentAction::Attack => 4,
            SimpleAgentAction::Defend => 5,
            SimpleAgentAction::Skip => 6,
        };
        seen[i] = true;
    }
    assert!(seen.iter().all(|s| *s));
}

#[test]
fn agent_follows_its_genome() {
    let mut rng = rand::thread_rng();
    let a = agent(vec![SimpleAgentAction::Wall, SimpleAgentAction::Defend]);
    let players = vec![Player::new(), Player::new()];
    assert_eq!(a.get_action(&players, 0, 0, &mut rng), Action::Wall);
    assert_eq!(a.get_action(&players, 0, 1, &mut rng), Action::Defend);
    assert_eq!(a.get_action(&players, 0, 2, &mut rng), Action::Skip);
    let out = vec![Player::with_values(1, 1, 1, 0, 0), Player::new()];
    assert_eq!(a.get_action(&out, 0, 0, &mut rng), Action::Idle);
}

#[test]
fn attack_gene_picks_a_beatable_player() {
    let mut rng = rand::thread_rng();
    let a = agent(vec![SimpleAgentAction::Attack]);
    // Player 1 (strength 2 + 3 = 5) is beatable with 6 soldiers; player 2
    // (doubled walls: 2 * 2 + 3 = 7) is not; player 3 is out of the game.
    let players = vec![
        Player::with_values(1, 6, 1, 1, 0),
        Player::with_values(2, 3, 1, 1, 0),
        Player::with_values(2, 3, 1, 1, 1),
        Player::with_values(0, 0, 1, 0, 0),
    ];
    for _ in 0..20 {
        assert_eq!(a.get_action(&players, 0, 0, &mut rng), Action::Attack(1));
    }
}

#[test]
fn attack_gene_picks_among_several_targets() {
    let mut rng = rand::thread_rng();
    let a = agent(vec![SimpleAgentAction::Attack]);
    let players = vec![
        Player::with_values(1, 9, 1, 1, 0),
        Player::with_values(1, 1, 1, 1, 0),
        Player::with_values(1, 1, 1, 1, 0),
    ];
    let mut seen = [false; 3];
    for _ in 0..200 {
        match a.get_action(&players, 0, 0, &mut rng) {
            Action::Attack(t) => seen[t] = true,
            other => panic!("unexpected action {:?}", other),
        }
    }
    assert!(!seen[0] && seen[1] && seen[2]);
}

#[test]
fn attack_gene_skips_without_target() {
    let mut rng = rand::thread_rng();
    let a = agent(vec![SimpleAgentAction::Attack]);
    let players = vec![Player::with_values(1, 2, 1, 1, 0), Player::with_values(1, 1, 1, 1, 0)];
    assert_eq!(a.get_action(&players, 0, 0, &mut rng), Action::Skip);
}

#[test]
fn agent_as_policy() {
    let mut rng = rand::thread_rng();
    let a = agent(vec![SimpleAgentAction::Barracks]);
    let players = vec![Player::new()];
    assert_eq!(a.choose_action(&players, 0, 0, &vec![], &mut rng), Action::Barracks);
}

#[test]
fn lineup_plays_a_game() {
    let mut rng = rand::thread_rng();
    let lineup = Lineup {
        agents: vec![
            agent(vec![SimpleAgentAction::Wall, SimpleAgentAction::Wall, SimpleAgentAction::Obelisk]),
            agent(vec![SimpleAgentAction::Skip, SimpleAgentAction::Recruit]),
        ],
    };
    let r = play_lineup(&lineup, 3, &mut rng);
    assert_eq!(r[0], Player::with_values(3, 1, 1, 2, 0));
    // Skip, recruit, then skip once the plan is over.
    assert_eq!(r[1], Player::with_values(1, 4, 1, 1, 0));

    let none = play_lineup(&lineup, 0, &mut rng);
    assert_eq!(none, vec![Player::new(), Player::new()]);
}

#[test]
fn genes_not_offered_become_skip() {
    let mut rng = rand::thread_rng();
    let players = vec![Player::with_values(10, 1, 10, 1, 0), Player::with_values(0, 1, 1, 1, 0)];
    let walls = agent(vec![SimpleAgentAction::Wall]);
    let barracks = agent(vec![SimpleAgentAction::Barracks]);
    let defend = agent(vec![SimpleAgentAction::Defend]);
    let obelisk = agent(vec![SimpleAgentAction::Obelisk]);
    assert_eq!(walls.get_action(&players, 0, 0, &mut rng), Action::Skip);
    assert_eq!(barracks.get_action(&players, 0, 0, &mut rng), Action::Skip);
    assert_eq!(defend.get_action(&players, 0, 0, &mut rng), Action::Defend);
    assert_eq!(defend.get_action(&players, 1, 0, &mut rng), Action::Skip);
    assert_eq!(walls.get_action(&players, 1, 0, &mut rng), Action::Wall);
    assert_eq!(obelisk.get_action(&players, 0, 0, &mut rng), Action::Obelisk);
}
