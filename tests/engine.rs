use obelisk::engine::update;
use obelisk::{Action, Player};

#[test]
fn test_update() {
    let mut state = vec![Player::new(); 12];

    let decisions_0 = vec![
        Action::Wall,
        Action::Barracks,
        Action::Barracks,
        Action::Obelisk,
        Action::Barracks,
        Action::Skip,
        Action::Barracks,
        Action::Wall,
        Action::Wall,
        Action::Barracks,
        Action::Skip,
        Action::Skip,
    ];

    state = update(state, &decisions_0);

    assert_eq!(
        state,
        vec![
            Player::with_values(2, 1, 1, 1, 0),
            Player::with_values(1, 1, 2, 1, 0),
            Player::with_values(1, 1, 2, 1, 0),
            Player::with_values(1, 1, 1, 2, 0),
            Player::with_values(1, 1, 2, 1, 0),
            Player::with_values(1, 2, 1, 1, 0),
            Player::with_values(1, 1, 2, 1, 0),
            Player::with_values(2, 1, 1, 1, 0),
            Player::with_values(2, 1, 1, 1, 0),
            Player::with_values(1, 1, 2, 1, 0),
            Player::with_values(1, 2, 1, 1, 0),
            Player::with_values(1, 2, 1, 1, 0),
        ]
    );

    let decisions_1 = vec![
        Action::Barracks,
        Action::Wall,
        Action::Wall,
        Action::Wall,
        Action::Wall,
        Action::Skip,
        Action::Wall,
        Action::Barracks,
        Action::Barracks,
        Action::Wall,
        Action::Barracks,
        Action::Barracks,
    ];

    state = update(state, &decisions_1);

    assert_eq!(
        state,
        vec![
            Player::with_values(2, 1, 2, 1, 0),
            Player::with_values(2, 1, 2, 1, 0),
            Player::with_values(2, 1, 2, 1, 0),
            Player::with_values(2, 1, 1, 2, 0),
            Player::with_values(2, 1, 2, 1, 0),
            Player::with_values(1, 3, 1, 1, 0),
            Player::with_values(2, 1, 2, 1, 0),
            Player::with_values(2, 1, 2, 1, 0),
            Player::with_values(2, 1, 2, 1, 0),
            Player::with_values(2, 1, 2, 1, 0),
            Player::with_values(1, 2, 2, 1, 0),
            Player::with_values(1, 2, 2, 1, 0),
        ]
    );
}

#[test]
fn building_grows_by_one() {
    let players = vec![
        Player::with_values(3, 4, 5, 6, 0),
        Player::with_values(3, 4, 5, 6, 0),
        Player::with_values(3, 4, 5, 6, 0),
        Player::with_values(3, 4, 5, 6, 0),
    ];
    let actions = vec![Action::Wall, Action::Barracks, Action::Obelisk, Action::Skip];
    let r = update(players, &actions);
    assert_eq!(r[0], Player::with_values(4, 4, 5, 6, 0));
    assert_eq!(r[1], Player::with_values(3, 4, 6, 6, 0));
    assert_eq!(r[2], Player::with_values(3, 4, 5, 7, 0));
    assert_eq!(r[3], Player::with_values(3, 5, 5, 6, 0));
}

#[test]
fn building_at_the_cap_changes_nothing() {
    let players = vec![
        Player::with_values(10, 4, 10, 9, 0),
        Player::with_values(10, 4, 10, 9, 0),
        Player::with_values(10, 4, 10, 9, 0),
    ];
    let actions = vec![Action::Wall, Action::Barracks, Action::Obelisk];
    let r = update(players, &actions);
    assert_eq!(r[0], Player::with_values(10, 4, 10, 9, 0));
    assert_eq!(r[1], Player::with_values(10, 4, 10, 9, 0));
    assert_eq!(r[2], Player::with_values(10, 4, 10, 10, 0));
    assert!(r[2].won());
}

#[test]
fn recruit_adds_barracks() {
    let players = vec![Player::with_values(1, 2, 7, 1, 0)];
    let r = update(players, &vec![Action::Recruit]);
    assert_eq!(r[0], Player::with_values(1, 9, 7, 1, 0));
    assert!(!r[0].busy);
}

#[test]
fn defense_timer_starts_and_decays() {
    let mut state = vec![Player::with_values(2, 1, 1, 1, 0)];
    state = update(state, &vec![Action::Defend]);
    assert_eq!(state[0].defense, 2);
    state = update(state, &vec![Action::Skip]);
    assert_eq!(state[0].defense, 1);
    state = update(state, &vec![Action::Skip]);
    assert_eq!(state[0].defense, 0);
    state = update(state, &vec![Action::Skip]);
    assert_eq!(state[0].defense, 0);
}

#[test]
fn besieged_player_builds_nothing() {
    let players = vec![
        Player::with_values(0, 0, 1, 3, 0),
        Player::with_values(1, 4, 1, 2, 0),
    ];
    let actions = vec![Action::Obelisk, Action::Attack(0)];
    let r = update(players, &actions);
    // The siege takes one obelisk, and the obelisk built this round is lost.
    assert_eq!(r[0], Player::with_values(0, 0, 1, 2, 0));
    assert_eq!(r[1], Player::with_values(1, 4, 1, 3, 0));
    assert_eq!(r[0].defeats, 1);
    assert_eq!(r[1].victories, 1);
    assert!(!r[0].sieged);
}

#[test]
fn combats_use_the_state_before_combat() {
    // Players 0 and 1 attack each other while 2 attacks 1: each combat sees
    // the soldiers everyone had before any combat was fought.
    let players = vec![
        Player::with_values(0, 3, 1, 2, 0),
        Player::with_values(0, 5, 1, 2, 0),
        Player::with_values(0, 2, 1, 2, 0),
    ];
    let actions = vec![Action::Attack(1), Action::Attack(0), Action::Attack(1)];
    let r = update(players, &actions);
    // Combat at 0: player 1 leads with 5 against no walls and a busy
    // garrison, and takes an obelisk.
    // Combat at 1: player 0 (3) beats player 2 (2) in the rivalry and leads
    // with 1, which takes an obelisk from busy player 1.
    assert_eq!(r[0], Player::with_values(0, 1, 1, 2, 0));
    assert_eq!(r[1], Player::with_values(0, 5, 1, 2, 0));
    assert_eq!(r[2], Player::with_values(0, 0, 1, 2, 0));
    assert_eq!(r[0].victories, 1);
    assert_eq!(r[0].defeats, 1);
    assert_eq!(r[1].victories, 1);
    assert_eq!(r[1].defeats, 1);
}

#[test]
fn idle_player_is_left_alone() {
    let players = vec![
        Player::with_values(1, 1, 1, 0, 0),
        Player::with_values(1, 1, 1, 10, 0),
        Player::with_values(1, 1, 1, 1, 0),
    ];
    let actions = vec![Action::Idle, Action::Idle, Action::Skip];
    let r = update(players, &actions);
    assert_eq!(r[0], Player::with_values(1, 1, 1, 0, 0));
    assert_eq!(r[1], Player::with_values(1, 1, 1, 10, 0));
    assert_eq!(r[2], Player::with_values(1, 2, 1, 1, 0));
}

#[test]
fn siege_flag_is_decided_each_round() {
    let mut p = Player::with_values(2, 1, 1, 1, 0);
    p.sieged = true;
    let r = update(vec![p], &vec![Action::Wall]);
    assert_eq!(r[0], Player::with_values(3, 1, 1, 1, 0));
    assert!(!r[0].sieged);
}
