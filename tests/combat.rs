use obelisk::Player;

#[test]
fn simulate_combat() {
    // Lost
    {
        let mut attacked = Player::with_values(1, 3, 1, 1, 0);
        let mut attackers = vec![Player::with_values(1, 2, 1, 1, 0)];

        attacked.attacked(&mut attackers);

        assert_eq!(attacked, Player::with_values(0, 2, 1, 1, 0));
        assert_eq!(attackers[0], Player::with_values(1, 0, 1, 1, 0));
    }

    // Won
    {
        let mut attacked = Player::with_values(1, 3, 1, 1, 0);
        let mut attackers = vec![Player::with_values(1, 5, 1, 1, 0)];

        attacked.attacked(&mut attackers);

        assert_eq!(attacked, Player::with_values(0, 0, 1, 0, 0));
        assert_eq!(attackers[0], Player::with_values(1, 1, 1, 2, 0));
    }

    // Draw
    {
        let mut attacked = Player::with_values(1, 3, 1, 1, 0);
        let mut attackers = vec![Player::with_values(1, 4, 1, 1, 0)];

        attacked.attacked(&mut attackers);

        assert_eq!(attacked, Player::with_values(0, 0, 1, 1, 0));
        assert_eq!(attackers[0], Player::with_values(1, 0, 1, 1, 0));
    }

    // Two attackers: victory
    {
        let mut attacked = Player::with_values(1, 3, 1, 1, 0);
        let mut attackers = vec![
            Player::with_values(1, 2, 1, 1, 0),
            Player::with_values(1, 7, 1, 1, 0),
        ];

        attacked.attacked(&mut attackers);

        assert_eq!(attacked, Player::with_values(0, 0, 1, 0, 0));
        assert_eq!(attackers[0], Player::with_values(1, 0, 1, 1, 0));
        assert_eq!(attackers[1], Player::with_values(1, 1, 1, 2, 0));
    }

    // Two attackers: annihilation
    {
        let mut attacked = Player::with_values(1, 3, 1, 1, 0);
        let mut attackers = vec![
            Player::with_values(1, 2, 1, 1, 0),
            Player::with_values(1, 2, 1, 1, 0),
        ];

        attacked.attacked(&mut attackers);

        assert_eq!(attacked, Player::with_values(1, 3, 1, 1, 0));
        assert_eq!(attackers[0], Player::with_values(1, 0, 1, 1, 0));
        assert_eq!(attackers[1], Player::with_values(1, 0, 1, 1, 0));
    }

    // Two attackers: draw after rivalry fight
    {
        let mut attacked = Player::with_values(1, 3, 1, 1, 0);
        let mut attackers = vec![
            Player::with_values(1, 2, 1, 1, 0),
            Player::with_values(1, 6, 1, 1, 0),
        ];

        attacked.attacked(&mut attackers);

        assert_eq!(attacked, Player::with_values(0, 0, 1, 1, 0));
        assert_eq!(attackers[0], Player::with_values(1, 0, 1, 1, 0));
        assert_eq!(attackers[1], Player::with_values(1, 0, 1, 1, 0));
    }

    // Three attackers
    {
        let mut attacked = Player::with_values(2, 2, 2, 3, 0);
        let mut attackers = vec![
            Player::with_values(3, 20, 3, 2, 0),
            Player::with_values(2, 15, 2, 1, 0),
            Player::with_values(1, 13, 3, 1, 0),
        ];

        attacked.attacked(&mut attackers);

        assert_eq!(attacked, Player::with_values(0, 0, 2, 2, 0));
        assert_eq!(attackers[0], Player::with_values(3, 1, 3, 3, 0));
        assert_eq!(attackers[1], Player::with_values(2, 0, 2, 1, 0));
        assert_eq!(attackers[2], Player::with_values(1, 0, 3, 1, 0));
    }
}

#[test]
fn wall_absorbs_single_attack() {
    let mut defender = Player::with_values(1, 3, 1, 1, 0);
    let mut attackers = vec![Player::with_values(1, 2, 1, 1, 0)];
    defender.attacked(&mut attackers);
    assert_eq!(defender, Player::with_values(0, 2, 1, 1, 0));
    assert_eq!(attackers[0], Player::with_values(1, 0, 1, 1, 0));
    assert!(!defender.sieged);
    assert_eq!(defender.defeats, 0);
    assert_eq!(attackers[0].victories, 0);
}

#[test]
fn siege_takes_an_obelisk() {
    let mut defender = Player::with_values(1, 3, 1, 1, 0);
    let mut attackers = vec![Player::with_values(1, 5, 1, 1, 0)];
    defender.attacked(&mut attackers);
    assert_eq!(defender, Player::with_values(0, 0, 1, 0, 0));
    assert_eq!(attackers[0], Player::with_values(1, 1, 1, 2, 0));
    assert!(defender.sieged);
    assert_eq!(defender.defeats, 1);
    assert_eq!(attackers[0].victories, 1);
}

#[test]
fn rivalry_then_exact_draw() {
    let mut defender = Player::with_values(1, 3, 1, 1, 0);
    let mut attackers = vec![
        Player::with_values(1, 2, 1, 1, 0),
        Player::with_values(1, 6, 1, 1, 0),
    ];
    defender.attacked(&mut attackers);
    assert_eq!(defender, Player::with_values(0, 0, 1, 1, 0));
    assert_eq!(attackers[0], Player::with_values(1, 0, 1, 1, 0));
    assert_eq!(attackers[1], Player::with_values(1, 0, 1, 1, 0));
    assert!(!defender.sieged);
    assert_eq!(attackers[1].victories, 0);
}

#[test]
fn active_defense_doubles_walls() {
    // Walls 2 count as 4: 3 attackers leave (4 - 3) / 2 = 0 walls.
    let mut defender = Player::with_values(2, 5, 1, 3, 1);
    let mut attackers = vec![Player::with_values(1, 3, 1, 1, 0)];
    defender.attacked(&mut attackers);
    assert_eq!(defender, Player::with_values(0, 5, 1, 3, 1));
    assert_eq!(attackers[0].soldiers, 0);

    // 1 attacker against doubled walls 3: (6 - 1) / 2 = 2 walls left.
    let mut defender = Player::with_values(3, 0, 1, 3, 2);
    let mut attackers = vec![Player::with_values(1, 1, 1, 1, 0)];
    defender.attacked(&mut attackers);
    assert_eq!(defender.walls, 2);
}

#[test]
fn busy_defender_does_not_fight() {
    let mut defender = Player::with_values(1, 10, 1, 4, 0);
    defender.busy = true;
    let mut attackers = vec![Player::with_values(1, 3, 1, 1, 0)];
    defender.attacked(&mut attackers);
    assert_eq!(defender, Player::with_values(0, 10, 1, 3, 0));
    assert_eq!(attackers[0], Player::with_values(1, 2, 1, 2, 0));
}

#[test]
fn tied_strongest_attackers_cancel_out() {
    let mut defender = Player::with_values(0, 0, 1, 2, 0);
    let mut attackers = vec![
        Player::with_values(1, 5, 1, 1, 0),
        Player::with_values(1, 9, 1, 1, 0),
        Player::with_values(1, 9, 1, 1, 0),
    ];
    defender.attacked(&mut attackers);
    assert_eq!(defender, Player::with_values(0, 0, 1, 2, 0));
    for a in attackers.iter() {
        assert_eq!(a.soldiers, 0);
        assert_eq!(a.obelisks, 1);
    }
}

#[test]
fn combat_keeps_counts_in_bounds() {
    let mut defender = Player::with_values(10, 50, 10, 1, 2);
    let mut attackers = vec![
        Player::with_values(0, 100, 0, 9, 0),
        Player::with_values(0, 30, 0, 9, 0),
    ];
    defender.attacked(&mut attackers);
    // 70 soldiers lead; walls 20 stop 20, the garrison 50 the rest.
    assert_eq!(defender, Player::with_values(0, 0, 10, 1, 2));
    assert_eq!(attackers[0], Player::with_values(0, 0, 0, 9, 0));
    assert_eq!(attackers[1], Player::with_values(0, 0, 0, 9, 0));

    let mut defender = Player::with_values(0, 0, 0, 1, 0);
    let mut attackers = vec![Player::with_values(0, 1, 0, 9, 0)];
    defender.attacked(&mut attackers);
    assert_eq!(defender.obelisks, 0);
    assert_eq!(attackers[0].obelisks, 10);
    assert!(attackers[0].won());
    assert!(defender.lost());
}
