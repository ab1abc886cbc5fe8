use vstd::prelude::*;

use crate::combat::{can_fight, fight_attacker, fight_defender, lead_index, lemma_combat_bounds};
use crate::player::{Action, Player, MAX_BARRACKS, MAX_OBELISKS, MAX_WALLS};

verus! {

/// Whether `a` is something player `i` may be given this round: an action
/// exactly when it still plays, and an attack only on another player still in
/// the game, with soldiers to send.
pub open spec fn admissible(players: Seq<Player>, i: int, a: Action) -> bool {
    &&& (players[i].is_playing() <==> a != Action::Idle)
    &&& match a {
        Action::Attack(t) => {
            &&& t < players.len()
            &&& t != i
            &&& players[t as int].is_playing()
            &&& players[i].soldiers > 0
        },
        _ => true,
    }
}

/// Room for `rounds` more rounds: the bounds hold, and the soldiers and
/// counters can grow by what that many rounds can add.
pub open spec fn room_for(p: Player, rounds: int) -> bool {
    &&& p.wf()
    &&& p.soldiers + MAX_BARRACKS * rounds <= u32::MAX
    &&& p.victories + rounds <= usize::MAX
    &&& p.defeats + rounds <= usize::MAX
}

/// Room for one more round.
pub open spec fn has_room(p: Player) -> bool {
    room_for(p, 1)
}

/// What a round asks of its input: one admissible action per player.
pub open spec fn round_ready(players: Seq<Player>, actions: Seq<Action>) -> bool {
    &&& players.len() == actions.len()
    &&& forall|i: int|
        0 <= i < players.len() ==> has_room(#[trigger] players[i]) && admissible(
            players,
            i,
            actions[i],
        )
}

/// First step of a round: the defense timer, the busy flag, and no siege yet.
pub open spec fn prepare(p: Player, a: Action) -> Player {
    Player {
        defense: if a == Action::Defend {
            2
        } else if p.defense > 0 {
            (p.defense - 1) as u8
        } else {
            0
        },
        busy: a.keeps_busy(),
        sieged: false,
        ..p
    }
}

/// The players after the first step: the snapshot all combats are fought on.
pub open spec fn prepared(players: Seq<Player>, actions: Seq<Action>) -> Seq<Player> {
    Seq::new(players.len(), |i: int| prepare(players[i], actions[i]))
}

/// Player `i` attacks player `n`.
pub open spec fn strikes(actions: Seq<Action>, i: int, n: int) -> bool {
    i != n && actions[i] == Action::Attack(n as usize)
}

/// Player `k` attacks another player of the game.
pub open spec fn is_strike(actions: Seq<Action>, k: int) -> bool {
    match actions[k] {
        Action::Attack(t) => t < actions.len() && t != k,
        _ => false,
    }
}

/// The player that `k` attacks, when it attacks one.
pub open spec fn target(actions: Seq<Action>, k: int) -> int {
    match actions[k] {
        Action::Attack(t) => t as int,
        _ => -1,
    }
}

/// The players below index `k` that attack `n`, in increasing order.
pub open spec fn attackers_below(actions: Seq<Action>, n: int, k: int) -> Seq<usize>
    decreases k,
{
    if k <= 0 {
        seq![]
    } else {
        let rest = attackers_below(actions, n, k - 1);
        if strikes(actions, k - 1, n) {
            rest.push((k - 1) as usize)
        } else {
            rest
        }
    }
}

/// All the players that attack `n`, in increasing order.
pub open spec fn attackers_of(actions: Seq<Action>, n: int) -> Seq<usize> {
    attackers_below(actions, n, actions.len() as int)
}

/// The rows of `s` at the given indices.
pub open spec fn rows_of(s: Seq<Player>, ids: Seq<usize>) -> Seq<Player> {
    ids.map_values(|i: usize| s[i as int])
}

/// Player `k` after the combat in which it defends, if it is attacked.
pub open spec fn defended(s: Seq<Player>, actions: Seq<Action>, k: int) -> Player {
    let ids = attackers_of(actions, k);
    if ids.len() > 0 {
        fight_defender(s[k], rows_of(s, ids))
    } else {
        s[k]
    }
}

/// Player `k` after the combat in which it attacks, if it attacks.
pub open spec fn assaulted(s: Seq<Player>, actions: Seq<Action>, k: int) -> Player {
    if is_strike(actions, k) {
        let t = target(actions, k);
        let rows = rows_of(s, attackers_of(actions, t));
        let l = lead_index(rows);
        if attackers_of(actions, t)[l] == k {
            fight_attacker(s[t], rows, l)
        } else {
            Player { soldiers: 0, ..s[k] }
        }
    } else {
        s[k]
    }
}

/// Player `k` once the combats that `done` says are fought have been
/// applied: as defender it takes walls, garrison, obelisk and defeat from
/// its own combat; as attacker soldiers, obelisk and victory from its target's.
pub open spec fn merge_combats(
    s: Seq<Player>,
    actions: Seq<Action>,
    k: int,
    defended_done: bool,
    assaulted_done: bool,
) -> Player {
    let d = if defended_done {
        defended(s, actions, k)
    } else {
        s[k]
    };
    let a = if assaulted_done {
        assaulted(s, actions, k)
    } else {
        s[k]
    };
    Player {
        walls: d.walls,
        soldiers: if is_strike(actions, k) {
            a.soldiers
        } else {
            d.soldiers
        },
        obelisks: (d.obelisks + a.obelisks - s[k].obelisks) as u8,
        victories: a.victories,
        defeats: d.defeats,
        sieged: d.sieged,
        ..s[k]
    }
}

/// Player `k` after every combat of the round, all fought on the snapshot `s`.
pub open spec fn after_combat(s: Seq<Player>, actions: Seq<Action>, k: int) -> Player {
    merge_combats(s, actions, k, true, true)
}

/// Player `k` once the combats with defenders below `n` are fought.
pub open spec fn combats_upto(s: Seq<Player>, actions: Seq<Action>, k: int, n: int) -> Player {
    merge_combats(s, actions, k, k < n, is_strike(actions, k) && target(actions, k) < n)
}

/// Last step of a round: what the player builds or recruits, then the
/// round's flags cleared. A besieged player builds nothing.
pub open spec fn build(p: Player, a: Action) -> Player {
    let q = match a {
        Action::Wall => if p.walls < MAX_WALLS && !p.sieged {
            Player { walls: (p.walls + 1) as u8, ..p }
        } else {
            p
        },
        Action::Barracks => if p.barracks < MAX_BARRACKS && !p.sieged {
            Player { barracks: (p.barracks + 1) as u8, ..p }
        } else {
            p
        },
        Action::Obelisk => if p.obelisks < MAX_OBELISKS && !p.sieged {
            Player { obelisks: (p.obelisks + 1) as u8, ..p }
        } else {
            p
        },
        Action::Recruit => Player { soldiers: (p.soldiers + p.barracks) as u32, ..p },
        Action::Skip => Player { soldiers: (p.soldiers + 1) as u32, ..p },
        _ => p,
    };
    Player { busy: false, sieged: false, ..q }
}

/// The players after one round in which player `i` takes `actions[i]`.
pub open spec fn advance(players: Seq<Player>, actions: Seq<Action>) -> Seq<Player> {
    let s = prepared(players, actions);
    Seq::new(players.len(), |k: int| build(after_combat(s, actions, k), actions[k]))
}

proof fn lemma_attackers_below(actions: Seq<Action>, n: int, k: int)
    requires
        0 <= k <= actions.len() <= usize::MAX,
    ensures
        ({
            let ids = attackers_below(actions, n, k);
            &&& forall|j: int|
                0 <= j < ids.len() ==> #[trigger] ids[j] < k && strikes(actions, ids[j] as int, n)
            &&& forall|j1: int, j2: int|
                0 <= j1 < j2 < ids.len() ==> #[trigger] ids[j1] < #[trigger] ids[j2]
            &&& forall|e: int|
                0 <= e < k && #[trigger] strikes(actions, e, n) ==> ids.contains(e as usize)
        }),
    decreases k,
{
    if k > 0 {
        lemma_attackers_below(actions, n, k - 1);
        let rest = attackers_below(actions, n, k - 1);
        let ids = attackers_below(actions, n, k);
        if strikes(actions, k - 1, n) {
            assert(ids == rest.push((k - 1) as usize));
            assert forall|j: int| 0 <= j < rest.len() implies #[trigger] ids[j] == rest[j] by {}
            assert forall|j: int| 0 <= j < ids.len() implies #[trigger] ids[j] < k && strikes(
                actions,
                ids[j] as int,
                n,
            ) by {
                if j < rest.len() {
                    assert(ids[j] == rest[j]);
                }
            }
            assert forall|j1: int, j2: int| 0 <= j1 < j2 < ids.len() implies #[trigger] ids[j1]
                < #[trigger] ids[j2] by {
                assert(ids[j1] == rest[j1]);
                if j2 < rest.len() {
                    assert(ids[j2] == rest[j2]);
                }
            }
            assert forall|e: int| 0 <= e < k && #[trigger] strikes(actions, e, n) implies ids.contains(
                e as usize,
            ) by {
                if e < k - 1 {
                    assert(rest.contains(e as usize));
                    let j = choose|j: int| 0 <= j < rest.len() && rest[j] == e as usize;
                    assert(ids[j] == e as usize);
                } else {
                    assert(ids[ids.len() - 1] == e as usize);
                }
            }
        } else {
            assert(ids == rest);
        }
    }
}

/// The combat at defender `n` is one that `attacked` accepts.
proof fn lemma_combat_ready(players: Seq<Player>, actions: Seq<Action>, n: int)
    requires
        round_ready(players, actions),
        0 <= n < players.len() <= usize::MAX,
        attackers_of(actions, n).len() > 0,
    ensures
        can_fight(
            prepared(players, actions)[n],
            rows_of(prepared(players, actions), attackers_of(actions, n)),
        ),
{
    let s = prepared(players, actions);
    let ids = attackers_of(actions, n);
    let rows = rows_of(s, ids);
    lemma_attackers_below(actions, n, actions.len() as int);
    let i0 = ids[0] as int;
    assert(strikes(actions, i0, n));
    assert(admissible(players, i0, actions[i0]));
    assert forall|j: int| 0 <= j < rows.len() implies {
        &&& (#[trigger] rows[j]).soldiers > 0
        &&& rows[j].wf()
        &&& rows[j].is_playing()
        &&& rows[j].victories < usize::MAX
    } by {
        let i = ids[j] as int;
        assert(strikes(actions, i, n));
        assert(has_room(players[i]) && admissible(players, i, actions[i]));
        assert(rows[j] == s[i]);
        assert(s[i] == prepare(players[i], actions[i]));
    }
    assert(has_room(players[n]));
    assert(s[n] == prepare(players[n], actions[n]));
    assert(players[n].is_playing());
}

/// Where a player's two combats can leave it: as defender it loses at most
/// one obelisk, as attacker it gains at most one, and neither adds soldiers.
proof fn lemma_role_bounds(players: Seq<Player>, actions: Seq<Action>, k: int)
    requires
        round_ready(players, actions),
        0 <= k < players.len() <= usize::MAX,
    ensures
        ({
            let s = prepared(players, actions);
            let d = defended(s, actions, k);
            let a = assaulted(s, actions, k);
            &&& s[k] == prepare(players[k], actions[k])
            &&& d.walls <= s[k].walls
            &&& d.soldiers <= s[k].soldiers
            &&& d.obelisks == s[k].obelisks || (d.obelisks == s[k].obelisks - 1 && s[k].is_playing())
            &&& d.defeats <= s[k].defeats + 1
            &&& d.victories == s[k].victories
            &&& d.defense == s[k].defense && d.barracks == s[k].barracks
            &&& a.soldiers <= s[k].soldiers
            &&& a.obelisks == s[k].obelisks || (a.obelisks == s[k].obelisks + 1 && s[k].is_playing())
            &&& a.victories <= s[k].victories + 1
            &&& a.walls == s[k].walls && a.defeats == s[k].defeats && a.sieged == s[k].sieged
        }),
{
    let s = prepared(players, actions);
    assert(s[k] == prepare(players[k], actions[k]));
    assert(has_room(players[k]));
    lemma_attackers_below(actions, k, actions.len() as int);
    let ids = attackers_of(actions, k);
    if ids.len() > 0 {
        lemma_combat_ready(players, actions, k);
        lemma_combat_bounds(s[k], rows_of(s, ids));
        assert(strikes(actions, ids[0] as int, k));
        assert(admissible(players, ids[0] as int, actions[ids[0] as int]));
    }
    if is_strike(actions, k) {
        let t = target(actions, k);
        assert(admissible(players, k, actions[k]));
        lemma_attackers_below(actions, t, actions.len() as int);
        assert(strikes(actions, k, t));
        let tids = attackers_of(actions, t);
        assert(tids.contains(k as usize));
        let rows = rows_of(s, tids);
        lemma_combat_ready(players, actions, t);
        lemma_combat_bounds(s[t], rows);
        let l = lead_index(rows);
        crate::combat::lemma_lead_in_range(rows);
        assert(rows[l] == s[tids[l] as int]);
        let _ = fight_attacker(s[t], rows, l);
    }
}

/// The indices of the players that attack `n`, in increasing order.
fn attackers_list(actions: &Vec<Action>, n: usize) -> (ids: Vec<usize>)
    ensures
        ids@ == attackers_of(actions@, n as int),
{
    let mut ids: Vec<usize> = Vec::new();
    let mut i: usize = 0;
    while i < actions.len()
        invariant
            i <= actions.len(),
            ids@ == attackers_below(actions@, n as int, i as int),
        decreases actions.len() - i,
    {
        if i != n && actions[i] == Action::Attack(n) {
            ids.push(i);
        }
        i += 1;
    }
    ids
}

/// Copies of the rows of `snapshot` at `ids`.
fn rows_at(snapshot: &Vec<Player>, ids: &Vec<usize>) -> (rows: Vec<Player>)
    requires
        forall|j: int| 0 <= j < ids@.len() ==> #[trigger] ids@[j] < snapshot@.len(),
    ensures
        rows@ == rows_of(snapshot@, ids@),
{
    let mut rows: Vec<Player> = Vec::with_capacity(ids.len());
    let mut j: usize = 0;
    while j < ids.len()
        invariant
            j <= ids.len(),
            forall|jj: int| 0 <= jj < ids@.len() ==> #[trigger] ids@[jj] < snapshot@.len(),
            rows@ =~= rows_of(snapshot@, ids@.take(j as int)),
        decreases ids.len() - j,
    {
        rows.push(snapshot[ids[j]]);
        j += 1;
        assert(rows@ =~= rows_of(snapshot@, ids@.take(j as int)));
    }
    assert(ids@.take(ids.len() as int) =~= ids@);
    rows
}

/// Fights the combat whose defender is `n`, on the snapshot, and records its
/// outcome in `out`.
fn resolve_combat(
    out: &mut Vec<Player>,
    snapshot: &Vec<Player>,
    actions: &Vec<Action>,
    n: usize,
    Ghost(start): Ghost<Seq<Player>>,
)
    requires
        round_ready(start, actions@),
        snapshot@ == prepared(start, actions@),
        n < start.len(),
        old(out)@.len() == start.len(),
        forall|k: int|
            0 <= k < start.len() ==> #[trigger] old(out)@[k] == combats_upto(
                snapshot@,
                actions@,
                k,
                n as int,
            ),
    ensures
        final(out)@.len() == start.len(),
        forall|k: int|
            0 <= k < start.len() ==> #[trigger] final(out)@[k] == combats_upto(
                snapshot@,
                actions@,
                k,
                n + 1,
            ),
{
    let ghost s = snapshot@;
    let ghost acts = actions@;
    let len = snapshot.len();
    let ids = attackers_list(actions, n);
    proof {
        lemma_attackers_below(acts, n as int, len as int);
        assert forall|k: int|
            0 <= k < len && k != n && !ids@.contains(k as usize) implies combats_upto(
            s,
            acts,
            k,
            n as int,
        ) == combats_upto(s, acts, k, n + 1) by {
            if is_strike(acts, k) && target(acts, k) == n {
                assert(strikes(acts, k, n as int));
            }
        }
    }
    if ids.len() == 0 {
        return;
    }
    proof {
        lemma_combat_ready(start, acts, n as int);
        lemma_role_bounds(start, acts, n as int);
    }
    let mut defender = snapshot[n];
    let mut rows = rows_at(snapshot, &ids);
    let ghost rows0 = rows@;
    defender.attacked(&mut rows);

    let attacking = match actions[n] {
        Action::Attack(t) => t < len && t != n,
        _ => false,
    };
    let mut p = out[n];
    p.walls = defender.walls;
    p.defeats = defender.defeats;
    p.sieged = defender.sieged;
    if !attacking {
        p.soldiers = defender.soldiers;
    }
    p.obelisks = p.obelisks + defender.obelisks - snapshot[n].obelisks;
    out[n] = p;
    assert(out@[n as int] == combats_upto(s, acts, n as int, n + 1));

    let mut j: usize = 0;
    while j < ids.len()
        invariant
            j <= ids.len(),
            len == s.len() == start.len() == acts.len(),
            s == snapshot@,
            acts == actions@,
            round_ready(start, acts),
            s == prepared(start, acts),
            n < len,
            ids@ == attackers_of(acts, n as int),
            ids@.len() > 0,
            rows@.len() == ids@.len(),
            rows0 == rows_of(s, ids@),
            forall|jj: int|
                0 <= jj < ids@.len() ==> #[trigger] rows@[jj] == fight_attacker(s[n as int], rows0, jj),
            forall|jj: int|
                0 <= jj < ids@.len() ==> #[trigger] ids@[jj] < len && strikes(acts, ids@[jj] as int, n as int),
            forall|j1: int, j2: int|
                0 <= j1 < j2 < ids@.len() ==> #[trigger] ids@[j1] < #[trigger] ids@[j2],
            out@.len() == len,
            forall|k: int|
                0 <= k < len ==> #[trigger] out@[k] == if k == n || ids@.take(j as int).contains(
                    k as usize,
                ) {
                    combats_upto(s, acts, k, n + 1)
                } else {
                    combats_upto(s, acts, k, n as int)
                },
        decreases ids.len() - j,
    {
        let i = ids[j];
        let ghost ii = i as int;
        proof {
            lemma_role_bounds(start, acts, ii);
            assert(!ids@.take(j as int).contains(i)) by {
                if ids@.take(j as int).contains(i) {
                    let jj = choose|jj: int| 0 <= jj < j && #[trigger] ids@.take(j as int)[jj] == i;
                    assert(ids@[jj] < ids@[j as int]);
                }
            }
            crate::combat::lemma_lead_in_range(rows0);
            let l = lead_index(rows0);
            if l != j {
                assert(ids@[l] != ids@[j as int]) by {
                    if l < j {
                        assert(ids@[l] < ids@[j as int]);
                    } else {
                        assert(ids@[j as int] < ids@[l]);
                    }
                }
            }
            assert(rows0[j as int] == s[ii]);
            assert(assaulted(s, acts, ii) == rows@[j as int]);
        }
        let mut q = out[i];
        q.soldiers = rows[j].soldiers;
        q.victories = rows[j].victories;
        q.obelisks = q.obelisks + rows[j].obelisks - snapshot[i].obelisks;
        out[i] = q;
        j += 1;
        proof {
            assert forall|k: int| 0 <= k < len implies #[trigger] out@[k] == if k == n
                || ids@.take(j as int).contains(k as usize) {
                combats_upto(s, acts, k, n + 1)
            } else {
                combats_upto(s, acts, k, n as int)
            } by {
                if k != ii {
                    assert(ids@.take(j as int).contains(k as usize) == ids@.take(j - 1).contains(
                        k as usize,
                    )) by {
                        if ids@.take(j as int).contains(k as usize) {
                            let jj = choose|jj: int|
                                0 <= jj < j && #[trigger] ids@.take(j as int)[jj] == k as usize;
                            assert(jj != j - 1);
                            assert(ids@.take(j - 1)[jj] == k as usize);
                        }
                        if ids@.take(j - 1).contains(k as usize) {
                            let jj = choose|jj: int|
                                0 <= jj < j - 1 && #[trigger] ids@.take(j - 1)[jj] == k as usize;
                            assert(ids@.take(j as int)[jj] == k as usize);
                        }
                    }
                } else {
                    assert(ids@.take(j as int)[j - 1] == i);
                }
            }
        }
    }
    proof {
        assert forall|k: int| 0 <= k < len implies #[trigger] out@[k] == combats_upto(
            s,
            acts,
            k,
            n + 1,
        ) by {
            assert(ids@.take(ids@.len() as int) =~= ids@);
        }
    }
}

/// After its combats a player still respects the bounds, has no more
/// soldiers than before, and has at most one more victory and defeat.
proof fn lemma_after_combat_bounds(players: Seq<Player>, actions: Seq<Action>, k: int)
    requires
        round_ready(players, actions),
        0 <= k < players.len() <= usize::MAX,
    ensures
        ({
            let p = after_combat(prepared(players, actions), actions, k);
            &&& p.wf()
            &&& p.soldiers <= players[k].soldiers
            &&& p.barracks == players[k].barracks
            &&& p.victories <= players[k].victories + 1
            &&& p.defeats <= players[k].defeats + 1
        }),
{
    lemma_role_bounds(players, actions, k);
    assert(has_room(players[k]));
}

/// Plays one round in which player `i` takes `actions[i]`.
///
/// First every defense timer ticks (or restarts on `Defend`), attackers and
/// recruiters become busy, and nobody is besieged yet. Then every combat is fought, each on the state
/// left by the first step, so that the order of the combats does not matter.
/// Last, each player builds or recruits, and the round's flags are cleared.
pub fn update(players: Vec<Player>, actions: &Vec<Action>) -> (r: Vec<Player>)
    requires
        round_ready(players@, actions@),
    ensures
        r@ == advance(players@, actions@),
{
    let ghost start = players@;
    let len = players.len();
    let mut players = players;

    let mut i: usize = 0;
    while i < len
        invariant
            len == players@.len() == actions@.len() == start.len(),
            forall|j: int|
                0 <= j < len ==> #[trigger] players@[j] == if j < i {
                    prepare(start[j], actions@[j])
                } else {
                    start[j]
                },
        decreases len - i,
    {
        let action = actions[i];
        let mut p = players[i];
        if action == Action::Defend {
            p.defense = 2;
        } else if p.defense > 0 {
            p.defense = p.defense - 1;
        }
        p.busy = match action {
            Action::Attack(_) | Action::Recruit => true,
            _ => false,
        };
        p.sieged = false;
        players[i] = p;
        i += 1;
    }
    let snapshot = players;
    let ghost s = snapshot@;
    assert(s =~= prepared(start, actions@));

    let mut out: Vec<Player> = Vec::with_capacity(len);
    i = 0;
    while i < len
        invariant
            i <= len == s.len(),
            s == snapshot@,
            out@ =~= s.take(i as int),
        decreases len - i,
    {
        out.push(snapshot[i]);
        i += 1;
    }
    assert forall|k: int| 0 <= k < len implies #[trigger] out@[k] == combats_upto(
        s,
        actions@,
        k,
        0,
    ) by {}

    let mut n: usize = 0;
    while n < len
        invariant
            n <= len == s.len() == start.len() == actions@.len(),
            s == snapshot@,
            s == prepared(start, actions@),
            round_ready(start, actions@),
            out@.len() == len,
            forall|k: int|
                0 <= k < len ==> #[trigger] out@[k] == combats_upto(s, actions@, k, n as int),
        decreases len - n,
    {
        resolve_combat(&mut out, &snapshot, actions, n, Ghost(start));
        n += 1;
    }

    i = 0;
    while i < len
        invariant
            i <= len == s.len() == start.len() == actions@.len(),
            s == prepared(start, actions@),
            round_ready(start, actions@),
            out@.len() == len,
            forall|k: int|
                0 <= k < len ==> #[trigger] out@[k] == if k < i {
                    build(after_combat(s, actions@, k), actions@[k])
                } else {
                    after_combat(s, actions@, k)
                },
        decreases len - i,
    {
        proof {
            lemma_after_combat_bounds(start, actions@, i as int);
        }
        let mut p = out[i];
        match actions[i] {
            Action::Wall => {
                if p.walls < MAX_WALLS && !p.sieged {
                    p.walls = p.walls + 1;
                }
            },
            Action::Barracks => {
                if p.barracks < MAX_BARRACKS && !p.sieged {
                    p.barracks = p.barracks + 1;
                }
            },
            Action::Obelisk => {
                if p.obelisks < MAX_OBELISKS && !p.sieged {
                    p.obelisks = p.obelisks + 1;
                }
            },
            Action::Recruit => {
                p.soldiers = p.soldiers + p.barracks as u32;
            },
            Action::Skip => {
                p.soldiers = p.soldiers + 1;
            },
            _ => {},
        }
        p.busy = false;
        p.sieged = false;
        out[i] = p;
        i += 1;
    }
    assert(out@ =~= advance(start, actions@));
    out
}

/// Building grows by exactly one step: a player that nobody attacks, and so
/// is not besieged, gains one wall, barrack or obelisk when it builds one below
/// the maximum and is unchanged at the maximum; it gains one soldier when it
/// skips; its other resources stay as they were.
pub proof fn lemma_build_growth(players: Seq<Player>, actions: Seq<Action>, k: int)
    requires
        round_ready(players, actions),
        0 <= k < players.len() <= usize::MAX,
        attackers_of(actions, k).len() == 0,
    ensures
        ({
            let p = players[k];
            let r = advance(players, actions)[k];
            &&& actions[k] == Action::Wall ==> {
                &&& r.walls == if p.walls < MAX_WALLS {
                    p.walls + 1
                } else {
                    p.walls as int
                }
                &&& r.soldiers == p.soldiers && r.barracks == p.barracks && r.obelisks
                    == p.obelisks
            }
            &&& actions[k] == Action::Barracks ==> {
                &&& r.barracks == if p.barracks < MAX_BARRACKS {
                    p.barracks + 1
                } else {
                    p.barracks as int
                }
                &&& r.soldiers == p.soldiers && r.walls == p.walls && r.obelisks == p.obelisks
            }
            &&& actions[k] == Action::Obelisk ==> {
                &&& r.obelisks == if p.obelisks < MAX_OBELISKS {
                    p.obelisks + 1
                } else {
                    p.obelisks as int
                }
                &&& r.soldiers == p.soldiers && r.walls == p.walls && r.barracks == p.barracks
            }
            &&& actions[k] == Action::Skip ==> {
                &&& r.soldiers == p.soldiers + 1
                &&& r.walls == p.walls && r.barracks == p.barracks && r.obelisks == p.obelisks
            }
        }),
{
    let s = prepared(players, actions);
    assert(s[k] == prepare(players[k], actions[k]));
    assert(has_room(players[k]));
}

/// A round keeps every player within the bounds, and uses up at most one
/// round's worth of room.
pub proof fn lemma_advance_bounds(players: Seq<Player>, actions: Seq<Action>, rounds: int)
    requires
        round_ready(players, actions),
        players.len() <= usize::MAX,
        rounds >= 1,
        forall|k: int| 0 <= k < players.len() ==> room_for(#[trigger] players[k], rounds),
    ensures
        advance(players, actions).len() == players.len(),
        forall|k: int|
            0 <= k < players.len() ==> room_for(#[trigger] advance(players, actions)[k], rounds - 1),
{
    assert forall|k: int| 0 <= k < players.len() implies room_for(
        #[trigger] advance(players, actions)[k],
        rounds - 1,
    ) by {
        lemma_after_combat_bounds(players, actions, k);
        assert(room_for(players[k], rounds));
        assert(MAX_BARRACKS * rounds == MAX_BARRACKS * (rounds - 1) + MAX_BARRACKS);
    }
}

} // verus!
