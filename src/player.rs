use vstd::prelude::*;

verus! {

/// Largest number of walls a player can hold.
pub const MAX_WALLS: u8 = 10;

/// Largest number of barracks a player can hold.
pub const MAX_BARRACKS: u8 = 10;

/// Number of obelisks that wins the game.
pub const MAX_OBELISKS: u8 = 10;

/// One participant of the game.
///
/// `busy` and `sieged` are only meaningful while a round is being resolved:
/// the engine sets them and clears them again before the round ends.
#[derive(Clone, Copy, Debug)]
pub struct Player {
    pub soldiers: u32,
    pub walls: u8,
    pub busy: bool,
    pub sieged: bool,
    pub defense: u8,
    pub barracks: u8,
    pub obelisks: u8,
    pub victories: usize,
    pub defeats: usize,
}

/// What a player does during one round.
#[derive(Clone, Copy, Debug, PartialEq, Eq, Structural)]
pub enum Action {
    Wall,
    Recruit,
    Barracks,
    Obelisk,
    Defend,
    /// Attack the player with this index.
    Attack(usize),
    Skip,
    /// The only action of a player who can no longer play.
    Idle,
}

impl Player {
    /// The player holds no obelisk any more.
    pub open spec fn is_lost(self) -> bool {
        self.obelisks == 0
    }

    /// The player holds every obelisk it can.
    pub open spec fn is_won(self) -> bool {
        self.obelisks == MAX_OBELISKS
    }

    /// Neither won nor lost: the player still takes part.
    pub open spec fn is_playing(self) -> bool {
        !self.is_lost() && !self.is_won()
    }

    /// The bounds every player respects between rounds.
    pub open spec fn wf(self) -> bool {
        &&& self.walls <= MAX_WALLS
        &&& self.barracks <= MAX_BARRACKS
        &&& self.obelisks <= MAX_OBELISKS
        &&& self.defense <= 2
    }

    /// The five values a player is compared by.
    pub open spec fn same_stats(self, other: Player) -> bool {
        &&& self.soldiers == other.soldiers
        &&& self.walls == other.walls
        &&& self.defense == other.defense
        &&& self.barracks == other.barracks
        &&& self.obelisks == other.obelisks
    }

    /// A fresh player: one wall, soldier, barrack and obelisk.
    pub fn new() -> (r: Self)
        ensures
            r == Player::with_values_spec(1, 1, 1, 1, 0),
    {
        Self {
            walls: 1,
            soldiers: 1,
            barracks: 1,
            obelisks: 1,
            defense: 0,
            busy: false,
            sieged: false,
            victories: 0,
            defeats: 0,
        }
    }

    pub open spec fn with_values_spec(
        walls: u8,
        soldiers: u32,
        barracks: u8,
        obelisks: u8,
        defense: u8,
    ) -> Player {
        Player {
            walls,
            soldiers,
            barracks,
            obelisks,
            defense,
            busy: false,
            sieged: false,
            victories: 0,
            defeats: 0,
        }
    }

    /// A player with the given resources, not busy, not sieged, with no
    /// victory or defeat recorded.
    pub fn with_values(walls: u8, soldiers: u32, barracks: u8, obelisks: u8, defense: u8) -> (r:
        Self)
        ensures
            r == Player::with_values_spec(walls, soldiers, barracks, obelisks, defense),
    {
        Self {
            walls,
            soldiers,
            barracks,
            obelisks,
            defense,
            busy: false,
            sieged: false,
            victories: 0,
            defeats: 0,
        }
    }

    /// The actions a playing player is offered, in the order they are
    /// listed, before any attack.
    pub open spec fn own_options(self) -> Seq<Action> {
        seq![Action::Recruit, Action::Skip]
            + (if self.walls < MAX_WALLS { seq![Action::Wall] } else { seq![] })
            + (if self.walls > 0 { seq![Action::Defend] } else { seq![] })
            + (if self.barracks < MAX_BARRACKS { seq![Action::Barracks] } else { seq![] })
            + (if self.obelisks < MAX_OBELISKS { seq![Action::Obelisk] } else { seq![] })
    }

    /// Everything the player may do, given the other players as
    /// `(index, player)` pairs.
    pub open spec fn options(self, others: Seq<(usize, Player)>) -> Seq<Action> {
        if !self.is_playing() {
            seq![Action::Idle]
        } else if self.soldiers > 0 {
            self.own_options() + attack_options(others)
        } else {
            self.own_options()
        }
    }

    /// The actions this player may take this round; `others` lists the
    /// other players with their indices.
    pub fn possible_actions(&self, others: &Vec<(usize, Player)>) -> (r: Vec<Action>)
        ensures
            r@ == self.options(others@),
    {
        if !self.can_play() {
            return vec![Action::Idle];
        }
        let mut res: Vec<Action> = Vec::with_capacity(6);
        res.push(Action::Recruit);
        res.push(Action::Skip);
        if self.walls < MAX_WALLS {
            res.push(Action::Wall);
        }
        if self.walls > 0 {
            res.push(Action::Defend);
        }
        if self.barracks < MAX_BARRACKS {
            res.push(Action::Barracks);
        }
        if self.obelisks < MAX_OBELISKS {
            res.push(Action::Obelisk);
        }
        assert(res@ =~= self.own_options());
        if self.soldiers > 0 {
            let mut i: usize = 0;
            while i < others.len()
                invariant
                    i <= others.len(),
                    res@ == self.own_options() + attack_options(others@.take(i as int)),
                decreases others.len() - i,
            {
                let (n, player) = others[i];
                assert(others@.take(i as int + 1).drop_last() =~= others@.take(i as int));
                if player.can_play() {
                    res.push(Action::Attack(n));
                }
                i += 1;
            }
            assert(others@.take(others.len() as int) =~= others@);
        }
        res
    }

    /// Walls, doubled while the defense is active, plus soldiers: what an
    /// attacker has to beat.
    pub open spec fn strength(self) -> int {
        self.walls * (if self.defense > 0 {
            2int
        } else {
            1int
        }) + self.soldiers
    }

    /// The player's strength.
    pub fn strength_value(&self) -> (r: u64)
        ensures
            r == self.strength(),
    {
        let factor: u64 = if self.defense > 0 {
            2
        } else {
            1
        };
        self.walls as u64 * factor + self.soldiers as u64
    }

    pub fn lost(&self) -> (r: bool)
        ensures
            r == self.is_lost(),
    {
        self.obelisks == 0
    }

    pub fn won(&self) -> (r: bool)
        ensures
            r == self.is_won(),
    {
        self.obelisks == MAX_OBELISKS
    }

    pub fn can_play(&self) -> (r: bool)
        ensures
            r == self.is_playing(),
    {
        !self.lost() && !self.won()
    }
}

/// One attack for each of the given players that is still playing, in order.
pub open spec fn attack_options(others: Seq<(usize, Player)>) -> Seq<Action>
    decreases others.len(),
{
    if others.len() == 0 {
        seq![]
    } else {
        let rest = attack_options(others.drop_last());
        if others.last().1.is_playing() {
            rest.push(Action::Attack(others.last().0))
        } else {
            rest
        }
    }
}

/// The players other than `index` among the first `k`, with their indices.
pub open spec fn others_below(players: Seq<Player>, index: int, k: int) -> Seq<(usize, Player)>
    decreases k,
{
    if k <= 0 {
        seq![]
    } else {
        let rest = others_below(players, index, k - 1);
        if k - 1 == index {
            rest
        } else {
            rest.push(((k - 1) as usize, players[k - 1]))
        }
    }
}

/// The players other than `index`, with their indices, in order.
pub open spec fn others_of(players: Seq<Player>, index: int) -> Seq<(usize, Player)> {
    others_below(players, index, players.len() as int)
}

/// The players other than `index`, with their indices, in order.
pub fn opponents(players: &Vec<Player>, index: usize) -> (r: Vec<(usize, Player)>)
    ensures
        r@ == others_of(players@, index as int),
{
    let mut r: Vec<(usize, Player)> = Vec::with_capacity(players.len());
    let mut k: usize = 0;
    while k < players.len()
        invariant
            k <= players.len(),
            r@ == others_below(players@, index as int, k as int),
        decreases players.len() - k,
    {
        if k != index {
            r.push((k, players[k]));
        }
        k += 1;
    }
    r
}

impl PartialEq for Player {
    fn eq(&self, other: &Player) -> (r: bool)
        ensures
            r == self.same_stats(*other),
    {
        self.soldiers == other.soldiers && self.walls == other.walls && self.defense
            == other.defense && self.barracks == other.barracks && self.obelisks == other.obelisks
    }
}

impl vstd::std_specs::cmp::PartialEqSpecImpl for Player {
    open spec fn obeys_eq_spec() -> bool {
        true
    }

    open spec fn eq_spec(&self, other: &Player) -> bool {
        self.same_stats(*other)
    }
}

impl From<Option<Action>> for Action {
    fn from(opt: Option<Action>) -> (r: Action)
        ensures
            r == Action::from_option(opt),
    {
        match opt {
            Some(action) => action,
            None => Action::Idle,
        }
    }
}

impl vstd::std_specs::convert::FromSpecImpl<Option<Action>> for Action {
    open spec fn obeys_from_spec() -> bool {
        true
    }

    open spec fn from_spec(opt: Option<Action>) -> Action {
        Action::from_option(opt)
    }
}

impl Action {
    /// A missing action reads as `Idle`.
    pub open spec fn from_option(opt: Option<Action>) -> Action {
        match opt {
            Some(action) => action,
            Option::None => Action::Idle,
        }
    }

    /// The action keeps the player from helping to defend its own walls.
    pub open spec fn keeps_busy(self) -> bool {
        match self {
            Action::Attack(_) | Action::Recruit => true,
            _ => false,
        }
    }
}

} // verus!
