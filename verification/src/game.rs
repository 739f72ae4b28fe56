//! Typed identifiers, the four entity variants, and the per-turn snapshot.

use vstd::prelude::*;
use std::collections::HashMap;
use crate::hex::{Direction, HexCoordinate};

verus! {

broadcast use vstd::std_specs::hash::group_hash_axioms;

/// A non-negative turn counter; on a cannonball it counts the turns left
/// until impact.
#[derive(Debug, Clone, Copy, Eq, PartialEq, Structural)]
pub struct Turn(pub usize);

/// An opaque non-negative identifier, unique within one turn snapshot.
#[derive(Debug, Clone, Copy, Eq, PartialEq, Structural)]
pub struct EntityId(pub usize);

/// A ship's discrete speed, from the wire codes 0, 1, 2.
#[derive(Debug, Clone, Copy, Eq, PartialEq, Structural)]
pub enum Speed {
    Full,
    Half,
    Stop,
}

/// A non-negative rum quantity carried by ships and barrels.
#[derive(Debug, Clone, Copy, Eq, PartialEq, Structural)]
pub struct RumCount(pub usize);

/// Which side owns a ship, from the wire codes 0, 1.
#[derive(Debug, Clone, Copy, Eq, PartialEq, Structural)]
pub enum Owner {
    Me,
    Opponent,
}

#[derive(Debug, Clone, Copy, Eq, PartialEq, Structural)]
pub struct Ship {
    pub entity_id: EntityId,
    pub position: HexCoordinate,
    pub rotation: Direction,
    pub speed: Speed,
    pub rum_count: RumCount,
    pub owner: Owner,
}

impl Ship {
    pub fn new(
        entity_id: &EntityId,
        position: &HexCoordinate,
        rotation: &Direction,
        speed: &Speed,
        rum_count: &RumCount,
        owner: &Owner,
    ) -> (r: Self)
        ensures
            r == (Ship {
                entity_id: *entity_id,
                position: *position,
                rotation: *rotation,
                speed: *speed,
                rum_count: *rum_count,
                owner: *owner,
            }),
    {
        Ship {
            entity_id: *entity_id,
            position: *position,
            rotation: *rotation,
            speed: *speed,
            rum_count: *rum_count,
            owner: *owner,
        }
    }
}

#[derive(Debug, Clone, Copy, Eq, PartialEq, Structural)]
pub struct Barrel {
    pub entity_id: EntityId,
    pub position: HexCoordinate,
    pub rum_count: RumCount,
}

impl Barrel {
    pub fn new(entity_id: &EntityId, position: &HexCoordinate, rum_count: &RumCount) -> (r: Self)
        ensures
            r == (Barrel { entity_id: *entity_id, position: *position, rum_count: *rum_count }),
    {
        Barrel { entity_id: *entity_id, position: *position, rum_count: *rum_count }
    }
}

#[derive(Debug, Clone, Copy, Eq, PartialEq, Structural)]
pub struct CannonBall {
    pub entity_id: EntityId,
    pub position: HexCoordinate,
    pub firer: EntityId,
    pub impact_count: Turn,
}

impl CannonBall {
    pub fn new(
        entity_id: &EntityId,
        position: &HexCoordinate,
        firer: &EntityId,
        impact_count: &Turn,
    ) -> (r: Self)
        ensures
            r == (CannonBall {
                entity_id: *entity_id,
                position: *position,
                firer: *firer,
                impact_count: *impact_count,
            }),
    {
        CannonBall {
            entity_id: *entity_id,
            position: *position,
            firer: *firer,
            impact_count: *impact_count,
        }
    }
}

#[derive(Debug, Clone, Copy, Eq, PartialEq, Structural)]
pub struct Mine {
    pub entity_id: EntityId,
    pub position: HexCoordinate,
}

impl Mine {
    pub fn new(entity_id: &EntityId, position: &HexCoordinate) -> (r: Self)
        ensures
            r == (Mine { entity_id: *entity_id, position: *position }),
    {
        Mine { entity_id: *entity_id, position: *position }
    }
}

/// The sum of the four mutually exclusive entity kinds a wire line can carry.
#[derive(Debug, Clone, Copy, Eq, PartialEq, Structural)]
pub enum Entity {
    Ship(Ship),
    Barrel(Barrel),
    CannonBall(CannonBall),
    Mine(Mine),
}

impl Entity {
    /// The identifier this entity was keyed with on the wire.
    pub open spec fn spec_id(self) -> usize {
        match self {
            Entity::Ship(s) => s.entity_id.0,
            Entity::Barrel(b) => b.entity_id.0,
            Entity::CannonBall(c) => c.entity_id.0,
            Entity::Mine(m) => m.entity_id.0,
        }
    }

    pub fn id(&self) -> (r: EntityId)
        ensures
            r.0 == self.spec_id(),
    {
        match self {
            Entity::Ship(s) => s.entity_id,
            Entity::Barrel(b) => b.entity_id,
            Entity::CannonBall(c) => c.entity_id,
            Entity::Mine(m) => m.entity_id,
        }
    }
}

/// Immutable board constants, fixed for the game's lifetime.
#[derive(Debug, Clone, Copy, Eq, PartialEq, Structural)]
pub struct StaticGameRule {
    pub width: usize,
    pub height: usize,
}

impl StaticGameRule {
    pub fn new() -> (r: Self)
        ensures
            r.width == 23,
            r.height == 21,
    {
        StaticGameRule { width: 23, height: 21 }
    }
}

/// One turn's snapshot: board constants, the count of ships owned by this
/// side, the four entity maps keyed by entity id, and the turn counter.
#[derive(Debug)]
pub struct CaribbeanGameRule {
    static_game_rule: StaticGameRule,
    pub my_ship_count: usize,
    ships: HashMap<usize, Ship>,
    barrels: HashMap<usize, Barrel>,
    cannon_balls: HashMap<usize, CannonBall>,
    mines: HashMap<usize, Mine>,
    current: Turn,
}

impl CaribbeanGameRule {
    pub closed spec fn spec_static(self) -> StaticGameRule {
        self.static_game_rule
    }

    pub closed spec fn spec_my_ship_count(self) -> usize {
        self.my_ship_count
    }

    pub closed spec fn spec_ships(self) -> Map<usize, Ship> {
        self.ships@
    }

    pub closed spec fn spec_barrels(self) -> Map<usize, Barrel> {
        self.barrels@
    }

    pub closed spec fn spec_cannon_balls(self) -> Map<usize, CannonBall> {
        self.cannon_balls@
    }

    pub closed spec fn spec_mines(self) -> Map<usize, Mine> {
        self.mines@
    }

    pub closed spec fn spec_current(self) -> Turn {
        self.current
    }

    /// Builds the snapshot for one turn. The maps are taken over whole, so
    /// the snapshot shares no mutable state with whoever assembled them.
    pub fn new(
        static_game_rule: &StaticGameRule,
        my_ship_count: usize,
        ships: HashMap<usize, Ship>,
        barrels: HashMap<usize, Barrel>,
        cannon_balls: HashMap<usize, CannonBall>,
        mines: HashMap<usize, Mine>,
    ) -> (r: Self)
        ensures
            r.spec_static() == *static_game_rule,
            r.spec_my_ship_count() == my_ship_count,
            r.spec_ships() == ships@,
            r.spec_barrels() == barrels@,
            r.spec_cannon_balls() == cannon_balls@,
            r.spec_mines() == mines@,
            r.spec_current() == Turn(0usize),
    {
        CaribbeanGameRule {
            static_game_rule: *static_game_rule,
            my_ship_count,
            ships,
            barrels,
            cannon_balls,
            mines,
            current: Turn(0),
        }
    }

    pub fn ship_count(&self) -> (r: usize)
        ensures
            r == self.spec_my_ship_count(),
    {
        self.my_ship_count
    }

    pub fn static_game_rule(&self) -> (r: &StaticGameRule)
        ensures
            *r == self.spec_static(),
    {
        &self.static_game_rule
    }

    pub fn ships(&self) -> (r: &HashMap<usize, Ship>)
        ensures
            r@ == self.spec_ships(),
    {
        &self.ships
    }

    pub fn barrels(&self) -> (r: &HashMap<usize, Barrel>)
        ensures
            r@ == self.spec_barrels(),
    {
        &self.barrels
    }

    pub fn cannon_balls(&self) -> (r: &HashMap<usize, CannonBall>)
        ensures
            r@ == self.spec_cannon_balls(),
    {
        &self.cannon_balls
    }

    pub fn mines(&self) -> (r: &HashMap<usize, Mine>)
        ensures
            r@ == self.spec_mines(),
    {
        &self.mines
    }

    pub fn current(&self) -> (r: Turn)
        ensures
            r == self.spec_current(),
    {
        self.current
    }
}

/// The action vocabulary one ship may use in one turn.
#[derive(Debug, Clone, Copy, Eq, PartialEq, Structural)]
pub enum ShipAction {
    Move(HexCoordinate),
    Fire(HexCoordinate),
    Mine,
    Port,
    Starboard,
    Faster,
    Slower,
    Wait,
}

/// The baseline per-turn decision absent any policy: every owned ship
/// waits, one action per owned ship in ship order.
pub fn baseline_actions(game: &CaribbeanGameRule) -> (r: Vec<ShipAction>)
    ensures
        r@.len() == game.spec_my_ship_count(),
        forall|i: int| 0 <= i < r@.len() ==> r@[i] == ShipAction::Wait,
{
    let n = game.ship_count();
    let mut r: Vec<ShipAction> = Vec::new();
    let mut i: usize = 0;
    while i < n
        invariant
            i <= n,
            r@.len() == i,
            forall|j: int| 0 <= j < r@.len() ==> r@[j] == ShipAction::Wait,
        decreases n - i,
    {
        r.push(ShipAction::Wait);
        i = i + 1;
    }
    r
}

} // verus!
