use caribbean::game::{
    baseline_actions, Barrel, CannonBall, CaribbeanGameRule, EntityId, Mine, Owner, RumCount,
    Ship, ShipAction, Speed, StaticGameRule, Turn,
};
use caribbean::hex::{Direction, HexCoordinate};
use caribbean::read::read_one_turn;
use std::collections::HashMap;

fn lines(v: &[&str]) -> Vec<String> {
    v.iter().map(|s| s.to_string()).collect()
}

#[test]
fn one_ship_turn_snapshot() {
    let g = read_one_turn(&lines(&["1", "1", "0 SHIP 5 5 0 1 50 1"])).unwrap();
    assert_eq!(g.ship_count(), 1);
    assert_eq!(g.ships().len(), 1);
    assert_eq!(g.barrels().len(), 0);
    assert_eq!(g.cannon_balls().len(), 0);
    assert_eq!(g.mines().len(), 0);
    let s = g.ships().get(&0).unwrap();
    assert_eq!(s.entity_id.0, 0);
    assert_eq!(s.position.x, 5);
    assert_eq!(s.position.y, 5);
    assert_eq!(s.rotation, Direction::East);
    assert_eq!(s.speed, Speed::Half);
    assert_eq!(s.rum_count.0, 50);
    assert_eq!(s.owner, Owner::Me);
    assert_eq!(g.current().0, 0);
    // absent any policy, the documented baseline is one WAIT per owned ship
    let acts = baseline_actions(&g);
    assert_eq!(acts, vec![ShipAction::Wait]);
}

#[test]
fn id_union_has_entity_count_size() {
    let g = read_one_turn(&lines(&[
        "1",
        "4",
        "0 SHIP 5 5 0 1 50 1",
        "1 BARREL 10 12 18",
        "2 CANNONBALL 4 6 0 3",
        "3 MINE 7 8",
    ]))
    .unwrap();
    let total = g.ships().len() + g.barrels().len() + g.cannon_balls().len() + g.mines().len();
    assert_eq!(total, 4);
    for id in 0..4usize {
        let hits = [
            g.ships().contains_key(&id),
            g.barrels().contains_key(&id),
            g.cannon_balls().contains_key(&id),
            g.mines().contains_key(&id),
        ]
        .iter()
        .filter(|b| **b)
        .count();
        assert_eq!(hits, 1);
    }
}

#[test]
fn board_constants() {
    let s = StaticGameRule::new();
    assert_eq!(s.width, 23);
    assert_eq!(s.height, 21);
}

#[test]
fn hex_coordinate_accessors() {
    let c = HexCoordinate::new(-3, 9);
    assert_eq!(c.x(), -3);
    assert_eq!(c.y(), 9);
    assert_eq!(c, HexCoordinate::new(-3, 9));
}

#[test]
fn entity_constructors_keep_fields() {
    let id = EntityId(11);
    let pos = HexCoordinate::new(1, 2);
    let ship = Ship::new(&id, &pos, &Direction::West, &Speed::Full, &RumCount(9), &Owner::Opponent);
    assert_eq!(ship.entity_id, id);
    assert_eq!(ship.position, pos);
    assert_eq!(ship.rotation, Direction::West);
    assert_eq!(ship.speed, Speed::Full);
    assert_eq!(ship.rum_count, RumCount(9));
    assert_eq!(ship.owner, Owner::Opponent);

    let barrel = Barrel::new(&id, &pos, &RumCount(20));
    assert_eq!(barrel.entity_id, id);
    assert_eq!(barrel.rum_count, RumCount(20));

    let ball = CannonBall::new(&id, &pos, &EntityId(1), &Turn(2));
    assert_eq!(ball.firer, EntityId(1));
    assert_eq!(ball.impact_count, Turn(2));

    let mine = Mine::new(&id, &pos);
    assert_eq!(mine.entity_id, id);
    assert_eq!(mine.position, pos);
}

#[test]
fn snapshot_built_by_hand() {
    let mut ships: HashMap<usize, Ship> = HashMap::new();
    ships.insert(
        5,
        Ship::new(
            &EntityId(5),
            &HexCoordinate::new(2, 2),
            &Direction::East,
            &Speed::Stop,
            &RumCount(1),
            &Owner::Me,
        ),
    );
    let g = CaribbeanGameRule::new(
        &StaticGameRule::new(),
        1,
        ships,
        HashMap::new(),
        HashMap::new(),
        HashMap::new(),
    );
    assert_eq!(g.ship_count(), 1);
    assert_eq!(g.static_game_rule().width, 23);
    assert!(g.ships().contains_key(&5));
    assert_eq!(g.current(), Turn(0));
}
