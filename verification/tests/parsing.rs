use caribbean::game::{Entity, Owner, Speed};
use caribbean::hex::Direction;
use caribbean::read::{
    parse_direction, parse_i32, parse_owner, parse_speed, parse_usize, read_entity, read_one_turn,
    split_input_line, ReadError,
};

fn chars(s: &str) -> Vec<char> {
    s.chars().collect()
}

#[test]
fn direction_codes_round_trip_distinct() {
    let got: Vec<Direction> = ["0", "1", "2", "3", "4", "5"]
        .iter()
        .map(|s| parse_direction(&chars(s)).unwrap())
        .collect();
    assert_eq!(
        got,
        vec![
            Direction::East,
            Direction::SouthEast,
            Direction::SouthWest,
            Direction::West,
            Direction::NorthWest,
            Direction::NorthEast,
        ]
    );
    for i in 0..got.len() {
        for j in 0..got.len() {
            if i != j {
                assert_ne!(got[i], got[j]);
            }
        }
    }
}

#[test]
fn direction_bad_codes_fail() {
    for s in ["6", "9", "x", "", "01", "-1", " 0"] {
        assert_eq!(parse_direction(&chars(s)), Err(ReadError::ParseFailure));
    }
}

#[test]
fn speed_codes() {
    assert_eq!(parse_speed(&chars("0")), Ok(Speed::Stop));
    assert_eq!(parse_speed(&chars("1")), Ok(Speed::Half));
    assert_eq!(parse_speed(&chars("2")), Ok(Speed::Full));
    assert_eq!(parse_speed(&chars("3")), Err(ReadError::ParseFailure));
}

#[test]
fn owner_codes() {
    assert_eq!(parse_owner(&chars("0")), Ok(Owner::Opponent));
    assert_eq!(parse_owner(&chars("1")), Ok(Owner::Me));
    assert_eq!(parse_owner(&chars("2")), Err(ReadError::ParseFailure));
}

#[test]
fn unsigned_tokens() {
    assert_eq!(parse_usize(&chars("0")), Ok(0));
    assert_eq!(parse_usize(&chars("123")), Ok(123));
    assert_eq!(parse_usize(&chars("007")), Ok(7));
    assert_eq!(parse_usize(&chars("")), Err(ReadError::ParseFailure));
    assert_eq!(parse_usize(&chars("12a")), Err(ReadError::ParseFailure));
    assert_eq!(parse_usize(&chars("-1")), Err(ReadError::ParseFailure));
    assert_eq!(
        parse_usize(&chars("999999999999999999999999999999")),
        Err(ReadError::ParseFailure)
    );
}

#[test]
fn signed_tokens() {
    assert_eq!(parse_i32(&chars("5")), Ok(5));
    assert_eq!(parse_i32(&chars("-5")), Ok(-5));
    assert_eq!(parse_i32(&chars("+7")), Ok(7));
    assert_eq!(parse_i32(&chars("2147483647")), Ok(2147483647));
    assert_eq!(parse_i32(&chars("-2147483648")), Ok(-2147483648));
    assert_eq!(parse_i32(&chars("2147483648")), Err(ReadError::ParseFailure));
    assert_eq!(parse_i32(&chars("-2147483649")), Err(ReadError::ParseFailure));
    assert_eq!(parse_i32(&chars("")), Err(ReadError::ParseFailure));
    assert_eq!(parse_i32(&chars("-")), Err(ReadError::ParseFailure));
    assert_eq!(parse_i32(&chars("1-2")), Err(ReadError::ParseFailure));
}

#[test]
fn tokenizer_splits_on_whitespace() {
    let toks = split_input_line("  0  SHIP 5\t5 ");
    let toks: Vec<String> = toks.iter().map(|t| t.iter().collect()).collect();
    assert_eq!(toks, vec!["0", "SHIP", "5", "5"]);
    assert_eq!(split_input_line("").len(), 0);
    assert_eq!(split_input_line("   ").len(), 0);
    let toks = split_input_line("4\u{a0}MINE\u{2003}7\n8\r");
    let toks: Vec<String> = toks.iter().map(|t| t.iter().collect()).collect();
    assert_eq!(toks, vec!["4", "MINE", "7", "8"]);
}

#[test]
fn ship_line_decodes_every_field() {
    let e = read_entity("0 SHIP 5 5 0 1 50 1").unwrap();
    match e {
        Entity::Ship(s) => {
            assert_eq!(s.entity_id.0, 0);
            assert_eq!(s.position.x, 5);
            assert_eq!(s.position.y, 5);
            assert_eq!(s.rotation, Direction::East);
            assert_eq!(s.speed, Speed::Half);
            assert_eq!(s.rum_count.0, 50);
            assert_eq!(s.owner, Owner::Me);
        }
        _ => panic!("expected a ship"),
    }
    assert_eq!(e.id().0, 0);
}

#[test]
fn barrel_line_decodes() {
    let e = read_entity("3 BARREL 10 12 18").unwrap();
    match e {
        Entity::Barrel(b) => {
            assert_eq!(b.entity_id.0, 3);
            assert_eq!(b.position.x, 10);
            assert_eq!(b.position.y, 12);
            assert_eq!(b.rum_count.0, 18);
        }
        _ => panic!("expected a barrel"),
    }
}

#[test]
fn cannonball_line_decodes() {
    let e = read_entity("9 CANNONBALL 4 6 2 3").unwrap();
    match e {
        Entity::CannonBall(c) => {
            assert_eq!(c.entity_id.0, 9);
            assert_eq!(c.position.x, 4);
            assert_eq!(c.position.y, 6);
            assert_eq!(c.firer.0, 2);
            assert_eq!(c.impact_count.0, 3);
        }
        _ => panic!("expected a cannonball"),
    }
}

#[test]
fn mine_line_decodes() {
    let e = read_entity("4 MINE 7 8").unwrap();
    match e {
        Entity::Mine(m) => {
            assert_eq!(m.entity_id.0, 4);
            assert_eq!(m.position.x, 7);
            assert_eq!(m.position.y, 8);
        }
        _ => panic!("expected a mine"),
    }
}

#[test]
fn extra_tokens_are_ignored() {
    let a = read_entity("4 MINE 7 8").unwrap();
    let b = read_entity("4 MINE 7 8 99 trailing junk").unwrap();
    assert_eq!(a, b);
}

#[test]
fn unknown_kind_fails() {
    assert_eq!(read_entity("7 UNKNOWN 1 2"), Err(ReadError::UnknownEntityKind));
    assert_eq!(read_entity(""), Err(ReadError::UnknownEntityKind));
    assert_eq!(read_entity("7"), Err(ReadError::UnknownEntityKind));
}

#[test]
fn known_kind_with_bad_fields_fails() {
    assert_eq!(read_entity("1 SHIP 2 3"), Err(ReadError::ParseFailure));
    assert_eq!(read_entity("1 SHIP 2 3 9 1 50 1"), Err(ReadError::ParseFailure));
    assert_eq!(read_entity("x MINE 7 8"), Err(ReadError::ParseFailure));
    assert_eq!(read_entity("1 BARREL 2 b 3"), Err(ReadError::ParseFailure));
}

fn lines(v: &[&str]) -> Vec<String> {
    v.iter().map(|s| s.to_string()).collect()
}

#[test]
fn malformed_entity_aborts_whole_turn() {
    let r = read_one_turn(&lines(&["1", "2", "0 MINE 1 1", "7 UNKNOWN 1 2"]));
    assert_eq!(r.err().unwrap(), ReadError::UnknownEntityKind);
}

#[test]
fn truncated_input_fails() {
    assert_eq!(read_one_turn(&lines(&[])).err().unwrap(), ReadError::TruncatedInput);
    assert_eq!(read_one_turn(&lines(&["1"])).err().unwrap(), ReadError::TruncatedInput);
    assert_eq!(
        read_one_turn(&lines(&["1", "2", "0 MINE 1 1"])).err().unwrap(),
        ReadError::TruncatedInput
    );
}

#[test]
fn bad_counts_fail() {
    assert_eq!(
        read_one_turn(&lines(&["x", "0"])).err().unwrap(),
        ReadError::ParseFailure
    );
    assert_eq!(
        read_one_turn(&lines(&["1", "y"])).err().unwrap(),
        ReadError::ParseFailure
    );
}
