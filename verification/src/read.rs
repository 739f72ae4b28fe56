//! The per-turn wire format: tokenizing entity lines, decoding the typed
//! fields, and building the turn snapshot.

use vstd::prelude::*;
use std::collections::HashMap;
use crate::game::{
    Barrel, CannonBall, CaribbeanGameRule, Entity, EntityId, Mine, Owner, RumCount, Ship, Speed,
    StaticGameRule, Turn,
};
use crate::hex::{Direction, HexCoordinate};

verus! {

broadcast use vstd::std_specs::hash::group_hash_axioms;

/// Why one turn's input could not be decoded. Any failure aborts the whole
/// snapshot: a partial snapshot is never produced.
#[derive(Debug, Clone, Copy, Eq, PartialEq, Structural)]
pub enum ReadError {
    /// A numeric or enumerated field could not be decoded from its token.
    ParseFailure,
    /// An entity line's type tag matches none of the four known kinds.
    UnknownEntityKind,
    /// Fewer lines were available than the declared counts require.
    TruncatedInput,
}

/// The token separators of the wire format: any Unicode whitespace
/// character.
pub open spec fn is_space(c: char) -> bool {
    let u = c as u32;
    (9 <= u <= 13) || u == 32 || u == 133 || u == 160 || u == 5760 || (8192 <= u <= 8202)
        || u == 8232 || u == 8233 || u == 8239 || u == 8287 || u == 12288
}

/// Splits into maximal runs of non-separator characters, with `cur` the run
/// in progress.
pub open spec fn tokenize_acc(s: Seq<char>, cur: Seq<char>) -> Seq<Seq<char>>
    decreases s.len(),
{
    if s.len() == 0 {
        if cur.len() == 0 {
            Seq::empty()
        } else {
            seq![cur]
        }
    } else if is_space(s[0]) {
        if cur.len() == 0 {
            tokenize_acc(s.drop_first(), Seq::empty())
        } else {
            seq![cur] + tokenize_acc(s.drop_first(), Seq::empty())
        }
    } else {
        tokenize_acc(s.drop_first(), cur.push(s[0]))
    }
}

/// The whitespace-delimited tokens of one input line.
pub open spec fn tokenize(s: Seq<char>) -> Seq<Seq<char>> {
    tokenize_acc(s, Seq::empty())
}

fn is_space_char(c: char) -> (r: bool)
    ensures
        r == is_space(c),
{
    let u = c as u32;
    (9 <= u && u <= 13) || u == 32 || u == 133 || u == 160 || u == 5760 || (8192 <= u && u
        <= 8202) || u == 8232 || u == 8233 || u == 8239 || u == 8287 || u == 12288
}

/// The characters of `s`, in order.
fn str_chars(s: &str) -> (r: Vec<char>)
    ensures
        r@ == s@,
{
    let n = s.unicode_len();
    let mut r: Vec<char> = Vec::new();
    let mut i: usize = 0;
    while i < n
        invariant
            i <= n,
            n == s@.len(),
            r@ =~= s@.take(i as int),
        decreases n - i,
    {
        r.push(s.get_char(i));
        proof {
            assert(r@ =~= s@.take(i as int + 1));
        }
        i = i + 1;
    }
    proof {
        assert(s@.take(n as int) =~= s@);
    }
    r
}

/// Splits one input line into its whitespace-delimited tokens.
pub fn split_input_line(line: &str) -> (r: Vec<Vec<char>>)
    ensures
        r.deep_view() == tokenize(line@),
{
    let n = line.unicode_len();
    let mut toks: Vec<Vec<char>> = Vec::new();
    let mut cur: Vec<char> = Vec::new();
    let mut i: usize = 0;
    proof {
        assert(line@.skip(0) =~= line@);
    }
    while i < n
        invariant
            i <= n,
            n == line@.len(),
            tokenize(line@) == toks.deep_view() + tokenize_acc(line@.skip(i as int), cur@),
        decreases n - i,
    {
        let c = line.get_char(i);
        let ghost rest = line@.skip(i as int);
        proof {
            assert(rest[0] == line@[i as int]);
            assert(rest.drop_first() =~= line@.skip(i as int + 1));
        }
        if is_space_char(c) {
            if cur.len() > 0 {
                let ghost old_toks = toks.deep_view();
                let ghost curv = cur@;
                toks.push(cur);
                cur = Vec::new();
                proof {
                    assert(tokenize_acc(rest, curv) == seq![curv] + tokenize_acc(
                        rest.drop_first(),
                        Seq::empty(),
                    ));
                    assert(toks.deep_view() =~~= old_toks.push(curv));
                    assert(old_toks + (seq![curv] + tokenize_acc(
                        rest.drop_first(),
                        Seq::<char>::empty(),
                    )) =~= toks.deep_view() + tokenize_acc(
                        rest.drop_first(),
                        Seq::<char>::empty(),
                    ));
                    assert(cur@ =~= Seq::<char>::empty());
                }
            } else {
                proof {
                    assert(cur@ =~= Seq::<char>::empty());
                }
            }
        } else {
            cur.push(c);
        }
        i = i + 1;
    }
    proof {
        assert(line@.skip(n as int) =~= Seq::<char>::empty());
    }
    if cur.len() > 0 {
        let ghost old_toks = toks.deep_view();
        let ghost curv = cur@;
        toks.push(cur);
        proof {
            assert(tokenize_acc(Seq::<char>::empty(), curv) == seq![curv]);
            assert(toks.deep_view() =~~= old_toks.push(curv));
            assert(old_toks + seq![curv] =~= toks.deep_view());
        }
    } else {
        proof {
            assert(cur@ =~= Seq::<char>::empty());
            assert(tokenize_acc(Seq::<char>::empty(), Seq::<char>::empty())
                == Seq::<Seq<char>>::empty());
            assert(toks.deep_view() + Seq::<Seq<char>>::empty() =~= toks.deep_view());
        }
    }
    toks
}

/// A decimal digit.
pub open spec fn is_digit(c: char) -> bool {
    48 <= c as u32 <= 57
}

pub open spec fn digit_val(c: char) -> int {
    c as u32 - 48
}

pub open spec fn all_digits(s: Seq<char>) -> bool {
    forall|i: int| 0 <= i < s.len() ==> is_digit(#[trigger] s[i])
}

/// The value of an unsigned decimal numeral.
pub open spec fn dec_val(s: Seq<char>) -> int
    decreases s.len(),
{
    if s.len() == 0 {
        0
    } else {
        dec_val(s.drop_last()) * 10 + digit_val(s.last())
    }
}

/// A token that `parse_usize` accepts.
pub open spec fn usize_ok(s: Seq<char>) -> bool {
    s.len() > 0 && all_digits(s) && dec_val(s) <= usize::MAX
}

proof fn lemma_dec_val_nonneg(s: Seq<char>)
    requires
        all_digits(s),
    ensures
        dec_val(s) >= 0,
    decreases s.len(),
{
    if s.len() > 0 {
        assert(all_digits(s.drop_last()));
        lemma_dec_val_nonneg(s.drop_last());
    }
}

proof fn lemma_dec_val_prefix(s: Seq<char>, k: int)
    requires
        all_digits(s),
        0 <= k <= s.len(),
    ensures
        dec_val(s.take(k)) <= dec_val(s),
    decreases s.len() - k,
{
    if k == s.len() {
        assert(s.take(k) =~= s);
    } else {
        lemma_dec_val_prefix(s, k + 1);
        assert(s.take(k + 1).drop_last() =~= s.take(k));
        assert(s.take(k + 1).last() == s[k]);
        assert(all_digits(s.take(k)));
        lemma_dec_val_nonneg(s.take(k));
        assert(dec_val(s.take(k + 1)) == dec_val(s.take(k)) * 10 + digit_val(s[k]));
        assert(dec_val(s.take(k)) <= dec_val(s.take(k + 1)));
    }
}

/// Decodes an unsigned decimal token, as a non-negative count field.
/// Fails on an empty token, any non-digit character, or overflow.
pub fn parse_usize(t: &Vec<char>) -> (r: Result<usize, ReadError>)
    ensures
        r is Ok <==> usize_ok(t@),
        r is Ok ==> r->Ok_0 == dec_val(t@),
        r is Err ==> r->Err_0 == ReadError::ParseFailure,
{
    if t.len() == 0 {
        return Err(ReadError::ParseFailure);
    }
    let mut acc: usize = 0;
    let mut i: usize = 0;
    proof {
        assert(t@.take(0) =~= Seq::<char>::empty());
    }
    while i < t.len()
        invariant
            i <= t@.len(),
            t@.len() > 0,
            forall|j: int| 0 <= j < i ==> is_digit(#[trigger] t@[j]),
            acc == dec_val(t@.take(i as int)),
        decreases t@.len() - i,
    {
        let c = t[i];
        let u = c as u32;
        if u < 48 || u > 57 {
            proof {
                assert(!is_digit(t@[i as int]));
            }
            return Err(ReadError::ParseFailure);
        }
        let d = (u - 48) as usize;
        let next = match acc.checked_mul(10) {
            Some(m) => m.checked_add(d),
            None => None,
        };
        match next {
            Some(v) => {
                proof {
                    assert(t@.take(i as int + 1).drop_last() =~= t@.take(i as int));
                    assert(t@.take(i as int + 1).last() == t@[i as int]);
                }
                acc = v;
            },
            None => {
                proof {
                    // the numeral read so far is already beyond usize range
                    assert(t@.take(i as int + 1).drop_last() =~= t@.take(i as int));
                    assert(t@.take(i as int + 1).last() == t@[i as int]);
                    assert(dec_val(t@.take(i as int + 1)) > usize::MAX);
                    if all_digits(t@) {
                        lemma_dec_val_prefix(t@, i as int + 1);
                    }
                }
                return Err(ReadError::ParseFailure);
            },
        }
        i = i + 1;
    }
    proof {
        assert(t@.take(t@.len() as int) =~= t@);
    }
    Ok(acc)
}

/// The signed shape `parse_i32` accepts: an optional sign, then digits.
pub open spec fn i32_shape_ok(s: Seq<char>) -> bool {
    if s.len() == 0 {
        false
    } else if s[0] == '-' || s[0] == '+' {
        s.len() >= 2 && all_digits(s.skip(1))
    } else {
        all_digits(s)
    }
}

/// The value of a signed decimal numeral.
pub open spec fn i32_val(s: Seq<char>) -> int {
    if s.len() > 0 && s[0] == '-' {
        -dec_val(s.skip(1))
    } else if s.len() > 0 && s[0] == '+' {
        dec_val(s.skip(1))
    } else {
        dec_val(s)
    }
}

/// A token that `parse_i32` accepts.
pub open spec fn i32_ok(s: Seq<char>) -> bool {
    i32_shape_ok(s) && i32::MIN <= i32_val(s) <= i32::MAX
}

/// Decodes a signed decimal token, as a coordinate field.
pub fn parse_i32(t: &Vec<char>) -> (r: Result<i32, ReadError>)
    ensures
        r is Ok <==> i32_ok(t@),
        r is Ok ==> r->Ok_0 == i32_val(t@),
        r is Err ==> r->Err_0 == ReadError::ParseFailure,
{
    if t.len() == 0 {
        return Err(ReadError::ParseFailure);
    }
    let c0 = t[0];
    let negative = c0 == '-';
    let signed = negative || c0 == '+';
    let start: usize = if signed { 1 } else { 0 };
    let ghost digits = t@.skip(start as int);
    proof {
        if start == 0 {
            assert(t@.skip(0) =~= t@);
        }
    }
    if t.len() <= start {
        return Err(ReadError::ParseFailure);
    }
    let mut acc: u64 = 0;
    let mut i: usize = start;
    proof {
        assert(digits.take(0) =~= Seq::<char>::empty());
    }
    while i < t.len()
        invariant
            start <= i <= t@.len(),
            start < t@.len(),
            start == 0 || start == 1,
            (t@[0] == '-' || t@[0] == '+') <==> start == 1,
            digits == t@.skip(start as int),
            forall|j: int| start <= j < i ==> is_digit(#[trigger] t@[j]),
            acc == dec_val(digits.take(i - start)),
            acc <= 2147483648,
        decreases t@.len() - i,
    {
        let c = t[i];
        let u = c as u32;
        if u < 48 || u > 57 {
            proof {
                assert(!is_digit(t@[i as int]));
                assert(digits[i - start] == t@[i as int]);
            }
            return Err(ReadError::ParseFailure);
        }
        let d = (u - 48) as u64;
        let next: u64 = acc * 10 + d;
        proof {
            assert(digits.take(i - start + 1).drop_last() =~= digits.take(i - start));
            assert(digits.take(i - start + 1).last() == digits[i - start]);
            assert(digits[i - start] == t@[i as int]);
        }
        if next > 2147483648 {
            proof {
                assert(dec_val(digits.take(i - start + 1)) > 2147483648);
                if all_digits(digits) {
                    lemma_dec_val_prefix(digits, i - start + 1);
                    assert(dec_val(digits) > 2147483648);
                }
                if start == 0 {
                    assert(t@.skip(0) =~= t@);
                }
                assert(!i32_ok(t@));
            }
            return Err(ReadError::ParseFailure);
        }
        acc = next;
        i = i + 1;
    }
    proof {
        assert(digits.take(t@.len() - start) =~= digits);
        assert(all_digits(digits));
    }
    if negative {
        proof {
            assert(i32_val(t@) == -(acc as int));
        }
        Ok((-(acc as i64)) as i32)
    } else if acc > 2147483647 {
        proof {
            assert(i32_val(t@) == acc as int);
        }
        Err(ReadError::ParseFailure)
    } else {
        proof {
            assert(i32_val(t@) == acc as int);
        }
        Ok(acc as i32)
    }
}


/// Whether the token equals the literal, character for character.
fn token_eq(t: &Vec<char>, lit: &str) -> (r: bool)
    ensures
        r == (t@ == lit@),
{
    let n = lit.unicode_len();
    if t.len() != n {
        proof {
            assert(t@.len() != lit@.len());
        }
        return false;
    }
    let mut i: usize = 0;
    while i < n
        invariant
            i <= n,
            n == lit@.len(),
            n == t@.len(),
            forall|j: int| 0 <= j < i ==> t@[j] == lit@[j],
        decreases n - i,
    {
        if t[i] != lit.get_char(i) {
            proof {
                if t@ == lit@ {
                    assert(t@[i as int] == lit@[i as int]);
                }
            }
            return false;
        }
        i = i + 1;
    }
    proof {
        assert(t@ =~= lit@);
    }
    true
}

/// The facing named by a wire rotation code.
pub open spec fn direction_code(s: Seq<char>) -> Option<Direction> {
    if s.len() != 1 {
        None
    } else if s[0] == '0' {
        Some(Direction::East)
    } else if s[0] == '1' {
        Some(Direction::SouthEast)
    } else if s[0] == '2' {
        Some(Direction::SouthWest)
    } else if s[0] == '3' {
        Some(Direction::West)
    } else if s[0] == '4' {
        Some(Direction::NorthWest)
    } else if s[0] == '5' {
        Some(Direction::NorthEast)
    } else {
        None
    }
}

/// Decodes a rotation token: exactly the codes 0 to 5 name a facing.
pub fn parse_direction(t: &Vec<char>) -> (r: Result<Direction, ReadError>)
    ensures
        r is Ok <==> direction_code(t@) is Some,
        r is Ok ==> Some(r->Ok_0) == direction_code(t@),
        r is Err ==> r->Err_0 == ReadError::ParseFailure,
{
    if t.len() != 1 {
        return Err(ReadError::ParseFailure);
    }
    let c = t[0];
    if c == '0' {
        Ok(Direction::East)
    } else if c == '1' {
        Ok(Direction::SouthEast)
    } else if c == '2' {
        Ok(Direction::SouthWest)
    } else if c == '3' {
        Ok(Direction::West)
    } else if c == '4' {
        Ok(Direction::NorthWest)
    } else if c == '5' {
        Ok(Direction::NorthEast)
    } else {
        Err(ReadError::ParseFailure)
    }
}

/// The speed named by a wire speed code.
pub open spec fn speed_code(s: Seq<char>) -> Option<Speed> {
    if s.len() != 1 {
        None
    } else if s[0] == '0' {
        Some(Speed::Stop)
    } else if s[0] == '1' {
        Some(Speed::Half)
    } else if s[0] == '2' {
        Some(Speed::Full)
    } else {
        None
    }
}

/// Decodes a speed token: exactly the codes 0, 1, 2 name a speed.
pub fn parse_speed(t: &Vec<char>) -> (r: Result<Speed, ReadError>)
    ensures
        r is Ok <==> speed_code(t@) is Some,
        r is Ok ==> Some(r->Ok_0) == speed_code(t@),
        r is Err ==> r->Err_0 == ReadError::ParseFailure,
{
    if t.len() != 1 {
        return Err(ReadError::ParseFailure);
    }
    let c = t[0];
    if c == '0' {
        Ok(Speed::Stop)
    } else if c == '1' {
        Ok(Speed::Half)
    } else if c == '2' {
        Ok(Speed::Full)
    } else {
        Err(ReadError::ParseFailure)
    }
}

/// The side named by a wire owner code.
pub open spec fn owner_code(s: Seq<char>) -> Option<Owner> {
    if s.len() != 1 {
        None
    } else if s[0] == '0' {
        Some(Owner::Opponent)
    } else if s[0] == '1' {
        Some(Owner::Me)
    } else {
        None
    }
}

/// Decodes an owner token: exactly the codes 0, 1 name a side.
pub fn parse_owner(t: &Vec<char>) -> (r: Result<Owner, ReadError>)
    ensures
        r is Ok <==> owner_code(t@) is Some,
        r is Ok ==> Some(r->Ok_0) == owner_code(t@),
        r is Err ==> r->Err_0 == ReadError::ParseFailure,
{
    if t.len() != 1 {
        return Err(ReadError::ParseFailure);
    }
    let c = t[0];
    if c == '0' {
        Ok(Owner::Opponent)
    } else if c == '1' {
        Ok(Owner::Me)
    } else {
        Err(ReadError::ParseFailure)
    }
}

/// Distinct rotation codes name distinct facings, and conversely: decoding
/// is injective, so each of the six codes round-trips to its own facing.
pub proof fn lemma_direction_codes_distinct(s1: Seq<char>, s2: Seq<char>)
    requires
        direction_code(s1) is Some,
        direction_code(s2) is Some,
        direction_code(s1) == direction_code(s2),
    ensures
        s1 == s2,
{
    assert(s1[0] == s2[0]);
    assert(s1 =~= s2);
}


/// The ship this line names, if its fields decode.
pub open spec fn spec_ship_line(toks: Seq<Seq<char>>) -> Result<Entity, ReadError> {
    if toks.len() < 8 {
        Err(ReadError::ParseFailure)
    } else if usize_ok(toks[0]) && i32_ok(toks[2]) && i32_ok(toks[3]) && direction_code(toks[4])
        is Some && speed_code(toks[5]) is Some && usize_ok(toks[6]) && owner_code(toks[7])
        is Some {
        Ok(
            Entity::Ship(
                Ship {
                    entity_id: EntityId(dec_val(toks[0]) as usize),
                    position: HexCoordinate {
                        x: i32_val(toks[2]) as i32,
                        y: i32_val(toks[3]) as i32,
                    },
                    rotation: direction_code(toks[4])->0,
                    speed: speed_code(toks[5])->0,
                    rum_count: RumCount(dec_val(toks[6]) as usize),
                    owner: owner_code(toks[7])->0,
                },
            ),
        )
    } else {
        Err(ReadError::ParseFailure)
    }
}

/// The barrel this line names, if its fields decode.
pub open spec fn spec_barrel_line(toks: Seq<Seq<char>>) -> Result<Entity, ReadError> {
    if toks.len() < 5 {
        Err(ReadError::ParseFailure)
    } else if usize_ok(toks[0]) && i32_ok(toks[2]) && i32_ok(toks[3]) && usize_ok(toks[4]) {
        Ok(
            Entity::Barrel(
                Barrel {
                    entity_id: EntityId(dec_val(toks[0]) as usize),
                    position: HexCoordinate {
                        x: i32_val(toks[2]) as i32,
                        y: i32_val(toks[3]) as i32,
                    },
                    rum_count: RumCount(dec_val(toks[4]) as usize),
                },
            ),
        )
    } else {
        Err(ReadError::ParseFailure)
    }
}

/// The cannonball this line names, if its fields decode.
pub open spec fn spec_cannon_ball_line(toks: Seq<Seq<char>>) -> Result<Entity, ReadError> {
    if toks.len() < 6 {
        Err(ReadError::ParseFailure)
    } else if usize_ok(toks[0]) && i32_ok(toks[2]) && i32_ok(toks[3]) && usize_ok(toks[4])
        && usize_ok(toks[5]) {
        Ok(
            Entity::CannonBall(
                CannonBall {
                    entity_id: EntityId(dec_val(toks[0]) as usize),
                    position: HexCoordinate {
                        x: i32_val(toks[2]) as i32,
                        y: i32_val(toks[3]) as i32,
                    },
                    firer: EntityId(dec_val(toks[4]) as usize),
                    impact_count: Turn(dec_val(toks[5]) as usize),
                },
            ),
        )
    } else {
        Err(ReadError::ParseFailure)
    }
}

/// The mine this line names, if its fields decode.
pub open spec fn spec_mine_line(toks: Seq<Seq<char>>) -> Result<Entity, ReadError> {
    if toks.len() < 4 {
        Err(ReadError::ParseFailure)
    } else if usize_ok(toks[0]) && i32_ok(toks[2]) && i32_ok(toks[3]) {
        Ok(
            Entity::Mine(
                Mine {
                    entity_id: EntityId(dec_val(toks[0]) as usize),
                    position: HexCoordinate {
                        x: i32_val(toks[2]) as i32,
                        y: i32_val(toks[3]) as i32,
                    },
                },
            ),
        )
    } else {
        Err(ReadError::ParseFailure)
    }
}

/// What one entity line decodes to: one of the four kinds keyed by its type
/// tag, or the error that rejects the line.
pub open spec fn spec_read_entity(line: Seq<char>) -> Result<Entity, ReadError> {
    let toks = tokenize(line);
    if toks.len() < 2 {
        Err(ReadError::UnknownEntityKind)
    } else if toks[1] == "SHIP"@ {
        spec_ship_line(toks)
    } else if toks[1] == "BARREL"@ {
        spec_barrel_line(toks)
    } else if toks[1] == "CANNONBALL"@ {
        spec_cannon_ball_line(toks)
    } else if toks[1] == "MINE"@ {
        spec_mine_line(toks)
    } else {
        Err(ReadError::UnknownEntityKind)
    }
}

/// Decodes one entity line into exactly one typed entity.
///
/// A line whose type tag is none of the four kinds is rejected with
/// `UnknownEntityKind`; a line whose tag is known but whose fields are
/// missing or undecodable is rejected with `ParseFailure`. The decoded
/// entity carries the identifier of the line's first token.
#[verifier::rlimit(100)]
pub fn read_entity(line: &str) -> (r: Result<Entity, ReadError>)
    ensures
        r == spec_read_entity(line@),
        r is Ok ==> r->Ok_0.spec_id() == dec_val(tokenize(line@)[0]),
{
    let toks = split_input_line(line);
    let ghost tv = tokenize(line@);
    proof {
        assert(toks.deep_view().len() == toks@.len());
        assert forall|k: int| 0 <= k < toks@.len() implies #[trigger] toks@[k]@ == tv[k] by {
            assert(toks.deep_view()[k] == toks@[k].deep_view());
        };
    }
    if toks.len() < 2 {
        return Err(ReadError::UnknownEntityKind);
    }
    if token_eq(&toks[1], "SHIP") {
        if toks.len() < 8 {
            return Err(ReadError::ParseFailure);
        }
        let entity_id = match parse_usize(&toks[0]) {
            Ok(v) => EntityId(v),
            Err(e) => { return Err(e); },
        };
        let x = match parse_i32(&toks[2]) {
            Ok(v) => v,
            Err(e) => { return Err(e); },
        };
        let y = match parse_i32(&toks[3]) {
            Ok(v) => v,
            Err(e) => { return Err(e); },
        };
        let rotation = match parse_direction(&toks[4]) {
            Ok(v) => v,
            Err(e) => { return Err(e); },
        };
        let speed = match parse_speed(&toks[5]) {
            Ok(v) => v,
            Err(e) => { return Err(e); },
        };
        let rum_count = match parse_usize(&toks[6]) {
            Ok(v) => RumCount(v),
            Err(e) => { return Err(e); },
        };
        let owner = match parse_owner(&toks[7]) {
            Ok(v) => v,
            Err(e) => { return Err(e); },
        };
        let position = HexCoordinate::new(x, y);
        Ok(Entity::Ship(Ship::new(&entity_id, &position, &rotation, &speed, &rum_count, &owner)))
    } else if token_eq(&toks[1], "BARREL") {
        if toks.len() < 5 {
            return Err(ReadError::ParseFailure);
        }
        let entity_id = match parse_usize(&toks[0]) {
            Ok(v) => EntityId(v),
            Err(e) => { return Err(e); },
        };
        let x = match parse_i32(&toks[2]) {
            Ok(v) => v,
            Err(e) => { return Err(e); },
        };
        let y = match parse_i32(&toks[3]) {
            Ok(v) => v,
            Err(e) => { return Err(e); },
        };
        let rum_count = match parse_usize(&toks[4]) {
            Ok(v) => RumCount(v),
            Err(e) => { return Err(e); },
        };
        let position = HexCoordinate::new(x, y);
        Ok(Entity::Barrel(Barrel::new(&entity_id, &position, &rum_count)))
    } else if token_eq(&toks[1], "CANNONBALL") {
        if toks.len() < 6 {
            return Err(ReadError::ParseFailure);
        }
        let entity_id = match parse_usize(&toks[0]) {
            Ok(v) => EntityId(v),
            Err(e) => { return Err(e); },
        };
        let x = match parse_i32(&toks[2]) {
            Ok(v) => v,
            Err(e) => { return Err(e); },
        };
        let y = match parse_i32(&toks[3]) {
            Ok(v) => v,
            Err(e) => { return Err(e); },
        };
        let firer = match parse_usize(&toks[4]) {
            Ok(v) => EntityId(v),
            Err(e) => { return Err(e); },
        };
        let impact_count = match parse_usize(&toks[5]) {
            Ok(v) => Turn(v),
            Err(e) => { return Err(e); },
        };
        let position = HexCoordinate::new(x, y);
        Ok(Entity::CannonBall(CannonBall::new(&entity_id, &position, &firer, &impact_count)))
    } else if token_eq(&toks[1], "MINE") {
        if toks.len() < 4 {
            return Err(ReadError::ParseFailure);
        }
        let entity_id = match parse_usize(&toks[0]) {
            Ok(v) => EntityId(v),
            Err(e) => { return Err(e); },
        };
        let x = match parse_i32(&toks[2]) {
            Ok(v) => v,
            Err(e) => { return Err(e); },
        };
        let y = match parse_i32(&toks[3]) {
            Ok(v) => v,
            Err(e) => { return Err(e); },
        };
        let position = HexCoordinate::new(x, y);
        Ok(Entity::Mine(Mine::new(&entity_id, &position)))
    } else {
        Err(ReadError::UnknownEntityKind)
    }
}


/// The four entity maps after routing the first `k` entity lines (the lines
/// from index 2 on) each to the map of its kind, keyed by entity id.
pub open spec fn fold_entities(lv: Seq<Seq<char>>, k: int) -> (
    Map<usize, Ship>,
    Map<usize, Barrel>,
    Map<usize, CannonBall>,
    Map<usize, Mine>,
)
    decreases k,
{
    if k <= 0 {
        (
            Map::<usize, Ship>::empty(),
            Map::<usize, Barrel>::empty(),
            Map::<usize, CannonBall>::empty(),
            Map::<usize, Mine>::empty(),
        )
    } else {
        let prev = fold_entities(lv, k - 1);
        match spec_read_entity(lv[2 + (k - 1)]) {
            Ok(Entity::Ship(s)) => (prev.0.insert(s.entity_id.0, s), prev.1, prev.2, prev.3),
            Ok(Entity::Barrel(b)) => (prev.0, prev.1.insert(b.entity_id.0, b), prev.2, prev.3),
            Ok(Entity::CannonBall(c)) => (
                prev.0,
                prev.1,
                prev.2.insert(c.entity_id.0, c),
                prev.3,
            ),
            Ok(Entity::Mine(m)) => (prev.0, prev.1, prev.2, prev.3.insert(m.entity_id.0, m)),
            Err(_) => prev,
        }
    }
}

/// The first `k` entity lines all decode.
pub open spec fn entities_ok_upto(lv: Seq<Seq<char>>, k: int) -> bool {
    forall|i: int| 0 <= i < k ==> spec_read_entity(#[trigger] lv[2 + i]) is Ok
}

/// Builds one turn's snapshot from its input lines: the ship count, the
/// entity count, then that many entity lines. Rejects short input with
/// `TruncatedInput`, undecodable counts with `ParseFailure`, and fails with
/// the first bad entity line's own error; on any failure no snapshot at all
/// is produced.
pub fn read_one_turn(lines: &Vec<String>) -> (r: Result<CaribbeanGameRule, ReadError>)
    ensures
        lines.deep_view().len() < 2 ==> r == Err::<CaribbeanGameRule, ReadError>(
            ReadError::TruncatedInput,
        ),
        lines.deep_view().len() >= 2 && !(usize_ok(lines.deep_view()[0]) && usize_ok(
            lines.deep_view()[1],
        )) ==> r == Err::<CaribbeanGameRule, ReadError>(ReadError::ParseFailure),
        lines.deep_view().len() >= 2 && usize_ok(lines.deep_view()[0]) && usize_ok(
            lines.deep_view()[1],
        ) ==> {
            let lv = lines.deep_view();
            let ec = dec_val(lv[1]);
            if lv.len() - 2 < ec {
                r == Err::<CaribbeanGameRule, ReadError>(ReadError::TruncatedInput)
            } else if !entities_ok_upto(lv, ec) {
                exists|k: int|
                    0 <= k < ec && entities_ok_upto(lv, k) && spec_read_entity(lv[2 + k]) is Err
                        && r == Err::<CaribbeanGameRule, ReadError>(
                        spec_read_entity(lv[2 + k])->Err_0,
                    )
            } else {
                &&& r is Ok
                &&& r->Ok_0.spec_my_ship_count() == dec_val(lv[0])
                &&& r->Ok_0.spec_static() == (StaticGameRule { width: 23, height: 21 })
                &&& r->Ok_0.spec_current() == Turn(0usize)
                &&& r->Ok_0.spec_ships() == fold_entities(lv, ec).0
                &&& r->Ok_0.spec_barrels() == fold_entities(lv, ec).1
                &&& r->Ok_0.spec_cannon_balls() == fold_entities(lv, ec).2
                &&& r->Ok_0.spec_mines() == fold_entities(lv, ec).3
            }
        },
{
    let ghost lv = lines.deep_view();
    proof {
        assert(lv.len() == lines@.len());
        assert forall|k: int| 0 <= k < lines@.len() implies #[trigger] lines@[k]@ == lv[k] by {
            assert(lines.deep_view()[k] == lines@[k].deep_view());
        };
    }
    if lines.len() < 2 {
        return Err(ReadError::TruncatedInput);
    }
    let c0 = str_chars(lines[0].as_str());
    let my_ship_count = match parse_usize(&c0) {
        Ok(v) => v,
        Err(_) => { return Err(ReadError::ParseFailure); },
    };
    let c1 = str_chars(lines[1].as_str());
    let entity_count = match parse_usize(&c1) {
        Ok(v) => v,
        Err(_) => { return Err(ReadError::ParseFailure); },
    };
    if lines.len() - 2 < entity_count {
        return Err(ReadError::TruncatedInput);
    }
    let mut ships: HashMap<usize, Ship> = HashMap::new();
    let mut barrels: HashMap<usize, Barrel> = HashMap::new();
    let mut cannon_balls: HashMap<usize, CannonBall> = HashMap::new();
    let mut mines: HashMap<usize, Mine> = HashMap::new();
    let mut i: usize = 0;
    while i < entity_count
        invariant
            lv == lines.deep_view(),
            lv.len() == lines@.len(),
            lines@.len() <= usize::MAX,
            lv.len() >= 2,
            forall|k: int| 0 <= k < lines@.len() ==> #[trigger] lines@[k]@ == lv[k],
            usize_ok(lv[0]),
            usize_ok(lv[1]),
            my_ship_count as int == dec_val(lv[0]),
            entity_count as int == dec_val(lv[1]),
            i <= entity_count,
            entity_count as int <= lv.len() - 2,
            entities_ok_upto(lv, i as int),
            ships@ == fold_entities(lv, i as int).0,
            barrels@ == fold_entities(lv, i as int).1,
            cannon_balls@ == fold_entities(lv, i as int).2,
            mines@ == fold_entities(lv, i as int).3,
        decreases entity_count - i,
    {
        match read_entity(lines[2 + i].as_str()) {
            Ok(ent) => {
                match ent {
                    Entity::Ship(s) => {
                        ships.insert(s.entity_id.0, s);
                    },
                    Entity::Barrel(b) => {
                        barrels.insert(b.entity_id.0, b);
                    },
                    Entity::CannonBall(c) => {
                        cannon_balls.insert(c.entity_id.0, c);
                    },
                    Entity::Mine(m) => {
                        mines.insert(m.entity_id.0, m);
                    },
                }
            },
            Err(e) => {
                return Err(e);
            },
        }
        i = i + 1;
    }
    Ok(
        CaribbeanGameRule::new(
            &StaticGameRule::new(),
            my_ship_count,
            ships,
            barrels,
            cannon_balls,
            mines,
        ),
    )
}


/// The id carried by the entity decoded from the `i`-th entity line.
pub open spec fn entity_id_at(lv: Seq<Seq<char>>, i: int) -> usize {
    spec_read_entity(lv[2 + i])->Ok_0.spec_id()
}

/// When the entity lines of a turn decode and carry pairwise distinct ids,
/// the four maps of the snapshot partition them: no id appears in two maps,
/// every id in a map comes from some line, and the union keyed by id has
/// size exactly the entity count.
pub proof fn lemma_snapshot_id_partition(lv: Seq<Seq<char>>, n: int)
    requires
        0 <= n,
        entities_ok_upto(lv, n),
        forall|i: int, j: int|
            0 <= i < j < n ==> #[trigger] entity_id_at(lv, i) != #[trigger] entity_id_at(lv, j),
    ensures
        fold_entities(lv, n).0.dom().finite(),
        fold_entities(lv, n).1.dom().finite(),
        fold_entities(lv, n).2.dom().finite(),
        fold_entities(lv, n).3.dom().finite(),
        fold_entities(lv, n).0.dom().disjoint(fold_entities(lv, n).1.dom()),
        fold_entities(lv, n).0.dom().disjoint(fold_entities(lv, n).2.dom()),
        fold_entities(lv, n).0.dom().disjoint(fold_entities(lv, n).3.dom()),
        fold_entities(lv, n).1.dom().disjoint(fold_entities(lv, n).2.dom()),
        fold_entities(lv, n).1.dom().disjoint(fold_entities(lv, n).3.dom()),
        fold_entities(lv, n).2.dom().disjoint(fold_entities(lv, n).3.dom()),
        fold_entities(lv, n).0.dom().len() + fold_entities(lv, n).1.dom().len() + fold_entities(
            lv,
            n,
        ).2.dom().len() + fold_entities(lv, n).3.dom().len() == n,
        forall|k: usize|
            fold_entities(lv, n).0.dom().contains(k) || fold_entities(lv, n).1.dom().contains(k)
                || fold_entities(lv, n).2.dom().contains(k) || fold_entities(
                lv,
                n,
            ).3.dom().contains(k) ==> exists|i: int|
                0 <= i < n && #[trigger] entity_id_at(lv, i) == k,
    decreases n,
{
    broadcast use vstd::set::group_set_axioms, vstd::map::group_map_axioms;

    if n == 0 {
        assert(fold_entities(lv, 0).0.dom() =~= Set::<usize>::empty());
        assert(fold_entities(lv, 0).1.dom() =~= Set::<usize>::empty());
        assert(fold_entities(lv, 0).2.dom() =~= Set::<usize>::empty());
        assert(fold_entities(lv, 0).3.dom() =~= Set::<usize>::empty());
    } else {
        lemma_snapshot_id_partition(lv, n - 1);
        let prev = fold_entities(lv, n - 1);
        let cur = fold_entities(lv, n);
        let e = spec_read_entity(lv[2 + (n - 1)])->Ok_0;
        let id = e.spec_id();
        assert(entity_id_at(lv, n - 1) == id);
        assert(!prev.0.dom().contains(id) && !prev.1.dom().contains(id) && !prev.2.dom().contains(
            id,
        ) && !prev.3.dom().contains(id)) by {
            if prev.0.dom().contains(id) || prev.1.dom().contains(id) || prev.2.dom().contains(id)
                || prev.3.dom().contains(id) {
                let i = choose|i: int| 0 <= i < n - 1 && #[trigger] entity_id_at(lv, i) == id;
                assert(entity_id_at(lv, i) != entity_id_at(lv, n - 1));
                assert(false);
            }
        }
        match e {
            Entity::Ship(s) => {
                assert(cur.0.dom() =~= prev.0.dom().insert(id));
            },
            Entity::Barrel(b) => {
                assert(cur.1.dom() =~= prev.1.dom().insert(id));
            },
            Entity::CannonBall(c) => {
                assert(cur.2.dom() =~= prev.2.dom().insert(id));
            },
            Entity::Mine(m) => {
                assert(cur.3.dom() =~= prev.3.dom().insert(id));
            },
        }
        assert forall|k: usize|
            cur.0.dom().contains(k) || cur.1.dom().contains(k) || cur.2.dom().contains(k)
                || cur.3.dom().contains(k) implies exists|i: int|
            0 <= i < n && #[trigger] entity_id_at(lv, i) == k by {
            if k == id {
                assert(entity_id_at(lv, n - 1) == k);
            } else {
                assert(prev.0.dom().contains(k) || prev.1.dom().contains(k)
                    || prev.2.dom().contains(k) || prev.3.dom().contains(k));
            }
        }
    }
}

/// Decoding is injective on the decoded kind and fields: two lines that
/// decode to the same entity carry the same kind tag and, field for field,
/// tokens that decode to the same values.
pub proof fn lemma_read_entity_injective(l1: Seq<char>, l2: Seq<char>)
    requires
        spec_read_entity(l1) is Ok,
        spec_read_entity(l2) is Ok,
        spec_read_entity(l1) == spec_read_entity(l2),
    ensures
        tokenize(l1)[1] == tokenize(l2)[1],
        dec_val(tokenize(l1)[0]) == dec_val(tokenize(l2)[0]),
        spec_read_entity(l1)->Ok_0 is Ship ==> {
            let t1 = tokenize(l1);
            let t2 = tokenize(l2);
            &&& i32_val(t1[2]) == i32_val(t2[2])
            &&& i32_val(t1[3]) == i32_val(t2[3])
            &&& direction_code(t1[4]) == direction_code(t2[4])
            &&& speed_code(t1[5]) == speed_code(t2[5])
            &&& dec_val(t1[6]) == dec_val(t2[6])
            &&& owner_code(t1[7]) == owner_code(t2[7])
        },
        spec_read_entity(l1)->Ok_0 is Barrel ==> {
            let t1 = tokenize(l1);
            let t2 = tokenize(l2);
            &&& i32_val(t1[2]) == i32_val(t2[2])
            &&& i32_val(t1[3]) == i32_val(t2[3])
            &&& dec_val(t1[4]) == dec_val(t2[4])
        },
        spec_read_entity(l1)->Ok_0 is CannonBall ==> {
            let t1 = tokenize(l1);
            let t2 = tokenize(l2);
            &&& i32_val(t1[2]) == i32_val(t2[2])
            &&& i32_val(t1[3]) == i32_val(t2[3])
            &&& dec_val(t1[4]) == dec_val(t2[4])
            &&& dec_val(t1[5]) == dec_val(t2[5])
        },
        spec_read_entity(l1)->Ok_0 is Mine ==> {
            let t1 = tokenize(l1);
            let t2 = tokenize(l2);
            &&& i32_val(t1[2]) == i32_val(t2[2])
            &&& i32_val(t1[3]) == i32_val(t2[3])
        },
{
    broadcast use vstd::string::group_string_axioms;

    let t1 = tokenize(l1);
    let t2 = tokenize(l2);
    let e = spec_read_entity(l1)->Ok_0;
    reveal_strlit("SHIP");
    reveal_strlit("BARREL");
    reveal_strlit("CANNONBALL");
    reveal_strlit("MINE");
    match e {
        Entity::Ship(s) => {
            assert(t1[1] == "SHIP"@ && t2[1] == "SHIP"@);
            lemma_dec_val_nonneg(t1[0]);
            lemma_dec_val_nonneg(t2[0]);
            lemma_dec_val_nonneg(t1[6]);
            lemma_dec_val_nonneg(t2[6]);
        },
        Entity::Barrel(b) => {
            assert(t1[1] == "BARREL"@ && t2[1] == "BARREL"@);
            lemma_dec_val_nonneg(t1[0]);
            lemma_dec_val_nonneg(t2[0]);
            lemma_dec_val_nonneg(t1[4]);
            lemma_dec_val_nonneg(t2[4]);
            assert(i32_val(t1[2]) == i32_val(t2[2]));
            assert(i32_val(t1[3]) == i32_val(t2[3]));
            assert(dec_val(t1[4]) == dec_val(t2[4]));
        },
        Entity::CannonBall(c) => {
            assert(t1[1] == "CANNONBALL"@ && t2[1] == "CANNONBALL"@);
            lemma_dec_val_nonneg(t1[0]);
            lemma_dec_val_nonneg(t2[0]);
            lemma_dec_val_nonneg(t1[4]);
            lemma_dec_val_nonneg(t2[4]);
            lemma_dec_val_nonneg(t1[5]);
            lemma_dec_val_nonneg(t2[5]);
            assert(i32_val(t1[2]) == i32_val(t2[2]));
            assert(dec_val(t1[4]) == dec_val(t2[4]));
            assert(dec_val(t1[5]) == dec_val(t2[5]));
        },
        Entity::Mine(m) => {
            assert(t1[1] == "MINE"@ && t2[1] == "MINE"@);
            lemma_dec_val_nonneg(t1[0]);
            lemma_dec_val_nonneg(t2[0]);
        },
    }
}

} // verus!
