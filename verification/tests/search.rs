use caribbean::explorable::Explorable;
use caribbean::game_rule::{GameRule, Score};
use caribbean::path_finding::bfs_search;

/// A small bounded grid: four unit-cost neighbour moves, one target cell.
struct Grid {
    target: (i32, i32),
}

const GRID_SIDE: i32 = 5;

impl Explorable for Grid {
    type State = (i32, i32);
    type Action = u8;

    fn succ(&self, _: (i32, i32)) -> vstd::seq::Seq<((i32, i32), i32, u8)> {
        unreachable!()
    }

    fn goal(&self, _: (i32, i32)) -> bool {
        unreachable!()
    }

    fn successors(&self, state: &(i32, i32)) -> Vec<((i32, i32), i32, u8)> {
        let (x, y) = *state;
        let steps = [(1, 0, 0u8), (-1, 0, 1u8), (0, 1, 2u8), (0, -1, 3u8)];
        let mut out = Vec::new();
        for (dx, dy, act) in steps {
            let nx = x + dx;
            let ny = y + dy;
            if 0 <= nx && nx < GRID_SIDE && 0 <= ny && ny < GRID_SIDE {
                out.push(((nx, ny), 1, act));
            }
        }
        out
    }

    fn is_goal(&self, state: &(i32, i32)) -> bool {
        *state == self.target
    }

    fn same_state(&self, a: &(i32, i32), b: &(i32, i32)) -> bool {
        a == b
    }
}

#[test]
fn two_step_straight_line() {
    let grid = Grid { target: (2, 0) };
    let path = bfs_search(&grid, (0, 0)).unwrap();
    assert_eq!(path.len(), 2);
    assert_eq!(path, vec![0u8, 0u8]);
}

#[test]
fn start_is_goal() {
    let grid = Grid { target: (3, 3) };
    let path = bfs_search(&grid, (3, 3)).unwrap();
    assert_eq!(path.len(), 0);
}

#[test]
fn unreachable_goal_returns_none() {
    let grid = Grid { target: (99, 99) };
    assert_eq!(bfs_search(&grid, (0, 0)), None);
}

#[test]
fn shortest_path_length_on_diagonal() {
    let grid = Grid { target: (3, 4) };
    let path = bfs_search(&grid, (0, 0)).unwrap();
    assert_eq!(path.len(), 7);
}

#[test]
fn repeated_searches_agree() {
    let grid = Grid { target: (4, 1) };
    let a = bfs_search(&grid, (0, 2));
    let b = bfs_search(&grid, (0, 2));
    assert_eq!(a, b);
    let a = a.unwrap();
    assert_eq!(a.len(), 5);
}

/// A trivial counting game exercising the game-rule contract.
struct Countdown;

impl GameRule for Countdown {
    type State = i64;
    type Action = i64;

    fn spec_possible_actions(&self, _: i64) -> vstd::seq::Seq<i64> {
        unreachable!()
    }

    fn spec_apply_action(&self, _: i64, _: i64) -> i64 {
        unreachable!()
    }

    fn spec_evaluate(&self, _: i64) -> Score {
        unreachable!()
    }

    fn possible_actions(&self, state: &i64) -> Vec<i64> {
        if *state > 0 {
            vec![1, 2]
        } else {
            vec![]
        }
    }

    fn apply_action(&self, state: &i64, action: &i64) -> i64 {
        state - action
    }

    fn evaluate(&self, state: &i64) -> Score {
        Score(-state)
    }
}

#[test]
fn game_rule_contract_is_usable() {
    let g = Countdown;
    let s: i64 = 3;
    let acts = g.possible_actions(&s);
    assert_eq!(acts, vec![1, 2]);
    let next = g.apply_action(&s, &acts[1]);
    assert_eq!(next, 1);
    assert!(g.evaluate(&next) > g.evaluate(&s));
    assert_eq!(g.possible_actions(&0).len(), 0);
}
