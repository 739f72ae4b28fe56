//! Decision core for a turn-based hex-grid naval game: the hex geometry and
//! entity/turn data model, a generic exploration abstraction with a verified
//! breadth-first search engine, and the per-turn wire-format parser.

pub mod hex;
pub mod game;
pub mod explorable;
pub mod game_rule;
pub mod path_finding;
pub mod read;
