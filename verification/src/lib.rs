use vstd::prelude::*;

pub mod piece;
pub mod position;
pub mod problem;
pub mod best_mate;
pub mod breadth;
pub mod census;
pub mod document;
pub mod help_selfmate;
pub mod kind_set;
pub mod known_invisible;
pub mod known_search;
pub mod low_mem;
pub mod metrics;
pub mod moves;
pub mod observed;
pub mod replay;
pub mod rule;
pub mod rules;
pub mod sfen;
pub mod sfen_source;
pub mod smoke;
pub mod solver;
pub mod square;
pub mod state;
pub mod text;
pub mod world;
pub mod world_id_set;

verus! {
} // verus!
