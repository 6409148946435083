//! Hands out prizes among entrants by lot, each entrant with a chance
//! proportional to its tickets.
use vstd::prelude::*;

pub mod heap_tree;
pub mod prize;
pub mod prize_queue;
pub mod random;
pub mod entrant;
pub mod ids;
pub mod user;
pub mod space_efficient_shuffler;
pub mod keyed_map;
pub mod lottery;
pub mod tally;
pub mod tickets;
pub mod draw;

verus! {

} // verus!
