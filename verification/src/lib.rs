//! A small settlement simulation: islands hold harvested resources, houses
//! hold inhabitants, and inhabitants idle, wander and gather on two periodic
//! timers. Every function here is verified against its contract.
//!
//! Islands, houses, people and resource nodes live in arenas and are known
//! by their index. Places are whole numbers of ticks, a thousand to the
//! world unit, and time is whole milliseconds, so that a run is exact and
//! can be repeated from a seed. Randomness comes from a generator that the
//! caller hands in, and the one search that is divided among workers runs on
//! a pool that the caller hands in.
//!
//! One step of the simulation runs five passes in a fixed order (see
//! [`world::Settlement::step`]): people are sent wandering, people are sent
//! gathering, everybody moves, the gather events of the arrivals are
//! credited to the islands, and the islands that can pay for houses build
//! them.

pub mod geometry;
pub mod house;
pub mod island;
pub mod person;
pub mod random;
pub mod resource;
pub mod search;
pub mod stages;
pub mod timer;
pub mod world;
