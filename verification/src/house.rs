//! Houses: where inhabitants live, and which island each house stands on.

use crate::geometry::{Position, WORLD_LIMIT};
use crate::island::Island;
use crate::random::draw_between;
use vstd::prelude::*;

verus! {

/// A house. It stands on one island for as long as the world lasts, and
/// what its inhabitants gather is credited to that island.
#[derive(Debug, Clone, Copy, PartialEq, Eq, Structural)]
pub struct House {
    /// Index of the island that owns the house.
    pub island: usize,
    pub position: Position,
}

/// The most houses that an island is given at setup.
pub const MOST_HOUSES: usize = 9;

impl House {
    /// The owning island is one of `islands` islands, and the house lies
    /// inside the world.
    pub open spec fn wf(self, islands: int) -> bool {
        self.island < islands && self.position.within(WORLD_LIMIT as int)
    }

    /// Whether the house is well-formed among `islands` islands.
    pub fn is_wf(&self, islands: usize) -> (ok: bool)
        ensures
            ok == self.wf(islands as int),
    {
        self.island < islands && self.position.is_within(WORLD_LIMIT)
    }
}

/// Draws the number of houses that an island is given at setup: at least
/// one, and no more than `MOST_HOUSES`.
pub fn draw_house_count(rng: &mut rand::rngs::StdRng) -> (count: usize)
    ensures
        1 <= count <= MOST_HOUSES,
{
    draw_between(rng, 1, 9) as usize
}

/// Every house stands on one of `islands` islands, inside the world.
pub open spec fn houses_wf(houses: Seq<House>, islands: int) -> bool {
    forall|h: int| 0 <= h < houses.len() ==> (#[trigger] houses[h]).wf(islands)
}

/// Every house lies inside the world.
pub open spec fn houses_in_world(houses: Seq<House>) -> bool {
    forall|h: int| 0 <= h < houses.len() ==> (#[trigger] houses[h]).position.within(WORLD_LIMIT as int)
}

/// Whether every house stands on one of `islands` islands, inside the world.
pub fn check_houses(houses: &Vec<House>, islands: usize) -> (ok: bool)
    ensures
        ok == houses_wf(houses@, islands as int),
        ok ==> houses_in_world(houses@),
{
    let mut h: usize = 0;
    while h < houses.len()
        invariant
            h <= houses@.len(),
            forall|k: int| 0 <= k < h ==> (#[trigger] houses@[k]).wf(islands as int),
        decreases houses@.len() - h,
    {
        if !houses[h].is_wf(islands) {
            return false;
        }
        h = h + 1;
    }
    true
}

/// The houses that `build_house` adds: one at each site, in order, all on
/// the same island.
pub open spec fn houses_at(island: usize, sites: Seq<Position>) -> Seq<House> {
    Seq::new(sites.len(), |i: int| House { island, position: sites[i] })
}

/// Builds a house on island `island` at each of the sites, in order.
pub fn build_house(
    islands: &Vec<Island>,
    houses: &mut Vec<House>,
    island: usize,
    sites: &Vec<Position>,
)
    requires
        island < islands@.len(),
        forall|i: int| 0 <= i < sites@.len() ==> (#[trigger] sites@[i]).within(WORLD_LIMIT as int),
    ensures
        final(houses)@ == old(houses)@ + houses_at(island, sites@),
        houses_wf(old(houses)@, islands@.len() as int) ==> houses_wf(
            final(houses)@,
            islands@.len() as int,
        ),
{
    let mut i: usize = 0;
    while i < sites.len()
        invariant
            i <= sites@.len(),
            island < islands@.len(),
            forall|i: int| 0 <= i < sites@.len() ==> (#[trigger] sites@[i]).within(WORLD_LIMIT as int),
            houses@ == old(houses)@ + houses_at(island, sites@.take(i as int)),
            houses_wf(old(houses)@, islands@.len() as int) ==> houses_wf(
                houses@,
                islands@.len() as int,
            ),
        decreases sites@.len() - i,
    {
        let ghost prior = houses@;
        houses.push(House { island, position: sites[i] });
        proof {
            assert(houses@ =~= old(houses)@ + houses_at(island, sites@.take(i + 1)));
            assert(sites@[i as int].within(WORLD_LIMIT as int));
        }
        i = i + 1;
    }
    proof {
        assert(sites@.take(sites@.len() as int) =~= sites@);
    }
}

} // verus!
