//! Islands: their footprint, the pool of resources gathered for them, the
//! delivery of gather events to the pools, and the building of new houses
//! from what has accumulated.

use crate::geometry::{Position, WORLD_LIMIT, half_chord, lemma_chord_on_disc};
use crate::house::{House, houses_wf};
use crate::person::{GatherEvent, Person, is_newcomer, people_wf, settle};
use crate::random::{draw_between, draw_name};
use crate::resource::NaturalResourceType;
use vstd::prelude::*;

verus! {

/// The names that new islands are given.
#[derive(Debug, Clone, PartialEq, Eq)]
pub struct IslandsResources {
    pub available_names: Vec<String>,
}

/// The display name of an island.
#[derive(Debug, Clone, PartialEq, Eq)]
pub struct Title(pub String);

/// The size of an island, in ticks. The footprint is the disc about the
/// island's centre whose diameter is the width; the outline drawn about
/// the island is as wide and as high as this says.
#[derive(Clone, Copy, Debug, PartialEq, Eq, Structural)]
pub struct Size {
    pub width: i64,
    pub height: i64,
}

/// The resources gathered for one island and not yet spent: a count for
/// every kind.
#[derive(Clone, Copy, Debug, PartialEq, Eq, Structural)]
pub struct IslandNR {
    pub coal: u64,
    pub iron: u64,
    pub gold: u64,
    pub wood: u64,
    pub water: u64,
}

impl View for IslandNR {
    type V = Map<NaturalResourceType, nat>;

    /// The pool as a mapping from every kind to its count.
    open spec fn view(&self) -> Map<NaturalResourceType, nat> {
        Map::new(|kind: NaturalResourceType| true, |kind: NaturalResourceType| self.count(kind))
    }
}

impl IslandNR {
    /// The count of one kind.
    pub open spec fn count(self, kind: NaturalResourceType) -> nat {
        match kind {
            NaturalResourceType::Coal => self.coal as nat,
            NaturalResourceType::Iron => self.iron as nat,
            NaturalResourceType::Gold => self.gold as nat,
            NaturalResourceType::Wood => self.wood as nat,
            NaturalResourceType::Water => self.water as nat,
        }
    }

    /// Everything in the pool, all kinds together.
    pub open spec fn total(self) -> nat {
        (self.coal + self.iron + self.gold + self.wood + self.water) as nat
    }

    /// The pool with the count of one kind replaced.
    pub open spec fn with_count(self, kind: NaturalResourceType, count: u64) -> IslandNR {
        match kind {
            NaturalResourceType::Coal => IslandNR { coal: count, ..self },
            NaturalResourceType::Iron => IslandNR { iron: count, ..self },
            NaturalResourceType::Gold => IslandNR { gold: count, ..self },
            NaturalResourceType::Wood => IslandNR { wood: count, ..self },
            NaturalResourceType::Water => IslandNR { water: count, ..self },
        }
    }

    /// The empty pool.
    pub open spec fn empty() -> IslandNR {
        IslandNR { coal: 0, iron: 0, gold: 0, wood: 0, water: 0 }
    }

    /// An empty pool.
    pub fn new() -> (pool: IslandNR)
        ensures
            pool == Self::empty(),
            forall|kind: NaturalResourceType| pool.count(kind) == 0,
    {
        IslandNR { coal: 0, iron: 0, gold: 0, wood: 0, water: 0 }
    }

    /// The count of one kind.
    pub fn get(&self, kind: NaturalResourceType) -> (count: u64)
        ensures
            count == self.count(kind),
            count == self@[kind],
    {
        match kind {
            NaturalResourceType::Coal => self.coal,
            NaturalResourceType::Iron => self.iron,
            NaturalResourceType::Gold => self.gold,
            NaturalResourceType::Wood => self.wood,
            NaturalResourceType::Water => self.water,
        }
    }

    /// Replaces the count of one kind.
    pub fn set(&mut self, kind: NaturalResourceType, count: u64)
        ensures
            *final(self) == old(self).with_count(kind, count),
            final(self)@ == old(self)@.insert(kind, count as nat),
    {
        match kind {
            NaturalResourceType::Coal => self.coal = count,
            NaturalResourceType::Iron => self.iron = count,
            NaturalResourceType::Gold => self.gold = count,
            NaturalResourceType::Wood => self.wood = count,
            NaturalResourceType::Water => self.water = count,
        }
        assert(self@ =~= old(self)@.insert(kind, count as nat));
    }

    /// Credits one unit of `kind`.
    pub fn add_one(&mut self, kind: NaturalResourceType)
        requires
            old(self).count(kind) < u64::MAX,
        ensures
            *final(self) == old(self).with_count(kind, (old(self).count(kind) + 1) as u64),
            final(self).count(kind) == old(self).count(kind) + 1,
            forall|other: NaturalResourceType|
                other != kind ==> final(self).count(other) == old(self).count(other),
    {
        let count = self.get(kind);
        self.set(kind, count + 1);
    }

    /// Spends `amount` units of `kind`.
    pub fn take(&mut self, kind: NaturalResourceType, amount: u64)
        requires
            amount <= old(self).count(kind),
        ensures
            *final(self) == old(self).with_count(kind, (old(self).count(kind) - amount) as u64),
            final(self).count(kind) == old(self).count(kind) - amount,
            forall|other: NaturalResourceType|
                other != kind ==> final(self).count(other) == old(self).count(other),
    {
        let count = self.get(kind);
        self.set(kind, count - amount);
    }
}

/// An island of the world.
#[derive(Debug, Clone, PartialEq, Eq)]
pub struct Island {
    pub title: Title,
    pub size: Size,
    /// The centre of the footprint.
    pub position: Position,
    pub natural_resources: IslandNR,
    /// Whether the pool has been credited since the spawner last looked.
    pub changed: bool,
}

impl Island {
    /// The footprint and the outline lie inside the world.
    pub open spec fn wf(self) -> bool {
        footprint_fits(self.position, self.size)
    }

    /// The radius of the footprint: half the width.
    pub open spec fn radius(self) -> int {
        self.size.width / 2
    }

    /// Whether the island is well-formed.
    pub fn is_wf(&self) -> (ok: bool)
        ensures
            ok == self.wf(),
    {
        0 <= self.size.width && 0 <= self.size.height && self.position.is_within(WORLD_LIMIT)
            && -WORLD_LIMIT <= self.position.x - self.size.width / 2 && self.position.x
            + self.size.width / 2 <= WORLD_LIMIT && -WORLD_LIMIT <= self.position.y
            - self.size.width / 2 && self.position.y + self.size.width / 2 <= WORLD_LIMIT
            && -WORLD_LIMIT <= self.position.y - self.size.height / 2 && self.position.y
            + self.size.height / 2 <= WORLD_LIMIT
    }

    /// The position lies on the footprint: the disc about the island's
    /// centre whose radius is half the width.
    pub open spec fn covers(self, p: Position) -> bool {
        self.position.dist_sq(p) <= self.radius() * self.radius()
    }

    /// The island with another pool.
    pub open spec fn with_pool(self, pool: IslandNR, changed: bool) -> Island {
        Island {
            title: self.title,
            size: self.size,
            position: self.position,
            natural_resources: pool,
            changed,
        }
    }
}

/// An island of this size about this centre lies inside the world: the
/// disc of its footprint, whose radius is half the width, and the outline
/// of its width and height.
pub open spec fn footprint_fits(centre: Position, size: Size) -> bool {
    &&& 0 <= size.width
    &&& 0 <= size.height
    &&& -WORLD_LIMIT <= centre.x - size.width / 2
    &&& centre.x + size.width / 2 <= WORLD_LIMIT
    &&& -WORLD_LIMIT <= centre.y - size.width / 2
    &&& centre.y + size.width / 2 <= WORLD_LIMIT
    &&& -WORLD_LIMIT <= centre.y - size.height / 2
    &&& centre.y + size.height / 2 <= WORLD_LIMIT
}

/// Every island's footprint lies inside the world.
pub open spec fn islands_wf(islands: Seq<Island>) -> bool {
    forall|i: int| 0 <= i < islands.len() ==> (#[trigger] islands[i]).wf()
}

/// Everything in the pools of the first `n` islands.
pub open spec fn stock_upto(islands: Seq<Island>, n: nat) -> nat
    decreases n,
{
    if n == 0 {
        0
    } else {
        stock_upto(islands, (n - 1) as nat) + islands[n - 1].natural_resources.total()
    }
}

/// Everything in the pools of all the islands.
pub open spec fn total_stock(islands: Seq<Island>) -> nat {
    stock_upto(islands, islands.len())
}

/// Where an island is to be, and how wide.
#[derive(Clone, Copy, Debug, PartialEq, Eq, Structural)]
pub struct IslandSite {
    pub translation: Position,
    /// The diameter of the footprint, in ticks.
    pub width: i64,
}

impl IslandSite {
    /// The footprint lies inside the world.
    pub open spec fn wf(self) -> bool {
        footprint_fits(self.translation, Size { width: self.width, height: self.width })
    }

    /// Whether the footprint lies inside the world.
    pub fn fits(&self) -> (inside: bool)
        ensures
            inside == self.wf(),
    {
        0 <= self.width && self.translation.is_within(WORLD_LIMIT) && -WORLD_LIMIT
            <= self.translation.x - self.width / 2 && self.translation.x + self.width / 2
            <= WORLD_LIMIT && -WORLD_LIMIT <= self.translation.y - self.width / 2
            && self.translation.y + self.width / 2 <= WORLD_LIMIT
    }
}

/// `island` is as an island is that has just been put on `site`: it has one
/// of the names on offer, a footprint of the site's width about the
/// site, and an empty pool that the spawner has no reason to look at.
pub open spec fn is_new_island(island: Island, names: Seq<String>, site: IslandSite) -> bool {
    &&& exists|i: int| 0 <= i < names.len() && (#[trigger] names[i])@ == island.title.0@
    &&& island.size == Size { width: site.width, height: site.width }
    &&& island.position == site.translation
    &&& island.natural_resources == IslandNR::empty()
    &&& !island.changed
}

/// Puts a new island on `site`, under a name drawn from those on offer, and
/// hands back its index.
pub fn spawn_island_at(
    islands: &mut Vec<Island>,
    rng: &mut rand::rngs::StdRng,
    island_mat: &IslandsResources,
    site: IslandSite,
) -> (index: usize)
    requires
        island_mat.available_names@.len() > 0,
        site.wf(),
    ensures
        index == old(islands)@.len(),
        final(islands)@.len() == old(islands)@.len() + 1,
        final(islands)@.subrange(0, old(islands)@.len() as int) == old(islands)@,
        is_new_island(final(islands)@[index as int], island_mat.available_names@, site),
        final(islands)@[index as int].wf(),
        islands_wf(old(islands)@) ==> islands_wf(final(islands)@),
        total_stock(final(islands)@) == total_stock(old(islands)@),
{
    let name = match draw_name(rng, &island_mat.available_names) {
        Some(name) => name,
        // There are names to draw from, so this is never taken.
        None => String::new(),
    };
    let index = islands.len();
    let island = Island {
        title: Title(name),
        size: Size { width: site.width, height: site.width },
        position: site.translation,
        natural_resources: IslandNR::new(),
        changed: false,
    };
    islands.push(island);
    proof {
        assert(islands@.subrange(0, old(islands)@.len() as int) =~= old(islands)@);
        lemma_stock_agrees(old(islands)@, islands@, old(islands)@.len());
    }
    index
}

/// Puts a new island on each of the sites, in order.
pub fn spawn_islands(
    islands: &mut Vec<Island>,
    rng: &mut rand::rngs::StdRng,
    island_mat: &IslandsResources,
    sites: &Vec<IslandSite>,
)
    requires
        island_mat.available_names@.len() > 0,
        forall|k: int| 0 <= k < sites@.len() ==> (#[trigger] sites@[k]).wf(),
    ensures
        final(islands)@.len() == old(islands)@.len() + sites@.len(),
        final(islands)@.subrange(0, old(islands)@.len() as int) == old(islands)@,
        forall|k: int|
            0 <= k < sites@.len() ==> is_new_island(
                #[trigger] final(islands)@[old(islands)@.len() + k],
                island_mat.available_names@,
                sites@[k],
            ),
        islands_wf(old(islands)@) ==> islands_wf(final(islands)@),
        total_stock(final(islands)@) == total_stock(old(islands)@),
{
    let ghost before = islands@;
    let mut k: usize = 0;
    while k < sites.len()
        invariant
            k <= sites@.len(),
            island_mat.available_names@.len() > 0,
            forall|k: int| 0 <= k < sites@.len() ==> (#[trigger] sites@[k]).wf(),
            islands@.len() == before.len() + k,
            islands@.subrange(0, before.len() as int) == before,
            forall|j: int|
                0 <= j < k ==> is_new_island(
                    #[trigger] islands@[before.len() + j],
                    island_mat.available_names@,
                    sites@[j],
                ),
            islands_wf(before) ==> islands_wf(islands@),
            total_stock(islands@) == total_stock(before),
        decreases sites@.len() - k,
    {
        let ghost held = islands@;
        spawn_island_at(islands, rng, island_mat, sites[k]);
        proof {
            assert(islands@.subrange(0, before.len() as int) =~= held.subrange(
                0,
                before.len() as int,
            ));
            assert forall|j: int| 0 <= j < k + 1 implies is_new_island(
                #[trigger] islands@[before.len() + j],
                island_mat.available_names@,
                sites@[j],
            ) by {
                if j < k {
                    assert(islands@[before.len() + j] == islands@.subrange(0, held.len() as int)[
                        before.len() + j]);
                }
            }
        }
        k = k + 1;
    }
}

/// Whether every island's footprint lies inside the world.
pub fn check_islands(islands: &Vec<Island>) -> (ok: bool)
    ensures
        ok == islands_wf(islands@),
{
    let mut i: usize = 0;
    while i < islands.len()
        invariant
            i <= islands@.len(),
            forall|k: int| 0 <= k < i ==> (#[trigger] islands@[k]).wf(),
        decreases islands@.len() - i,
    {
        if !islands[i].is_wf() {
            return false;
        }
        i = i + 1;
    }
    true
}

/// Whether the pools of all the islands hold no more than `budget` together.
pub fn stock_within(islands: &Vec<Island>, budget: u64) -> (ok: bool)
    ensures
        ok == (total_stock(islands@) <= budget),
{
    let mut stock: u64 = 0;
    let mut i: usize = 0;
    while i < islands.len()
        invariant
            i <= islands@.len(),
            stock == stock_upto(islands@, i as nat),
            stock <= budget,
        decreases islands@.len() - i,
    {
        let pool = islands[i].natural_resources;
        let held: u128 = pool.coal as u128 + pool.iron as u128 + pool.gold as u128 + pool.wood as u128
            + pool.water as u128;
        let sum: u128 = stock as u128 + held;
        if sum > budget as u128 {
            proof {
                lemma_stock_grows(islands@, (i + 1) as nat, islands@.len());
            }
            return false;
        }
        stock = sum as u64;
        i = i + 1;
    }
    true
}

/// The island that an event is credited to: the one that owns the house of
/// the person who sent it. There is none where the person does not exist,
/// has no house, or the house or its island does not exist.
pub open spec fn destination(
    event: GatherEvent,
    people: Seq<Person>,
    houses: Seq<House>,
    islands: int,
) -> Option<int> {
    if event.0 < people.len() {
        match people[event.0 as int].house {
            Some(h) => if h < houses.len() && houses[h as int].island < islands {
                Some(houses[h as int].island as int)
            } else {
                None
            },
            None => None,
        }
    } else {
        None
    }
}

/// The events that are credited to some island.
pub open spec fn is_delivered(people: Seq<Person>, houses: Seq<House>, islands: int) -> spec_fn(
    GatherEvent,
) -> bool {
    |event: GatherEvent| destination(event, people, houses, islands) is Some
}

/// The events that are credited to the given island.
pub open spec fn is_sent_to(people: Seq<Person>, houses: Seq<House>, islands: int, island: int)
    -> spec_fn(GatherEvent) -> bool {
    |event: GatherEvent| destination(event, people, houses, islands) == Some(island)
}

/// The events of the given kind that are credited to the given island.
pub open spec fn is_credit(
    people: Seq<Person>,
    houses: Seq<House>,
    islands: int,
    island: int,
    kind: NaturalResourceType,
) -> spec_fn(GatherEvent) -> bool {
    |event: GatherEvent|
        destination(event, people, houses, islands) == Some(island) && event.1 == kind
}

/// The number of events of the given kind that are credited to the given
/// island.
pub open spec fn credited(
    events: Seq<GatherEvent>,
    people: Seq<Person>,
    houses: Seq<House>,
    islands: int,
    island: int,
    kind: NaturalResourceType,
) -> nat {
    events.filter(is_credit(people, houses, islands, island, kind)).len()
}

/// The pool after the events have been delivered: every count is raised by
/// the number of events of its kind that are credited to the island.
pub open spec fn pool_after(
    pool: IslandNR,
    events: Seq<GatherEvent>,
    people: Seq<Person>,
    houses: Seq<House>,
    islands: int,
    island: int,
) -> IslandNR {
    IslandNR {
        coal: (pool.coal + credited(
            events,
            people,
            houses,
            islands,
            island,
            NaturalResourceType::Coal,
        )) as u64,
        iron: (pool.iron + credited(
            events,
            people,
            houses,
            islands,
            island,
            NaturalResourceType::Iron,
        )) as u64,
        gold: (pool.gold + credited(
            events,
            people,
            houses,
            islands,
            island,
            NaturalResourceType::Gold,
        )) as u64,
        wood: (pool.wood + credited(
            events,
            people,
            houses,
            islands,
            island,
            NaturalResourceType::Wood,
        )) as u64,
        water: (pool.water + credited(
            events,
            people,
            houses,
            islands,
            island,
            NaturalResourceType::Water,
        )) as u64,
    }
}

/// What one draining of the event channel did.
#[derive(Debug, Clone, Copy, PartialEq, Eq, Structural)]
pub struct Delivery {
    /// Events credited to an island.
    pub delivered: usize,
    /// Events dropped for want of a person, a house or an island.
    pub dropped: usize,
}

/// Where the event is credited, if anywhere.
pub fn route(event: &GatherEvent, people: &Vec<Person>, houses: &Vec<House>, islands: usize) -> (to:
    Option<usize>)
    ensures
        to matches Some(island) ==> destination(*event, people@, houses@, islands as int) == Some(
            island as int,
        ),
        to is None ==> destination(*event, people@, houses@, islands as int) is None,
{
    if event.0 < people.len() {
        match people[event.0].house {
            Some(h) => if h < houses.len() && houses[h].island < islands {
                Some(houses[h].island)
            } else {
                None
            },
            None => None,
        }
    } else {
        None
    }
}

/// Drains the event channel, first event first. Each event is credited to
/// the island that owns the house of the person who sent it: that island's
/// count of the event's kind goes up by one, and the island is marked as
/// changed. An event whose person, house or island is missing is dropped.
///
/// Afterwards the channel is empty, and every count has gone up by exactly
/// the number of events that were credited to it.
pub fn handle_gather_events(
    events: &mut Vec<GatherEvent>,
    people: &Vec<Person>,
    houses: &Vec<House>,
    islands: &mut Vec<Island>,
) -> (report: Delivery)
    requires
        total_stock(old(islands)@) + old(events)@.len() <= u64::MAX,
    ensures
        final(events)@.len() == 0,
        final(islands)@.len() == old(islands)@.len(),
        forall|i: int|
            0 <= i < old(islands)@.len() ==> (#[trigger] final(islands)@[i]) == old(
                islands,
            )@[i].with_pool(
                pool_after(
                    old(islands)@[i].natural_resources,
                    old(events)@,
                    people@,
                    houses@,
                    old(islands)@.len() as int,
                    i,
                ),
                old(islands)@[i].changed || old(events)@.filter(
                    is_sent_to(people@, houses@, old(islands)@.len() as int, i),
                ).len() > 0,
            ),
        forall|i: int, kind: NaturalResourceType|
            0 <= i < old(islands)@.len() ==> (#[trigger] final(islands)@[i].natural_resources.count(
                kind,
            )) == old(islands)@[i].natural_resources.count(kind) + credited(
                old(events)@,
                people@,
                houses@,
                old(islands)@.len() as int,
                i,
                kind,
            ),
        report.delivered == old(events)@.filter(
            is_delivered(people@, houses@, old(islands)@.len() as int),
        ).len(),
        report.delivered + report.dropped == old(events)@.len(),
        total_stock(final(islands)@) == total_stock(old(islands)@) + report.delivered,
        islands_wf(old(islands)@) ==> islands_wf(final(islands)@),
{
    let ghost before = islands@;
    let ghost sent = events@;
    let ghost n = islands@.len() as int;
    let count = islands.len();
    let mut delivered: usize = 0;
    let mut dropped: usize = 0;
    let mut e: usize = 0;
    while e < events.len()
        invariant
            e <= events@.len(),
            events@ == sent,
            islands@.len() == n,
            before.len() == n,
            count == n,
            total_stock(before) + sent.len() <= u64::MAX,
            delivered + dropped == e,
            delivered == sent.take(e as int).filter(is_delivered(people@, houses@, n)).len(),
            total_stock(islands@) == total_stock(before) + delivered,
            forall|i: int|
                0 <= i < n ==> {
                    &&& (#[trigger] islands@[i]).title == before[i].title
                    &&& islands@[i].size == before[i].size
                    &&& islands@[i].position == before[i].position
                    &&& islands@[i].changed == (before[i].changed || sent.take(e as int).filter(
                        is_sent_to(people@, houses@, n, i),
                    ).len() > 0)
                },
            forall|i: int, kind: NaturalResourceType|
                0 <= i < n ==> (#[trigger] islands@[i].natural_resources.count(kind))
                    == before[i].natural_resources.count(kind) + credited(
                    sent.take(e as int),
                    people@,
                    houses@,
                    n,
                    i,
                    kind,
                ),
        decreases events@.len() - e,
    {
        let event = events[e];
        let to = route(&event, people, houses, count);
        let ghost held = islands@;
        proof {
            lemma_filter_take_step(sent, is_delivered(people@, houses@, n), e as int);
            assert forall|i: int| 0 <= i < n implies sent.take(e + 1).filter(
                is_sent_to(people@, houses@, n, i),
            ).len() == sent.take(e as int).filter(is_sent_to(people@, houses@, n, i)).len() + if (
            is_sent_to(people@, houses@, n, i))(sent[e as int]) {
                1int
            } else {
                0int
            } by {
                lemma_filter_take_step(sent, is_sent_to(people@, houses@, n, i), e as int);
            }
            assert forall|i: int, kind: NaturalResourceType| 0 <= i < n implies credited(
                sent.take(e + 1),
                people@,
                houses@,
                n,
                i,
                kind,
            ) == credited(sent.take(e as int), people@, houses@, n, i, kind) + if (is_credit(
                people@,
                houses@,
                n,
                i,
                kind,
            ))(sent[e as int]) {
                1int
            } else {
                0int
            } by {
                lemma_filter_take_step(sent, is_credit(people@, houses@, n, i, kind), e as int);
            }
        }
        match to {
            Some(island) => {
                proof {
                    lemma_stock_holds(held, island as int, held.len());
                    assert(held[island as int].natural_resources.count(event.1)
                        <= held[island as int].natural_resources.total());
                }
                islands[island].natural_resources.add_one(event.1);
                islands[island].changed = true;
                delivered = delivered + 1;
                proof {
                    assert(islands@ =~= held.update(island as int, islands@[island as int]));
                    lemma_stock_update(held, island as int, islands@[island as int], held.len());
                }
            },
            None => {
                dropped = dropped + 1;
            },
        }
        e = e + 1;
    }
    proof {
        assert(sent.take(sent.len() as int) =~= sent);
        assert forall|i: int| 0 <= i < n implies (#[trigger] islands@[i]) == before[i].with_pool(
            pool_after(before[i].natural_resources, sent, people@, houses@, n, i),
            before[i].changed || sent.filter(is_sent_to(people@, houses@, n, i)).len() > 0,
        ) by {
            let pool = islands@[i].natural_resources;
            assert(pool.count(NaturalResourceType::Coal) == pool.coal);
            assert(pool.count(NaturalResourceType::Iron) == pool.iron);
            assert(pool.count(NaturalResourceType::Gold) == pool.gold);
            assert(pool.count(NaturalResourceType::Wood) == pool.wood);
            assert(pool.count(NaturalResourceType::Water) == pool.water);
        }
    }
    events.clear();
    Delivery { delivered, dropped }
}

/// The number of houses that the first `n` islands can pay for: for every
/// island among them that is marked as changed, as many as its count of
/// `kind` holds the cost.
pub open spec fn affordable_upto(
    islands: Seq<Island>,
    kind: NaturalResourceType,
    cost: int,
    n: nat,
) -> nat
    decreases n,
{
    if n == 0 {
        0
    } else {
        affordable_upto(islands, kind, cost, (n - 1) as nat) + if islands[n - 1].changed {
            (islands[n - 1].natural_resources.count(kind) as int / cost) as nat
        } else {
            0nat
        }
    }
}

/// The number of houses that the islands can pay for.
pub open spec fn affordable(islands: Seq<Island>, kind: NaturalResourceType, cost: int) -> nat {
    affordable_upto(islands, kind, cost, islands.len())
}

/// The island after the spawner has looked at it: one that was marked as
/// changed has spent its count of `kind` down to what does not pay for
/// another house, and is no longer marked; another island is as it was.
pub open spec fn settled(island: Island, kind: NaturalResourceType, cost: int) -> Island {
    if island.changed {
        island.with_pool(
            island.natural_resources.with_count(
                kind,
                (island.natural_resources.count(kind) as int % cost) as u64,
            ),
            false,
        )
    } else {
        island
    }
}

/// The houses with an index in `lo..hi` stand on island `index`, on its
/// footprint.
pub open spec fn built_on(houses: Seq<House>, island: Island, index: int, lo: int, hi: int) -> bool {
    forall|h: int|
        lo <= h < hi ==> (#[trigger] houses[h]).island == index && island.covers(houses[h].position)
}

/// From house `first_house` and person `first_person` on, houses and people
/// go in pairs: each of those people has just moved into the house of the
/// same rank.
pub open spec fn housed_in_pairs(
    houses: Seq<House>,
    people: Seq<Person>,
    first_house: int,
    first_person: int,
) -> bool {
    &&& 0 <= first_house <= houses.len()
    &&& 0 <= first_person <= people.len()
    &&& people.len() - first_person == houses.len() - first_house
    &&& forall|p: int|
        first_person <= p < people.len() ==> is_newcomer(
            #[trigger] people[p],
            (first_house + p - first_person) as usize,
            houses[first_house + p - first_person].position,
        )
}

/// Builds one house on island `index`, at a position drawn on the island's
/// footprint, and moves one new inhabitant in. The offset from the centre
/// is drawn across the disc first, and then along the chord that the disc
/// has there.
pub fn raise_house(
    island: &Island,
    index: usize,
    houses: &mut Vec<House>,
    people: &mut Vec<Person>,
    rng: &mut rand::rngs::StdRng,
)
    requires
        island.wf(),
    ensures
        final(houses)@.len() == old(houses)@.len() + 1,
        final(houses)@.subrange(0, old(houses)@.len() as int) == old(houses)@,
        final(houses)@[old(houses)@.len() as int].island == index,
        island.covers(final(houses)@[old(houses)@.len() as int].position),
        final(houses)@[old(houses)@.len() as int].position.within(WORLD_LIMIT as int),
        final(people)@.len() == old(people)@.len() + 1,
        final(people)@.subrange(0, old(people)@.len() as int) == old(people)@,
        is_newcomer(
            final(people)@[old(people)@.len() as int],
            old(houses)@.len() as usize,
            final(houses)@[old(houses)@.len() as int].position,
        ),
        final(people)@[old(people)@.len() as int].wf(),
{
    let radius = island.size.width / 2;
    let across = draw_between(rng, -radius, radius);
    let reach = half_chord(radius, across);
    let along = draw_between(rng, -reach, reach);
    let position = Position { x: island.position.x + across, y: island.position.y + along };
    proof {
        lemma_chord_on_disc(radius as int, across as int, reach as int, along as int);
    }
    let home = houses.len();
    houses.push(House { island: index, position });
    settle(people, rng, home, position);
    proof {
        assert(houses@.subrange(0, old(houses)@.len() as int) =~= old(houses)@);
        assert(position.within(crate::geometry::AGENT_LIMIT as int));
    }
}

/// The spawner's work on one island. If the island is marked as changed,
/// then for as long as its count of `kind` is at least `cost` the cost is
/// deducted and a house with one inhabitant is built on the island; at the
/// end the mark is taken off. The number of houses built is handed back.
pub fn settle_island(
    islands: &mut Vec<Island>,
    index: usize,
    houses: &mut Vec<House>,
    people: &mut Vec<Person>,
    rng: &mut rand::rngs::StdRng,
    kind: NaturalResourceType,
    cost: u64,
) -> (built: usize)
    requires
        0 < cost,
        index < old(islands)@.len(),
        old(islands)@[index as int].wf(),
    ensures
        final(islands)@ == old(islands)@.update(
            index as int,
            settled(old(islands)@[index as int], kind, cost as int),
        ),
        built == if old(islands)@[index as int].changed {
            old(islands)@[index as int].natural_resources.count(kind) as int / (cost as int)
        } else {
            0
        },
        final(houses)@.len() == old(houses)@.len() + built,
        final(houses)@.subrange(0, old(houses)@.len() as int) == old(houses)@,
        built_on(
            final(houses)@,
            old(islands)@[index as int],
            index as int,
            old(houses)@.len() as int,
            final(houses)@.len() as int,
        ),
        houses_in_world_from(final(houses)@, old(houses)@.len() as int),
        final(people)@.len() == old(people)@.len() + built,
        people_settled(
            old(houses)@.len() as int,
            old(people)@,
            final(houses)@,
            final(people)@,
        ),
        total_stock(final(islands)@) + cost * built == total_stock(old(islands)@),
{
    let first = houses.len();
    let ghost before = islands@;
    let ghost homes = houses@;
    let ghost crowd = people@;
    let ghost c = cost as int;
    let ghost i = index as int;
    proof {
        assert(homes.subrange(0, homes.len() as int) =~= homes);
        assert(crowd.subrange(0, crowd.len() as int) =~= crowd);
    }
    if !islands[index].changed {
        proof {
            assert(islands@ =~= before.update(i, settled(before[i], kind, c)));
        }
        return 0;
    }
    let ghost start = before[i].natural_resources.count(kind) as int;
    let mut here: Ghost<int> = Ghost(0);
    while islands[index].natural_resources.get(kind) >= cost
        invariant
            0 < cost,
            c == cost,
            i == index,
            index < islands@.len(),
            islands@.len() == before.len(),
            before[i].wf(),
            before[i].changed,
            0 <= here@,
            first == homes.len(),
            start == before[i].natural_resources.count(kind),
            0 <= start - c * here@ <= u64::MAX,
            islands@ == before.update(
                i,
                before[i].with_pool(
                    before[i].natural_resources.with_count(kind, (start - c * here@) as u64),
                    true,
                ),
            ),
            houses@.len() == homes.len() + here@,
            houses@.subrange(0, homes.len() as int) == homes,
            built_on(houses@, before[i], i, homes.len() as int, houses@.len() as int),
            houses_in_world_from(houses@, homes.len() as int),
            people@.len() == crowd.len() + here@,
            people@.subrange(0, crowd.len() as int) == crowd,
            housed_in_pairs(houses@, people@, homes.len() as int, crowd.len() as int),
            people_wf(crowd) ==> people_wf(people@),
            total_stock(islands@) + c * here@ == total_stock(before),
        decreases islands@[i].natural_resources.count(kind),
    {
        let ghost held = islands@;
        let ghost lodged = houses@;
        let ghost living = people@;
        raise_house(&islands[index], index, houses, people, rng);
        islands[index].natural_resources.take(kind, cost);
        proof {
            assert(c * (here@ + 1) == c * here@ + c) by (nonlinear_arith);
            assert(islands@ =~= before.update(
                i,
                before[i].with_pool(
                    before[i].natural_resources.with_count(kind, (start - c * (here@ + 1)) as u64),
                    true,
                ),
            ));
            assert(islands@ =~= held.update(i, islands@[i]));
            lemma_stock_update(held, i, islands@[i], held.len());
            lemma_stock_holds(held, i, held.len());
            assert(houses@.subrange(0, homes.len() as int) =~= lodged.subrange(
                0,
                homes.len() as int,
            ));
            assert(people@.subrange(0, crowd.len() as int) =~= living.subrange(
                0,
                crowd.len() as int,
            ));
            assert forall|h: int| 0 <= h < lodged.len() implies houses@[h] == lodged[h] by {
                assert(houses@[h] == houses@.subrange(0, lodged.len() as int)[h]);
            }
            assert forall|p: int| 0 <= p < living.len() implies people@[p] == living[p] by {
                assert(people@[p] == people@.subrange(0, living.len() as int)[p]);
            }
            assert(held[i].position == before[i].position && held[i].size == before[i].size);
            assert forall|h: int| homes.len() <= h < houses@.len() implies (#[trigger] houses@[h]).island
                == i && before[i].covers(houses@[h].position) && houses@[h].position.within(
                WORLD_LIMIT as int,
            ) by {
                if h < lodged.len() {
                    assert(houses@[h] == lodged[h]);
                }
            }
            assert forall|p: int| crowd.len() <= p < people@.len() implies is_newcomer(
                #[trigger] people@[p],
                (homes.len() + p - crowd.len()) as usize,
                houses@[homes.len() + p - crowd.len()].position,
            ) by {
                if p < living.len() {
                    assert(people@[p] == living[p]);
                    assert(houses@[homes.len() + p - crowd.len()] == lodged[homes.len() + p
                        - crowd.len()]);
                }
            }
            if people_wf(crowd) {
                assert forall|p: int| 0 <= p < people@.len() implies (#[trigger] people@[p]).wf() by {
                    if p < living.len() {
                        assert(people@[p] == living[p]);
                    }
                }
            }
            here@ = here@ + 1;
        }
    }
    let ghost spent = islands@;
    islands[index].changed = false;
    proof {
        let left = start - c * here@;
        assert(here@ * c == c * here@) by (nonlinear_arith);
        vstd::arithmetic::div_mod::lemma_fundamental_div_mod_converse(start, c, here@, left);
        assert(islands@ =~= before.update(i, settled(before[i], kind, c)));
        assert(islands@ =~= spent.update(i, islands@[i]));
        lemma_stock_update(spent, i, islands@[i], spent.len());
        lemma_stock_holds(spent, i, spent.len());
    }
    houses.len() - first
}

/// The houses from index `first` on lie inside the world.
pub open spec fn houses_in_world_from(houses: Seq<House>, first: int) -> bool {
    forall|h: int|
        first <= h < houses.len() ==> (#[trigger] houses[h]).position.within(WORLD_LIMIT as int)
}

/// Of the islands when the spawner has dealt with the first `i` of them:
/// those are settled, the others are as they were, and what has been spent
/// is the cost of the houses paid for.
pub open spec fn islands_settled_upto(
    before: Seq<Island>,
    islands: Seq<Island>,
    kind: NaturalResourceType,
    cost: int,
    i: int,
) -> bool {
    &&& 0 <= i <= before.len()
    &&& islands.len() == before.len()
    &&& forall|k: int| 0 <= k < i ==> (#[trigger] islands[k]) == settled(before[k], kind, cost)
    &&& forall|k: int| i <= k < before.len() ==> (#[trigger] islands[k]) == before[k]
    &&& total_stock(islands) + cost * affordable_upto(before, kind, cost, i as nat) == total_stock(
        before,
    )
}

/// Of the houses when the spawner has dealt with the first `i` islands: the
/// houses that were there are in place, and after them come, island by
/// island, as many new houses as each island could pay for, on the
/// island's footprint.
pub open spec fn houses_built_upto(
    before: Seq<Island>,
    homes: Seq<House>,
    houses: Seq<House>,
    kind: NaturalResourceType,
    cost: int,
    i: int,
) -> bool {
    &&& 0 <= i <= before.len()
    &&& houses.len() == homes.len() + affordable_upto(before, kind, cost, i as nat)
    &&& houses.subrange(0, homes.len() as int) == homes
    &&& forall|k: int|
        0 <= k < i ==> #[trigger] built_on(
            houses,
            before[k],
            k,
            homes.len() as int + affordable_upto(before, kind, cost, k as nat),
            homes.len() as int + affordable_upto(before, kind, cost, (k + 1) as nat),
        )
    &&& houses_in_world_from(houses, homes.len() as int)
    &&& forall|h: int| homes.len() <= h < houses.len() ==> (#[trigger] houses[h]).island < before.len()
}

/// Of the people when the spawner has built the houses from index
/// `homes` on: the people who were there are in place, and after them
/// comes one newcomer for every new house, in the order of the houses.
pub open spec fn people_settled(
    homes: int,
    crowd: Seq<Person>,
    houses: Seq<House>,
    people: Seq<Person>,
) -> bool {
    &&& people.subrange(0, crowd.len() as int) == crowd
    &&& housed_in_pairs(houses, people, homes, crowd.len() as int)
    &&& people_wf(crowd) ==> people_wf(people)
}

/// What holds when the spawner has dealt with the first `i` islands, of
/// the islands, houses and people as they now are. `before`, `homes` and
/// `crowd` are the islands, houses and people that the spawner found.
pub open spec fn spawned_upto(
    before: Seq<Island>,
    homes: Seq<House>,
    crowd: Seq<Person>,
    islands: Seq<Island>,
    houses: Seq<House>,
    people: Seq<Person>,
    kind: NaturalResourceType,
    cost: int,
    i: int,
) -> bool {
    &&& islands_settled_upto(before, islands, kind, cost, i)
    &&& houses_built_upto(before, homes, houses, kind, cost, i)
    &&& people_settled(homes.len() as int, crowd, houses, people)
}

/// Settling island `i` takes the islands from `islands_settled_upto(.., i)`
/// to `islands_settled_upto(.., i + 1)`.
proof fn lemma_islands_step(
    before: Seq<Island>,
    held: Seq<Island>,
    islands: Seq<Island>,
    kind: NaturalResourceType,
    cost: int,
    i: int,
    built: int,
)
    requires
        0 < cost,
        0 <= i < before.len(),
        islands_settled_upto(before, held, kind, cost, i),
        islands == held.update(i, settled(held[i], kind, cost)),
        built == if held[i].changed {
            held[i].natural_resources.count(kind) as int / cost
        } else {
            0
        },
        total_stock(islands) + cost * built == total_stock(held),
    ensures
        islands_settled_upto(before, islands, kind, cost, i + 1),
        affordable_upto(before, kind, cost, (i + 1) as nat) == affordable_upto(
            before,
            kind,
            cost,
            i as nat,
        ) + built,
{
    let base = affordable_upto(before, kind, cost, i as nat) as int;
    assert(held[i] == before[i]);
    assert(cost * (base + built) == cost * base + cost * built) by (nonlinear_arith);
    assert forall|k: int| 0 <= k < i + 1 implies (#[trigger] islands[k]) == settled(
        before[k],
        kind,
        cost,
    ) by {
        if k < i {
            assert(held[k] == settled(before[k], kind, cost));
        }
    }
    assert forall|k: int| i + 1 <= k < before.len() implies (#[trigger] islands[k]) == before[k] by {
        assert(held[k] == before[k]);
    }
}

/// Building on island `i` takes the houses from `houses_built_upto(.., i)`
/// to `houses_built_upto(.., i + 1)`.
proof fn lemma_houses_step(
    before: Seq<Island>,
    homes: Seq<House>,
    lodged: Seq<House>,
    houses: Seq<House>,
    kind: NaturalResourceType,
    cost: int,
    i: int,
    built: int,
)
    requires
        0 < cost,
        0 <= i < before.len(),
        0 <= built,
        houses_built_upto(before, homes, lodged, kind, cost, i),
        affordable_upto(before, kind, cost, (i + 1) as nat) == affordable_upto(
            before,
            kind,
            cost,
            i as nat,
        ) + built,
        houses.len() == lodged.len() + built,
        houses.subrange(0, lodged.len() as int) == lodged,
        built_on(houses, before[i], i, lodged.len() as int, houses.len() as int),
        houses_in_world_from(houses, lodged.len() as int),
    ensures
        houses_built_upto(before, homes, houses, kind, cost, i + 1),
{
    let base = affordable_upto(before, kind, cost, i as nat) as int;
    lemma_affordable_monotone(before, kind, cost, i as nat);
    assert forall|h: int| 0 <= h < lodged.len() implies houses[h] == lodged[h] by {
        assert(houses[h] == houses.subrange(0, lodged.len() as int)[h]);
    }
    assert(houses.subrange(0, homes.len() as int) =~= lodged.subrange(0, homes.len() as int));
    assert forall|k: int| 0 <= k < i + 1 implies #[trigger] built_on(
        houses,
        before[k],
        k,
        homes.len() as int + affordable_upto(before, kind, cost, k as nat),
        homes.len() as int + affordable_upto(before, kind, cost, (k + 1) as nat),
    ) by {
        let lo = homes.len() as int + affordable_upto(before, kind, cost, k as nat);
        let hi = homes.len() as int + affordable_upto(before, kind, cost, (k + 1) as nat);
        if k < i {
            assert(affordable_upto(before, kind, cost, (k + 1) as nat) <= base);
            assert(built_on(lodged, before[k], k, lo, hi));
            assert forall|h: int| lo <= h < hi implies (#[trigger] houses[h]).island == k
                && before[k].covers(houses[h].position) by {
                assert(houses[h] == lodged[h]);
            }
        } else {
            assert(lo == lodged.len());
            assert(hi == houses.len());
        }
    }
    assert forall|h: int| homes.len() <= h < houses.len() implies (#[trigger] houses[h]).island
        < before.len() && houses[h].position.within(WORLD_LIMIT as int) by {
        if h < lodged.len() {
            assert(houses[h] == lodged[h]);
        }
    }
}

/// Pairs of houses and newcomers that follow pairs of houses and newcomers
/// are pairs of houses and newcomers throughout.
proof fn lemma_people_step(
    homes: int,
    crowd: Seq<Person>,
    lodged: Seq<House>,
    living: Seq<Person>,
    houses: Seq<House>,
    people: Seq<Person>,
)
    requires
        people_settled(homes, crowd, lodged, living),
        houses.subrange(0, lodged.len() as int) == lodged,
        lodged.len() <= houses.len(),
        people_settled(lodged.len() as int, living, houses, people),
    ensures
        people_settled(homes, crowd, houses, people),
{
    assert forall|h: int| 0 <= h < lodged.len() implies houses[h] == lodged[h] by {
        assert(houses[h] == houses.subrange(0, lodged.len() as int)[h]);
    }
    assert forall|p: int| 0 <= p < living.len() implies people[p] == living[p] by {
        assert(people[p] == people.subrange(0, living.len() as int)[p]);
    }
    assert(people.subrange(0, crowd.len() as int) =~= living.subrange(0, crowd.len() as int));
    assert forall|p: int| crowd.len() <= p < people.len() implies is_newcomer(
        #[trigger] people[p],
        (homes + p - crowd.len()) as usize,
        houses[homes + p - crowd.len()].position,
    ) by {
        if p < living.len() {
            assert(people[p] == living[p]);
            assert(houses[homes + p - crowd.len()] == lodged[homes + p - crowd.len()]);
        } else {
            assert(homes + p - crowd.len() == lodged.len() + p - living.len());
        }
    }
}

/// The spawner. On every island whose pool has been credited since the
/// spawner last looked, and for as long as the island's count of `kind` is
/// at least `cost`: the cost is deducted, and a house is built at a
/// position drawn on the island's footprint, with one new inhabitant.
///
/// An island can pay for several houses in one pass, and an island that
/// cannot pay for one is only unmarked. The new houses follow the old ones
/// island by island, and the new inhabitants follow the old ones in the
/// order of their houses. The number of houses built is handed back.
pub fn handle_resources_changes(
    islands: &mut Vec<Island>,
    houses: &mut Vec<House>,
    people: &mut Vec<Person>,
    rng: &mut rand::rngs::StdRng,
    kind: NaturalResourceType,
    cost: u64,
) -> (built: usize)
    requires
        0 < cost,
        islands_wf(old(islands)@),
    ensures
        spawned_upto(
            old(islands)@,
            old(houses)@,
            old(people)@,
            final(islands)@,
            final(houses)@,
            final(people)@,
            kind,
            cost as int,
            old(islands)@.len() as int,
        ),
        final(islands)@.len() == old(islands)@.len(),
        forall|i: int|
            0 <= i < old(islands)@.len() ==> (#[trigger] final(islands)@[i]) == settled(
                old(islands)@[i],
                kind,
                cost as int,
            ),
        islands_wf(final(islands)@),
        built == affordable(old(islands)@, kind, cost as int),
        final(houses)@.len() == old(houses)@.len() + built,
        final(houses)@.subrange(0, old(houses)@.len() as int) == old(houses)@,
        final(people)@.len() == old(people)@.len() + built,
        final(people)@.subrange(0, old(people)@.len() as int) == old(people)@,
        housed_in_pairs(
            final(houses)@,
            final(people)@,
            old(houses)@.len() as int,
            old(people)@.len() as int,
        ),
        houses_wf(old(houses)@, old(islands)@.len() as int) ==> houses_wf(
            final(houses)@,
            old(islands)@.len() as int,
        ),
        people_wf(old(people)@) ==> people_wf(final(people)@),
        total_stock(final(islands)@) + cost * built == total_stock(old(islands)@),
{
    let first = houses.len();
    let ghost before = islands@;
    let ghost homes = houses@;
    let ghost crowd = people@;
    let ghost c = cost as int;
    let mut i: usize = 0;
    proof {
        assert(homes.subrange(0, homes.len() as int) =~= homes);
        assert(crowd.subrange(0, crowd.len() as int) =~= crowd);
        assert(c * affordable_upto(before, kind, c, 0) == 0) by (nonlinear_arith)
            requires
                affordable_upto(before, kind, c, 0) == 0,
        ;
        assert(islands_settled_upto(before, islands@, kind, c, 0));
        assert(houses_built_upto(before, homes, houses@, kind, c, 0));
        assert(people_settled(homes.len() as int, crowd, houses@, people@));
    }
    while i < islands.len()
        invariant
            0 < cost,
            c == cost,
            first == homes.len(),
            islands_wf(before),
            spawned_upto(before, homes, crowd, islands@, houses@, people@, kind, c, i as int),
        decreases before.len() - i,
    {
        let ghost held = islands@;
        let ghost lodged = houses@;
        let ghost living = people@;
        assert(before[i as int].wf());
        assert(held[i as int] == before[i as int]);
        let built = settle_island(islands, i, houses, people, rng, kind, cost);
        proof {
            lemma_islands_step(before, held, islands@, kind, c, i as int, built as int);
            lemma_houses_step(before, homes, lodged, houses@, kind, c, i as int, built as int);
            lemma_people_step(homes.len() as int, crowd, lodged, living, houses@, people@);
        }
        i = i + 1;
    }
    proof {
        let n = before.len() as int;
        assert forall|h: int| 0 <= h < houses@.len() && houses_wf(homes, n) implies (
        #[trigger] houses@[h]).wf(n) by {
            if h < homes.len() {
                assert(houses@[h] == houses@.subrange(0, homes.len() as int)[h]);
            }
        }
        assert forall|k: int| 0 <= k < n implies (#[trigger] islands@[k]).wf() by {
            assert(before[k].wf());
        }
    }
    houses.len() - first
}

/// What more islands can pay for is no less, and what the first `i`
/// islands can pay for is no more than what the first `n` can.
pub proof fn lemma_affordable_monotone(
    islands: Seq<Island>,
    kind: NaturalResourceType,
    cost: int,
    n: nat,
)
    requires
        0 < cost,
    ensures
        forall|i: nat| i <= n ==> #[trigger] affordable_upto(islands, kind, cost, i)
            <= affordable_upto(islands, kind, cost, n),
    decreases n,
{
    if n > 0 {
        lemma_affordable_monotone(islands, kind, cost, (n - 1) as nat);
    }
}

/// Events that all go to one island and are all of one kind raise that
/// island's count of that kind by their number, and no other count of any
/// island by anything.
pub proof fn law_credit_counts_events(
    events: Seq<GatherEvent>,
    people: Seq<Person>,
    houses: Seq<House>,
    islands: int,
    island: int,
    kind: NaturalResourceType,
)
    requires
        forall|e: int|
            0 <= e < events.len() ==> destination(#[trigger] events[e], people, houses, islands)
                == Some(island) && events[e].1 == kind,
    ensures
        credited(events, people, houses, islands, island, kind) == events.len(),
        forall|other: int, k: NaturalResourceType|
            other != island || k != kind ==> #[trigger] credited(
                events,
                people,
                houses,
                islands,
                other,
                k,
            ) == 0,
    decreases events.len(),
{
    reveal(Seq::filter);
    if events.len() > 0 {
        let rest = events.drop_last();
        law_credit_counts_events(rest, people, houses, islands, island, kind);
        assert forall|other: int, k: NaturalResourceType| other != island || k != kind implies 
            #[trigger] credited(events, people, houses, islands, other, k) == 0 by {
            assert(credited(rest, people, houses, islands, other, k) == 0);
            assert(!(is_credit(people, houses, islands, other, k))(events.last()));
        }
        assert((is_credit(people, houses, islands, island, kind))(events.last()));
    } else {
        assert forall|other: int, k: NaturalResourceType| other != island || k != kind implies 
            #[trigger] credited(events, people, houses, islands, other, k) == 0 by {}
    }
}

/// Looking at one more element adds it to the filtered ones if it passes.
proof fn lemma_filter_take_step(s: Seq<GatherEvent>, pred: spec_fn(GatherEvent) -> bool, n: int)
    requires
        0 <= n < s.len(),
    ensures
        s.take(n + 1).filter(pred).len() == s.take(n).filter(pred).len() + if pred(s[n]) {
            1int
        } else {
            0int
        },
{
    reveal(Seq::filter);
    assert(s.take(n + 1).drop_last() =~= s.take(n));
}

/// What the first `n` islands hold depends on their pools alone.
pub proof fn lemma_stock_agrees(a: Seq<Island>, b: Seq<Island>, n: nat)
    requires
        n <= a.len(),
        n <= b.len(),
        forall|i: int| 0 <= i < n ==> a[i].natural_resources == b[i].natural_resources,
    ensures
        stock_upto(a, n) == stock_upto(b, n),
    decreases n,
{
    if n > 0 {
        lemma_stock_agrees(a, b, (n - 1) as nat);
    }
}

/// More islands hold no less.
pub proof fn lemma_stock_grows(islands: Seq<Island>, i: nat, n: nat)
    requires
        i <= n,
    ensures
        stock_upto(islands, i) <= stock_upto(islands, n),
    decreases n,
{
    if i < n {
        lemma_stock_grows(islands, i, (n - 1) as nat);
    }
}

/// No pool among the first `n` holds more than they hold together.
pub proof fn lemma_stock_holds(islands: Seq<Island>, i: int, n: nat)
    requires
        0 <= i < n <= islands.len(),
    ensures
        islands[i].natural_resources.total() <= stock_upto(islands, n),
    decreases n,
{
    if i < n - 1 {
        lemma_stock_holds(islands, i, (n - 1) as nat);
    }
}

/// Replacing one island changes the stock by what its pool gained or lost.
pub proof fn lemma_stock_update(islands: Seq<Island>, i: int, island: Island, n: nat)
    requires
        0 <= i < islands.len(),
        n <= islands.len(),
    ensures
        stock_upto(islands.update(i, island), n) == if i < n {
            stock_upto(islands, n) - islands[i].natural_resources.total()
                + island.natural_resources.total()
        } else {
            stock_upto(islands, n) as int
        },
    decreases n,
{
    if n > 0 {
        lemma_stock_update(islands, i, island, (n - 1) as nat);
        if i < n - 1 {
            lemma_stock_holds(islands, i, (n - 1) as nat);
        }
    }
}

} // verus!
