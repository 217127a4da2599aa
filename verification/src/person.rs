//! Inhabitants: the task each one is on, the timers that start tasks, and
//! the movement that finishes them.

use crate::geometry::{Position, AGENT_LIMIT, MAX_TRAVEL, PERSON_SPEED, TARGET_LIMIT, WANDER_RANGE,
    law_long_step_lands_in_reach, law_short_step_approaches, lemma_unreached_is_far, line_length,
    travel_in};
use crate::house::{House, houses_in_world};
use crate::random::{Ratio, draw_between, draw_name};
use crate::resource::{NaturalResourceType, ResourceNode, consumed_count, consumed_upto, nodes_wf};
use crate::search::{has_live, nearest, nearest_resource};
use crate::timer::Timer;
use vstd::prelude::*;

verus! {

/// The record that a gatherer has brought one unit of a resource home:
/// the index of the gatherer and the kind gathered.
#[derive(Debug, Clone, Copy, PartialEq, Eq, Structural)]
pub struct GatherEvent(pub usize, pub NaturalResourceType);

/// What a person is doing.
#[derive(Debug, Clone, Copy, PartialEq, Eq, Structural)]
pub enum PersonTask {
    Idle,
    /// On the way to the resource node with the given index, to gather the
    /// given kind.
    Gathering(NaturalResourceType, usize),
    Wandering,
}

impl Default for PersonTask {
    fn default() -> (task: PersonTask)
        ensures
            task == PersonTask::Idle,
    {
        PersonTask::Idle
    }
}

/// The timer that sends idle people wandering.
#[derive(Debug, Clone, Copy, PartialEq, Eq)]
pub struct WanderTimer(pub Timer);

/// The timer that sends people gathering.
#[derive(Debug, Clone, Copy, PartialEq, Eq)]
pub struct GatherTimer(pub Timer);

/// Where a person is heading, if anywhere.
#[derive(Debug, Clone, Copy, PartialEq, Eq)]
pub struct TargetPosition(pub Option<Position>);

/// An inhabitant of the world.
#[derive(Debug, Clone, PartialEq, Eq)]
pub struct Person {
    pub name: String,
    pub task: PersonTask,
    /// Index of the house the person lives in, if any.
    pub house: Option<usize>,
    pub position: Position,
    pub target: TargetPosition,
}

impl Default for Person {
    /// Somebody without a name of their own, a house or a task, at the origin.
    fn default() -> (person: Person)
        ensures
            person.name@ == "Unnamed Pal"@,
            person.task == PersonTask::Idle,
            person.house is None,
            person.position == (Position { x: 0, y: 0 }),
            person.target.0 is None,
            person.wf(),
    {
        Person {
            name: "Unnamed Pal".to_owned(),
            task: PersonTask::default(),
            house: None,
            position: Position { x: 0, y: 0 },
            target: TargetPosition(None),
        }
    }
}

impl Person {
    /// A person has a target exactly while it wanders or gathers; the person
    /// and its target lie within their limits.
    pub open spec fn wf(self) -> bool {
        &&& self.position.within(AGENT_LIMIT as int)
        &&& self.target.0 is Some <==> self.task != PersonTask::Idle
        &&& self.target.0 matches Some(t) ==> t.within(TARGET_LIMIT as int)
    }

    /// The person has a target and is close enough to it to have arrived.
    pub open spec fn arrives(self) -> bool {
        self.target.0 matches Some(t) && self.position.reached(t)
    }

    /// The person arrives, and does so to gather node `k`.
    pub open spec fn completes(self, k: int) -> bool {
        self.arrives() && (self.task matches PersonTask::Gathering(_, node) && node == k)
    }

    /// The person as it is after arriving: idle, without a target, and where
    /// it was.
    pub open spec fn rested(self) -> Person {
        Person {
            name: self.name,
            task: PersonTask::Idle,
            house: self.house,
            position: self.position,
            target: TargetPosition(None),
        }
    }

    /// The person at another position.
    pub open spec fn at(self, x: int, y: int) -> Person {
        Person {
            name: self.name,
            task: self.task,
            house: self.house,
            position: Position { x: x as i64, y: y as i64 },
            target: self.target,
        }
    }

    /// The person after one movement step of length `travel`: unchanged
    /// without a target; at rest, and not moved, if it has arrived;
    /// otherwise one step further along the line to its target.
    pub open spec fn moved(self, travel: int) -> Person {
        match self.target.0 {
            None => self,
            Some(t) => if self.position.reached(t) {
                self.rested()
            } else {
                let (x, y) = self.position.stepped(t, travel);
                self.at(x, y)
            },
        }
    }

    /// Where the person stands after one movement step of length `travel`,
    /// as whole numbers: where it stood, if it has no target or has arrived;
    /// otherwise where the step along the line to its target leads.
    pub open spec fn place_after(self, travel: int) -> (int, int) {
        match self.target.0 {
            None => (self.position.x as int, self.position.y as int),
            Some(t) => if self.position.reached(t) {
                (self.position.x as int, self.position.y as int)
            } else {
                self.position.stepped(t, travel)
            },
        }
    }

    /// The person on the given task, heading for `target`.
    pub open spec fn heading(self, task: PersonTask, target: Position) -> Person {
        Person {
            name: self.name,
            task,
            house: self.house,
            position: self.position,
            target: TargetPosition(Some(target)),
        }
    }

    /// One movement step of length `travel`. On arrival the person comes to
    /// rest where it is, and the task it was on is handed back.
    pub fn walk(&mut self, travel: u64) -> (finished: Option<PersonTask>)
        requires
            old(self).wf(),
            travel <= MAX_TRAVEL,
        ensures
            *final(self) == old(self).moved(travel as int),
            (final(self).position.x as int, final(self).position.y as int)
                == old(self).place_after(travel as int),
            finished == if old(self).arrives() {
                Some(old(self).task)
            } else {
                None
            },
            final(self).wf(),
    {
        match self.target.0 {
            None => None,
            Some(t) => {
                if self.position.has_reached(&t) {
                    let task = self.task;
                    self.target = TargetPosition(None);
                    self.task = PersonTask::Idle;
                    Some(task)
                } else {
                    let next = self.position.advance(&t, travel);
                    self.position = next;
                    None
                }
            },
        }
    }

    /// Whether the person is well-formed.
    pub fn is_wf(&self) -> (ok: bool)
        ensures
            ok == self.wf(),
    {
        let busy = match self.task {
            PersonTask::Idle => false,
            _ => true,
        };
        self.position.is_within(AGENT_LIMIT) && match self.target.0 {
            Some(t) => busy && t.is_within(TARGET_LIMIT),
            None => !busy,
        }
    }

    /// Somebody who has just moved into house `house` at `position`: idle and
    /// without a target.
    pub fn newcomer(name: String, house: usize, position: Position) -> (person: Person)
        ensures
            person == (Person {
                name,
                task: PersonTask::Idle,
                house: Some(house),
                position,
                target: TargetPosition(None),
            }),
            position.within(AGENT_LIMIT as int) ==> person.wf(),
    {
        Person {
            name,
            task: PersonTask::Idle,
            house: Some(house),
            position,
            target: TargetPosition(None),
        }
    }

    /// Sends the person off on `task` toward `target`.
    pub fn set_out(&mut self, task: PersonTask, target: Position)
        requires
            old(self).position.within(AGENT_LIMIT as int),
            task != PersonTask::Idle,
            target.within(TARGET_LIMIT as int),
        ensures
            *final(self) == old(self).heading(task, target),
            final(self).wf(),
    {
        self.task = task;
        self.target = TargetPosition(Some(target));
    }
}

/// The names that new people are given.
pub const AVAILABLE_PERSON_NAMES: [&'static str; 7] = [
    "Leon",
    "Alina",
    "Elena",
    "Eduard",
    "Alexey",
    "Michael",
    "Vasya",
];

/// The names that new people are given.
pub open spec fn person_names() -> Seq<Seq<char>> {
    seq!["Leon"@, "Alina"@, "Elena"@, "Eduard"@, "Alexey"@, "Michael"@, "Vasya"@]
}

/// `name` is one of the names that new people are given.
pub open spec fn is_person_name(name: Seq<char>) -> bool {
    exists|i: int| 0 <= i < person_names().len() && #[trigger] person_names()[i] == name
}

/// The names that new people are given, as owned strings.
pub fn available_person_names() -> (names: Vec<String>)
    ensures
        names@.len() == 7,
        forall|i: int| 0 <= i < 7 ==> (#[trigger] names@[i])@ == person_names()[i],
{
    let mut names: Vec<String> = Vec::new();
    let mut i: usize = 0;
    while i < 7
        invariant
            i <= 7,
            names@.len() == i,
            forall|j: int| 0 <= j < i ==> (#[trigger] names@[j])@ == person_names()[j],
        decreases 7 - i,
    {
        names.push(AVAILABLE_PERSON_NAMES[i].to_owned());
        i = i + 1;
    }
    names
}

/// `person` is as somebody is who has just moved into house `house` at
/// `position`: idle, without a target, at the house, and with one of the
/// names for new people.
pub open spec fn is_newcomer(person: Person, house: usize, position: Position) -> bool {
    &&& person.house == Some(house)
    &&& person.task == PersonTask::Idle
    &&& person.target.0 is None
    &&& person.position == position
    &&& is_person_name(person.name@)
}

/// Adds somebody new, with a name drawn from those for new people, who
/// lives in house `house` and stands at `position`.
pub fn settle(
    people: &mut Vec<Person>,
    rng: &mut rand::rngs::StdRng,
    house: usize,
    position: Position,
)
    ensures
        final(people)@.len() == old(people)@.len() + 1,
        final(people)@.subrange(0, old(people)@.len() as int) == old(people)@,
        is_newcomer(final(people)@[old(people)@.len() as int], house, position),
        position.within(AGENT_LIMIT as int) ==> final(people)@[old(people)@.len() as int].wf(),
{
    let names = available_person_names();
    let name = match draw_name(rng, &names) {
        Some(name) => name,
        // There are names to draw from, so this is never taken.
        None => String::new(),
    };
    proof {
        let i = choose|i: int| 0 <= i < names@.len() && names@[i]@ == name@;
        assert(person_names()[i] == name@);
    }
    people.push(Person::newcomer(name, house, position));
    proof {
        assert(people@.subrange(0, old(people)@.len() as int) =~= old(people)@);
    }
}

/// Gives every house one inhabitant: idle, without a target, standing at
/// the house, with a name drawn for it. The newcomers follow the people who
/// were there, in the order of the houses.
pub fn colonize_homes(houses: &Vec<House>, people: &mut Vec<Person>, rng: &mut rand::rngs::StdRng)
    ensures
        final(people)@.len() == old(people)@.len() + houses@.len(),
        final(people)@.subrange(0, old(people)@.len() as int) == old(people)@,
        forall|h: int|
            0 <= h < houses@.len() ==> is_newcomer(
                #[trigger] final(people)@[old(people)@.len() + h],
                h as usize,
                houses@[h].position,
            ),
        people_wf(old(people)@) && houses_in_world(houses@) ==> people_wf(final(people)@),
{
    let ghost before = people@;
    let mut h: usize = 0;
    while h < houses.len()
        invariant
            h <= houses@.len(),
            people@.len() == before.len() + h,
            people@.subrange(0, before.len() as int) == before,
            forall|g: int|
                0 <= g < h ==> is_newcomer(
                    #[trigger] people@[before.len() + g],
                    g as usize,
                    houses@[g].position,
                ),
            people_wf(before) && houses_in_world(houses@) ==> people_wf(people@),
        decreases houses@.len() - h,
    {
        let ghost held = people@;
        settle(people, rng, h, houses[h].position);
        proof {
            assert(people@.subrange(0, before.len() as int) =~= held.subrange(
                0,
                before.len() as int,
            ));
            assert forall|g: int| 0 <= g < h + 1 implies is_newcomer(
                #[trigger] people@[before.len() + g],
                g as usize,
                houses@[g].position,
            ) by {
                if g < h {
                    assert(people@[before.len() + g] == people@.subrange(0, held.len() as int)[
                        before.len() + g]);
                }
            }
            if people_wf(before) && houses_in_world(houses@) {
                assert(houses@[h as int].position.within(crate::geometry::WORLD_LIMIT as int));
                assert forall|i: int| 0 <= i < people@.len() implies (#[trigger] people@[i]).wf() by {
                    if i < held.len() {
                        assert(people@[i] == people@.subrange(0, held.len() as int)[i]);
                    }
                }
            }
        }
        h = h + 1;
    }
}

/// Every person is well-formed.
pub open spec fn people_wf(people: Seq<Person>) -> bool {
    forall|i: int| 0 <= i < people.len() ==> (#[trigger] people[i]).wf()
}

/// Whether every person is well-formed.
pub fn check_people(people: &Vec<Person>) -> (ok: bool)
    ensures
        ok == people_wf(people@),
{
    let mut i: usize = 0;
    while i < people.len()
        invariant
            i <= people@.len(),
            forall|k: int| 0 <= k < i ==> (#[trigger] people@[k]).wf(),
        decreases people@.len() - i,
    {
        if !people[i].is_wf() {
            return false;
        }
        i = i + 1;
    }
    true
}

/// Person `i` arrives at a node to gather it, the node is live, and no
/// person before `i` arrives at the same node in the same step: the
/// arrival gathers the node.
pub open spec fn yields(people: Seq<Person>, nodes: Seq<ResourceNode>, i: int) -> bool {
    &&& people[i].arrives()
    &&& people[i].task matches PersonTask::Gathering(_, k)
    &&& k < nodes.len()
    &&& !nodes[k as int].consumed
    &&& forall|j: int| 0 <= j < i ==> !(#[trigger] people[j]).completes(k as int)
}

/// The event that person `i` sends when its arrival gathers a node.
pub open spec fn event_of(people: Seq<Person>, i: int) -> GatherEvent {
    match people[i].task {
        PersonTask::Gathering(kind, _) => GatherEvent(i as usize, kind),
        _ => GatherEvent(i as usize, NaturalResourceType::Wood),
    }
}

/// The events of one movement step from the first `n` people: one from each
/// whose arrival gathers a node, in the order of the people.
pub open spec fn completions_upto(people: Seq<Person>, nodes: Seq<ResourceNode>, n: nat) -> Seq<
    GatherEvent,
>
    decreases n,
{
    if n == 0 {
        Seq::empty()
    } else if yields(people, nodes, n - 1) {
        completions_upto(people, nodes, (n - 1) as nat).push(event_of(people, n - 1))
    } else {
        completions_upto(people, nodes, (n - 1) as nat)
    }
}

/// The events of one movement step.
pub open spec fn completions(people: Seq<Person>, nodes: Seq<ResourceNode>) -> Seq<GatherEvent> {
    completions_upto(people, nodes, people.len())
}

/// One of the first `n` people arrives at node `k` to gather it.
pub open spec fn claimed_upto(people: Seq<Person>, k: int, n: int) -> bool {
    exists|i: int| 0 <= i < n && (#[trigger] people[i]).completes(k)
}

/// Somebody arrives at node `k` to gather it.
pub open spec fn claimed(people: Seq<Person>, k: int) -> bool {
    claimed_upto(people, k, people.len() as int)
}

/// The nodes after one movement step: those that somebody arrived at to
/// gather are consumed, the others are as they were.
pub open spec fn harvested(people: Seq<Person>, nodes: Seq<ResourceNode>) -> Seq<ResourceNode> {
    Seq::new(
        nodes.len(),
        |k: int|
            if claimed(people, k) {
                nodes[k].gathered()
            } else {
                nodes[k]
            },
    )
}

/// The number of people among the first `n` who arrive at a node to gather
/// it, whether or not the arrival gathers anything.
pub open spec fn gatherers_arrived(people: Seq<Person>, n: nat) -> nat
    decreases n,
{
    if n == 0 {
        0
    } else {
        gatherers_arrived(people, (n - 1) as nat) + if people[n - 1].arrives() && people[n
            - 1].task is Gathering {
            1nat
        } else {
            0nat
        }
    }
}

/// What one movement pass saw of gathering.
#[derive(Debug, Clone, Copy, PartialEq, Eq, Structural)]
pub struct Arrivals {
    /// The number of people who arrived at a node to gather it.
    pub gatherers: usize,
    /// The number of them whose arrival gathered the node. The others came
    /// too late, or for a node that does not exist.
    pub gathered: usize,
}

/// Moves everybody who has a target by one step of `elapsed_ms`
/// milliseconds.
///
/// Who is within reach of the target arrives: the person comes to rest
/// without moving further. An arrival at a live resource node consumes the
/// node and sends one gather event; where several people arrive at the same
/// node in the same step, only the first of them gathers it, and an arrival
/// at a node that is already consumed gathers nothing. Everybody else with a
/// target walks on along the straight line to it.
pub fn move_people(
    people: &mut Vec<Person>,
    resources: &mut Vec<ResourceNode>,
    events: &mut Vec<GatherEvent>,
    elapsed_ms: u32,
) -> (seen: Arrivals)
    requires
        people_wf(old(people)@),
    ensures
        seen.gatherers == gatherers_arrived(old(people)@, old(people)@.len()),
        seen.gathered == completions(old(people)@, old(resources)@).len(),
        seen.gathered <= seen.gatherers,
        final(people)@.len() == old(people)@.len(),
        forall|i: int|
            0 <= i < old(people)@.len() ==> (#[trigger] final(people)@[i]) == old(people)@[i].moved(
                travel_in(elapsed_ms as int),
            ),
        forall|i: int|
            0 <= i < old(people)@.len() ==> ({
                let after = #[trigger] final(people)@[i];
                (after.position.x as int, after.position.y as int)
            }) == old(people)@[i].place_after(travel_in(elapsed_ms as int)),
        people_wf(final(people)@),
        final(resources)@ == harvested(old(people)@, old(resources)@),
        final(events)@ == old(events)@ + completions(old(people)@, old(resources)@),
        consumed_count(final(resources)@) == consumed_count(old(resources)@) + completions(
            old(people)@,
            old(resources)@,
        ).len(),
{
    let travel: u64 = PERSON_SPEED * (elapsed_ms as u64);
    let ghost before = people@;
    let ghost nodes = resources@;
    let mut gatherers: usize = 0;
    let mut harvest: usize = 0;
    let mut i: usize = 0;
    while i < people.len()
        invariant
            i <= people@.len(),
            people@.len() == before.len(),
            resources@.len() == nodes.len(),
            gatherers == gatherers_arrived(before, i as nat),
            harvest == completions_upto(before, nodes, i as nat).len(),
            harvest <= gatherers <= i,
            travel == travel_in(elapsed_ms as int),
            travel <= MAX_TRAVEL,
            people_wf(before),
            forall|j: int| 0 <= j < i ==> (#[trigger] people@[j]) == before[j].moved(travel as int),
            forall|j: int|
                0 <= j < i ==> ({
                    let after = #[trigger] people@[j];
                    (after.position.x as int, after.position.y as int)
                }) == before[j].place_after(travel as int),
            forall|j: int| 0 <= j < i ==> (#[trigger] people@[j]).wf(),
            forall|j: int| i <= j < people@.len() ==> (#[trigger] people@[j]) == before[j],
            forall|k: int|
                0 <= k < nodes.len() ==> (#[trigger] resources@[k]) == if claimed_upto(
                    before,
                    k,
                    i as int,
                ) {
                    nodes[k].gathered()
                } else {
                    nodes[k]
                },
            events@ == old(events)@ + completions_upto(before, nodes, i as nat),
            consumed_count(resources@) == consumed_count(nodes) + completions_upto(
                before,
                nodes,
                i as nat,
            ).len(),
        decreases people@.len() - i,
    {
        let ghost held = resources@;
        let finished = people[i].walk(travel);
        let mut gathered = false;
        match finished {
            Some(PersonTask::Gathering(kind, node)) => {
                gatherers = gatherers + 1;
                if node < resources.len() && !resources[node].consumed {
                    resources[node].consumed = true;
                    events.push(GatherEvent(i, kind));
                    harvest = harvest + 1;
                    gathered = true;
                    proof {
                        lemma_consumed_set(held, node as int);
                        assert(resources@ =~= held.update(node as int, held[node as int].gathered()));
                    }
                }
            },
            _ => {},
        }
        proof {
            let me = before[i as int];
            assert(before[i as int].wf());
            assert forall|k: int| 0 <= k < nodes.len() implies (#[trigger] resources@[k])
                == if claimed_upto(before, k, i + 1) {
                nodes[k].gathered()
            } else {
                nodes[k]
            } by {
                if me.completes(k) {
                    assert(claimed_upto(before, k, i + 1));
                } else {
                    if claimed_upto(before, k, i + 1) {
                        let w = choose|w: int| 0 <= w < i + 1 && (#[trigger] before[w]).completes(k);
                        assert(claimed_upto(before, k, i as int));
                    }
                }
            }
            if gathered {
                assert(yields(before, nodes, i as int));
            } else {
                if yields(before, nodes, i as int) {
                    let k = me.task->Gathering_1;
                    assert(!claimed_upto(before, k as int, i as int));
                    assert(false);
                }
            }
            assert(events@ =~= old(events)@ + completions_upto(before, nodes, (i + 1) as nat));
        }
        i = i + 1;
    }
    proof {
        assert(resources@ =~= harvested(before, nodes));
    }
    Arrivals { gatherers, gathered: harvest }
}

/// The place that a person wanders about: its house, or the origin for
/// somebody without one.
pub open spec fn anchor_of(person: Person, houses: Seq<House>) -> Position {
    match person.house {
        Some(h) => if h < houses.len() {
            houses[h as int].position
        } else {
            Position { x: 0, y: 0 }
        },
        None => Position { x: 0, y: 0 },
    }
}

/// `target` is no further than the wander range from `anchor` along
/// either axis.
pub open spec fn in_wander_range(anchor: Position, target: Position) -> bool {
    &&& anchor.x - WANDER_RANGE <= target.x <= anchor.x + WANDER_RANGE
    &&& anchor.y - WANDER_RANGE <= target.y <= anchor.y + WANDER_RANGE
}

/// `after` is `before` sent wandering to some place in range of its anchor.
pub open spec fn sent_wandering(before: Person, after: Person, houses: Seq<House>) -> bool {
    exists|target: Position| #[trigger]
        in_wander_range(anchor_of(before, houses), target) && after == before.heading(
            PersonTask::Wandering,
            target,
        )
}

/// What a wander pass may make of the people. Nobody changes if the timer
/// did not fire. If it did, nobody who was busy changes, and each idle
/// person either stays as it was or is sent wandering within range of its
/// anchor: all of them with a skip probability of zero, none with one.
pub open spec fn wander_pass(
    before: Seq<Person>,
    after: Seq<Person>,
    houses: Seq<House>,
    fired: bool,
    skip: Ratio,
) -> bool {
    &&& after.len() == before.len()
    &&& !fired || skip.is_always() ==> after == before
    &&& forall|i: int|
        0 <= i < before.len() && before[i].task != PersonTask::Idle ==> (#[trigger] after[i])
            == before[i]
    &&& forall|i: int|
        0 <= i < before.len() ==> (#[trigger] after[i]) == before[i] || (fired && before[i].task
            == PersonTask::Idle && sent_wandering(before[i], after[i], houses))
    &&& fired && skip.is_never() ==> forall|i: int|
        0 <= i < before.len() && before[i].task == PersonTask::Idle ==> sent_wandering(
            before[i],
            #[trigger] after[i],
            houses,
        )
}

/// The place that a person wanders about.
pub fn home_anchor(person: &Person, houses: &Vec<House>) -> (anchor: Position)
    ensures
        anchor == anchor_of(*person, houses@),
{
    match person.house {
        Some(h) => if h < houses.len() {
            houses[h].position
        } else {
            Position { x: 0, y: 0 }
        },
        None => Position { x: 0, y: 0 },
    }
}

/// The wander pass. The timer is advanced by `elapsed_ms`; if it fires,
/// every idle person is, unless a draw with probability `skip` says to pass
/// it over, sent wandering to a place drawn within range of its anchor.
///
/// Nobody who is busy is touched, and nobody at all if the timer does not
/// fire. With a skip probability of zero every idle person sets out; with
/// one, nobody does.
pub fn make_people_wander(
    timer: &mut WanderTimer,
    people: &mut Vec<Person>,
    houses: &Vec<House>,
    rng: &mut rand::rngs::StdRng,
    skip: Ratio,
    elapsed_ms: u32,
) -> (fired: bool)
    requires
        old(timer).0.wf(),
        skip.wf(),
        people_wf(old(people)@),
        houses_in_world(houses@),
    ensures
        fired == old(timer).0.fires(elapsed_ms as int),
        final(timer).0 == old(timer).0.ticked(elapsed_ms as int),
        final(timer).0.wf(),
        wander_pass(old(people)@, final(people)@, houses@, fired, skip),
        people_wf(final(people)@),
{
    let fired = timer.0.tick(elapsed_ms);
    if !fired {
        return false;
    }
    let ghost before = people@;
    let mut i: usize = 0;
    while i < people.len()
        invariant
            i <= people@.len(),
            people@.len() == before.len(),
            skip.wf(),
            people_wf(before),
            houses_in_world(houses@),
            forall|j: int| 0 <= j < people@.len() ==> (#[trigger] people@[j]).wf(),
            forall|j: int| i <= j < people@.len() ==> (#[trigger] people@[j]) == before[j],
            forall|j: int|
                0 <= j < i && before[j].task != PersonTask::Idle ==> (#[trigger] people@[j])
                    == before[j],
            forall|j: int|
                0 <= j < i ==> (#[trigger] people@[j]) == before[j] || (before[j].task
                    == PersonTask::Idle && sent_wandering(before[j], people@[j], houses@)),
            skip.is_never() ==> forall|j: int|
                0 <= j < i && before[j].task == PersonTask::Idle ==> sent_wandering(
                    before[j],
                    #[trigger] people@[j],
                    houses@,
                ),
            skip.is_always() ==> forall|j: int| 0 <= j < i ==> (#[trigger] people@[j]) == before[j],
        decreases people@.len() - i,
    {
        assert(before[i as int].wf());
        if people[i].task == PersonTask::Idle {
            if !skip.sample(rng) {
                let anchor = home_anchor(&people[i], houses);
                let dx = draw_between(rng, -WANDER_RANGE, WANDER_RANGE);
                let dy = draw_between(rng, -WANDER_RANGE, WANDER_RANGE);
                let target = Position { x: anchor.x + dx, y: anchor.y + dy };
                people[i].set_out(PersonTask::Wandering, target);
                proof {
                    assert(in_wander_range(anchor_of(before[i as int], houses@), target));
                    assert(sent_wandering(before[i as int], people@[i as int], houses@));
                }
            }
        }
        i = i + 1;
    }
    proof {
        if skip.is_always() {
            assert(people@ =~= before);
        }
    }
    true
}

/// Whether a person may be sent gathering: it is idle or wandering.
pub open spec fn free_to_gather(person: Person) -> bool {
    person.task == PersonTask::Idle || person.task == PersonTask::Wandering
}

/// The person after a gather attempt: on its way to the nearest live node,
/// to gather that node's kind; or as it was, where no node is live.
pub open spec fn sent_gathering(person: Person, nodes: Seq<ResourceNode>) -> Person {
    match nearest(nodes, person.position) {
        Some(c) => person.heading(
            PersonTask::Gathering(nodes[c.index as int].resource.0, c.index),
            nodes[c.index as int].position,
        ),
        None => person,
    }
}

/// What a gather pass may make of the people. Nobody changes if the timer
/// did not fire. If it did, nobody who was already gathering changes, and
/// each person who was free either stays as it was or is sent to the
/// nearest live node: all of them with a skip probability of zero, none
/// with one.
pub open spec fn gather_pass(
    before: Seq<Person>,
    after: Seq<Person>,
    nodes: Seq<ResourceNode>,
    fired: bool,
    skip: Ratio,
) -> bool {
    &&& after.len() == before.len()
    &&& !fired || skip.is_always() ==> after == before
    &&& forall|i: int|
        0 <= i < before.len() && !free_to_gather(before[i]) ==> (#[trigger] after[i]) == before[i]
    &&& forall|i: int|
        0 <= i < before.len() ==> (#[trigger] after[i]) == before[i] || (fired && free_to_gather(
            before[i],
        ) && after[i] == sent_gathering(before[i], nodes))
    &&& fired && skip.is_never() ==> forall|i: int|
        0 <= i < before.len() && free_to_gather(before[i]) ==> (#[trigger] after[i])
            == sent_gathering(before[i], nodes)
}

/// The number of indices below `n` at which the two sequences differ.
pub open spec fn differing_upto(a: Seq<Person>, b: Seq<Person>, n: nat) -> nat
    decreases n,
{
    if n == 0 {
        0
    } else {
        differing_upto(a, b, (n - 1) as nat) + if a[n - 1] == b[n - 1] {
            0nat
        } else {
            1nat
        }
    }
}

/// What one gather pass did.
#[derive(Debug, Clone, Copy, PartialEq, Eq, Structural)]
pub struct GatherPass {
    /// Whether the gather timer fired.
    pub fired: bool,
    /// The number of people for whom a node was searched.
    pub searches: usize,
    /// The number of people who were sent gathering.
    pub assigned: usize,
}

/// The gather pass. The timer is advanced by `elapsed_ms`; if it fires,
/// for every person who is idle or wandering, unless a draw with
/// probability `skip` says to pass it over, the nearest live resource node
/// is searched, and the person is sent to gather it. Where no node is live
/// the person stays as it was.
///
/// Nobody who is already gathering is touched, and nobody at all if the
/// timer does not fire. With a skip probability of zero a node is searched
/// for everybody who is free; with one, for nobody.
pub fn make_people_gather(
    timer: &mut GatherTimer,
    people: &mut Vec<Person>,
    resources: &Vec<ResourceNode>,
    pool: &bevy::tasks::ComputeTaskPool,
    rng: &mut rand::rngs::StdRng,
    skip: Ratio,
    elapsed_ms: u32,
) -> (pass: GatherPass)
    requires
        old(timer).0.wf(),
        skip.wf(),
        people_wf(old(people)@),
        nodes_wf(resources@),
    ensures
        pass.fired == old(timer).0.fires(elapsed_ms as int),
        final(timer).0 == old(timer).0.ticked(elapsed_ms as int),
        final(timer).0.wf(),
        gather_pass(old(people)@, final(people)@, resources@, pass.fired, skip),
        people_wf(final(people)@),
        !pass.fired || skip.is_always() ==> pass.searches == 0,
        pass.assigned == differing_upto(old(people)@, final(people)@, old(people)@.len()),
        pass.assigned <= pass.searches <= old(people)@.len(),
        pass.assigned == if has_live(resources@) {
            pass.searches
        } else {
            0
        },
{
    let fired = timer.0.tick(elapsed_ms);
    let ghost before = people@;
    let mut searches: usize = 0;
    let mut assigned: usize = 0;
    if !fired {
        proof {
            lemma_differing_same(before, before.len());
        }
        return GatherPass { fired, searches, assigned };
    }
    let mut i: usize = 0;
    while i < people.len()
        invariant
            i <= people@.len(),
            people@.len() == before.len(),
            skip.wf(),
            people_wf(before),
            nodes_wf(resources@),
            forall|j: int| 0 <= j < people@.len() ==> (#[trigger] people@[j]).wf(),
            forall|j: int| i <= j < people@.len() ==> (#[trigger] people@[j]) == before[j],
            forall|j: int|
                0 <= j < i && !free_to_gather(before[j]) ==> (#[trigger] people@[j]) == before[j],
            forall|j: int|
                0 <= j < i ==> (#[trigger] people@[j]) == before[j] || (free_to_gather(before[j])
                    && people@[j] == sent_gathering(before[j], resources@)),
            skip.is_never() ==> forall|j: int|
                0 <= j < i && free_to_gather(before[j]) ==> (#[trigger] people@[j])
                    == sent_gathering(before[j], resources@),
            skip.is_always() ==> searches == 0 && forall|j: int|
                0 <= j < i ==> (#[trigger] people@[j]) == before[j],
            assigned == differing_upto(before, people@, i as nat),
            assigned <= searches <= i,
            assigned == if has_live(resources@) {
                searches
            } else {
                0
            },
        decreases people@.len() - i,
    {
        let ghost held = people@;
        assert(before[i as int].wf());
        let mut changed = false;
        if people[i].task == PersonTask::Idle || people[i].task == PersonTask::Wandering {
            if !skip.sample(rng) {
                searches = searches + 1;
                let found = nearest_resource(resources, people[i].position, pool);
                match found {
                    Some(c) => {
                        let node = resources[c.index];
                        assert(node.wf());
                        people[i].set_out(
                            PersonTask::Gathering(node.resource.0, c.index),
                            node.position,
                        );
                        assigned = assigned + 1;
                        changed = true;
                    },
                    None => {},
                }
            }
        }
        proof {
            lemma_differing_agrees(before, held, people@, i as nat);
            assert(changed ==> people@[i as int] != before[i as int]);
            assert(!changed ==> people@[i as int] == before[i as int]);
        }
        i = i + 1;
    }
    proof {
        if skip.is_always() {
            assert(people@ =~= before);
        }
    }
    GatherPass { fired, searches, assigned }
}

/// A sequence differs nowhere from itself.
pub proof fn lemma_differing_same(a: Seq<Person>, n: nat)
    ensures
        differing_upto(a, a, n) == 0,
    decreases n,
{
    if n > 0 {
        lemma_differing_same(a, (n - 1) as nat);
    }
}

/// The count of differences below `n` depends on the entries below `n` alone.
pub proof fn lemma_differing_agrees(a: Seq<Person>, b: Seq<Person>, c: Seq<Person>, n: nat)
    requires
        forall|j: int| 0 <= j < n ==> b[j] == c[j],
    ensures
        differing_upto(a, b, n) == differing_upto(a, c, n),
    decreases n,
{
    if n > 0 {
        lemma_differing_agrees(a, b, c, (n - 1) as nat);
    }
}

/// Somebody who is within reach of the target arrives in that step: they
/// come to rest where they stand, idle and without a target.
pub proof fn law_arrival_stays_put(person: Person, travel: int)
    requires
        person.arrives(),
    ensures
        person.moved(travel).position == person.position,
        person.moved(travel).task == PersonTask::Idle,
        person.moved(travel).target.0 is None,
{
}

/// Somebody without a target does not move, and somebody who has not
/// arrived keeps task and target.
pub proof fn law_movement_keeps_task(person: Person, travel: int)
    requires
        !person.arrives(),
    ensures
        person.moved(travel).task == person.task,
        person.moved(travel).target == person.target,
        person.target.0 is None ==> person.moved(travel) == person,
{
}

/// With short steps everybody gets nearer. Somebody with a target who
/// takes a step of at least two ticks and no more than the reach either
/// arrives in that step or ends it nearer to the target, by at least one
/// tick less than the step's length in Manhattan distance, and with task
/// and target as they were.
pub proof fn law_walker_arrives_or_approaches(person: Person, target: Position, travel: int)
    requires
        person.target.0 == Some(target),
        2 <= travel <= 2000,
    ensures
        person.arrives() || {
            &&& person.moved(travel).position.manhattan(target) < person.position.manhattan(target)
            &&& person.moved(travel).position.manhattan(target) <= person.position.manhattan(target)
                - (travel - 1)
            &&& person.moved(travel).target == person.target
            &&& person.moved(travel).task == person.task
        },
{
    if !person.arrives() {
        lemma_unreached_is_far(person.position, target);
        law_short_step_approaches(person.position, target, travel);
    }
}

/// The person after the given number of movement passes, each with a step
/// of length `travel`, where nothing but the movement pass touches it.
pub open spec fn walked(person: Person, travel: int, passes: nat) -> Person
    decreases passes,
{
    if passes == 0 {
        person
    } else {
        walked(person.moved(travel), travel, (passes - 1) as nat)
    }
}

/// Somebody without a target stays as they are through any number of
/// movement passes.
pub proof fn lemma_rested_stays(person: Person, travel: int, passes: nat)
    requires
        person.target.0 is None,
    ensures
        walked(person, travel, passes) == person,
    decreases passes,
{
    if passes > 0 {
        lemma_rested_stays(person, travel, (passes - 1) as nat);
    }
}

/// Everybody whose steps are shorter than twice the reach arrives, and in a
/// bounded number of passes. Somebody with a target whose steps are at
/// least two ticks and less than four world units long, and whom nothing
/// but the movement pass touches, has arrived after two passes more than it
/// takes steps, each one tick shorter than `travel`, to cover the Manhattan
/// distance to the target. They are then at rest, idle and without a
/// target, within reach of where they were going.
///
/// While the line to the target is at least as long as the step, every
/// pass takes at least the step less one tick off the Manhattan distance;
/// the one pass that carries the walker past the target leaves it within
/// reach, and the pass after that is the arrival.
pub proof fn law_walker_arrives_within(
    person: Person,
    target: Position,
    travel: int,
    passes: nat,
)
    requires
        person.wf(),
        person.target.0 == Some(target),
        2 <= travel < 4000,
        passes * (travel - 1) >= person.position.manhattan(target),
    ensures
        walked(person, travel, passes + 2).target.0 is None,
        walked(person, travel, passes + 2).task == PersonTask::Idle,
        walked(person, travel, passes + 2).position.reached(target),
    decreases passes,
{
    let next = person.moved(travel);
    assert(walked(person, travel, passes + 2) == walked(next, travel, (passes + 1) as nat));
    if person.arrives() {
        lemma_rested_stays(next, travel, (passes + 1) as nat);
    } else {
        lemma_unreached_is_far(person.position, target);
        let (x, y) = person.position.stepped(target, travel);
        if travel <= line_length(person.position, target) {
            law_short_step_approaches(person.position, target, travel);
            assert(next.position.x == x && next.position.y == y);
            if passes == 0 {
                assert(passes * (travel - 1) == 0) by (nonlinear_arith)
                    requires
                        passes == 0,
                ;
                assert(person.position == target);
                assert(person.position.dist_sq(target) == 0) by (nonlinear_arith)
                    requires
                        person.position == target,
                ;
                assert(false);
            } else {
                assert((passes - 1) * (travel - 1) == passes * (travel - 1) - (travel - 1))
                    by (nonlinear_arith);
                assert(next.wf());
                law_walker_arrives_within(next, target, travel, (passes - 1) as nat);
            }
        } else {
            law_long_step_lands_in_reach(person.position, target, travel);
            assert(next.position.x == x && next.position.y == y);
            assert(next.position.dist_sq(target) == (x - target.x) * (x - target.x) + (y
                - target.y) * (y - target.y)) by (nonlinear_arith)
                requires
                    next.position.x == x,
                    next.position.y == y,
                    next.position.dist_sq(target) == (target.x - next.position.x) * (target.x
                        - next.position.x) + (target.y - next.position.y) * (target.y
                        - next.position.y),
            ;
            assert(next.arrives());
            let last = next.moved(travel);
            assert(walked(next, travel, (passes + 1) as nat) == walked(last, travel, passes));
            lemma_rested_stays(last, travel, passes);
        }
    }
}

/// Every event of a movement step comes from one arrival that gathers a
/// node, and every such arrival sends its event.
pub proof fn law_events_match_arrivals(people: Seq<Person>, nodes: Seq<ResourceNode>, n: nat)
    requires
        n <= people.len(),
    ensures
        forall|x: int|
            0 <= x < completions_upto(people, nodes, n).len() ==> exists|i: int|
                0 <= i < n && yields(people, nodes, i) && #[trigger] completions_upto(
                    people,
                    nodes,
                    n,
                )[x] == event_of(people, i),
        forall|i: int|
            0 <= i < n && yields(people, nodes, i) ==> completions_upto(people, nodes, n).contains(
                #[trigger] event_of(people, i),
            ),
    decreases n,
{
    if n > 0 {
        let rest = completions_upto(people, nodes, (n - 1) as nat);
        let all = completions_upto(people, nodes, n);
        law_events_match_arrivals(people, nodes, (n - 1) as nat);
        assert forall|x: int| 0 <= x < all.len() implies exists|i: int|
            0 <= i < n && yields(people, nodes, i) && #[trigger] all[x] == event_of(people, i) by {
            if x < rest.len() {
                let i = choose|i: int|
                    0 <= i < n - 1 && yields(people, nodes, i) && rest[x] == event_of(people, i);
                assert(all[x] == rest[x]);
                assert(0 <= i < n && yields(people, nodes, i) && all[x] == event_of(people, i));
            } else {
                assert(yields(people, nodes, n - 1) && all[x] == event_of(people, n - 1));
            }
        }
        assert forall|i: int| 0 <= i < n && yields(people, nodes, i) implies all.contains(
            #[trigger] event_of(people, i),
        ) by {
            if i < n - 1 {
                let x = choose|x: int| 0 <= x < rest.len() && rest[x] == event_of(people, i);
                assert(all[x] == event_of(people, i));
            } else {
                assert(all[all.len() - 1] == event_of(people, i));
            }
        }
    }
}

/// A node is gathered at most once in a step: two arrivals that both
/// gather are arrivals at different nodes.
pub proof fn law_one_gatherer_per_node(
    people: Seq<Person>,
    nodes: Seq<ResourceNode>,
    i: int,
    j: int,
    k: int,
)
    requires
        0 <= i < people.len(),
        0 <= j < people.len(),
        yields(people, nodes, i),
        yields(people, nodes, j),
        people[i].completes(k),
        people[j].completes(k),
    ensures
        i == j,
{
}

/// Gathering is once and for all. The node that an arrival gathers is
/// consumed by the step; a consumed node stays consumed through every
/// later step; and no arrival at a consumed node gathers anything. So an
/// arrival of a later step cannot gather a node that was gathered before.
pub proof fn law_gathered_once(
    people: Seq<Person>,
    nodes: Seq<ResourceNode>,
    i: int,
    k: int,
    later: Seq<Person>,
    j: int,
)
    requires
        0 <= i < people.len(),
        yields(people, nodes, i),
        people[i].completes(k),
        0 <= j < later.len(),
        later[j].completes(k),
    ensures
        harvested(people, nodes)[k].consumed,
        forall|m: int|
            0 <= m < nodes.len() && nodes[m].consumed ==> (#[trigger] harvested(people, nodes)[m]).consumed,
        !yields(later, harvested(people, nodes), j),
        !yields(later, harvested(later, harvested(people, nodes)), j),
{
    assert(claimed(people, k));
}

/// Gathering a live node adds one to the count of consumed nodes.
pub proof fn lemma_consumed_set(nodes: Seq<ResourceNode>, k: int)
    requires
        0 <= k < nodes.len(),
        !nodes[k].consumed,
    ensures
        consumed_count(nodes.update(k, nodes[k].gathered())) == consumed_count(nodes) + 1,
{
    lemma_consumed_set_upto(nodes, k, nodes.len());
}

proof fn lemma_consumed_set_upto(nodes: Seq<ResourceNode>, k: int, n: nat)
    requires
        0 <= k < nodes.len(),
        !nodes[k].consumed,
        n <= nodes.len(),
    ensures
        consumed_upto(nodes.update(k, nodes[k].gathered()), n) == consumed_upto(nodes, n) + if k
            < n {
            1nat
        } else {
            0nat
        },
    decreases n,
{
    if n > 0 {
        lemma_consumed_set_upto(nodes, k, (n - 1) as nat);
    }
}

} // verus!
