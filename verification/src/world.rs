//! The simulation as a whole: everything that a step reads or changes, held
//! in one place, and the step that runs the passes in their fixed order.

use crate::geometry::travel_in;
use crate::house::{House, check_houses, houses_wf};
use crate::island::{Delivery, Island, IslandsResources, check_islands, handle_gather_events,
    handle_resources_changes, is_delivered, is_sent_to, islands_wf, pool_after, spawned_upto,
    stock_within, total_stock};
use crate::person::{Arrivals, GatherEvent, GatherPass, GatherTimer, Person, WanderTimer,
    check_people, completions, gather_pass, gatherers_arrived, harvested, make_people_gather,
    make_people_wander, move_people, people_wf, wander_pass};
use crate::random::Ratio;
use crate::resource::{NaturalResourceType, ResourceNode, check_nodes, consumed_count,
    count_consumed, lemma_consumed_at_most_len, nodes_wf};
use crate::timer::Timer;
use vstd::prelude::*;

verus! {

/// Milliseconds between two wander passes.
pub const WANDER_PERIOD_MS: u32 = 2000;

/// Milliseconds between two gather passes.
pub const GATHER_PERIOD_MS: u32 = 1000;

/// The rules that a settlement runs by.
#[derive(Clone, Copy, Debug, PartialEq, Eq, Structural)]
pub struct Rules {
    /// The probability with which the wander pass passes an idle person over.
    pub wander_skip: Ratio,
    /// The probability with which the gather pass passes a free person over.
    pub gather_skip: Ratio,
    /// The kind of resource that houses are built from.
    pub construction_kind: NaturalResourceType,
    /// The units of that kind that one house costs.
    pub construction_cost: u64,
}

impl Rules {
    /// Both probabilities are probabilities, and a house costs something.
    pub open spec fn wf(self) -> bool {
        self.wander_skip.wf() && self.gather_skip.wf() && 0 < self.construction_cost
    }

    /// Whether the rules are well-formed.
    pub fn is_wf(&self) -> (ok: bool)
        ensures
            ok == self.wf(),
    {
        self.wander_skip.is_wf() && self.gather_skip.is_wf() && 0 < self.construction_cost
    }

    /// The rules of the game: every idle person wanders when the wander
    /// timer fires, every free person looks for a node with an even chance
    /// when the gather timer fires, and a house costs two units of wood.
    pub open spec fn standard() -> Rules {
        Rules {
            wander_skip: Ratio { numerator: 0, denominator: 1 },
            gather_skip: Ratio { numerator: 1, denominator: 2 },
            construction_kind: NaturalResourceType::Wood,
            construction_cost: 2,
        }
    }
}

impl Default for Rules {
    fn default() -> (rules: Rules)
        ensures
            rules == Rules::standard(),
            rules.wf(),
    {
        Rules {
            wander_skip: Ratio::never(),
            gather_skip: Ratio::half(),
            construction_kind: NaturalResourceType::Wood,
            construction_cost: 2,
        }
    }
}

/// What the people's half of a step did.
#[derive(Debug, Clone, Copy, PartialEq, Eq, Structural)]
pub struct PeopleReport {
    /// Whether the wander timer fired.
    pub wander_fired: bool,
    pub gather: GatherPass,
    pub arrivals: Arrivals,
}

/// What the islands' half of a step did.
#[derive(Debug, Clone, Copy, PartialEq, Eq, Structural)]
pub struct IslandsReport {
    pub delivery: Delivery,
    /// The number of houses that the spawner built.
    pub built: usize,
}

/// What one step did.
#[derive(Debug, Clone, Copy, PartialEq, Eq, Structural)]
pub struct StepReport {
    /// Whether the wander timer fired.
    pub wander_fired: bool,
    pub gather: GatherPass,
    pub arrivals: Arrivals,
    pub delivery: Delivery,
    /// The number of houses that the spawner built.
    pub built: usize,
}

/// Everything that the simulation reads or changes. The islands, houses,
/// people and resource nodes each live in an arena of their own and are
/// known by their index in it.
#[derive(Debug, Clone)]
pub struct Settlement {
    pub islands: Vec<Island>,
    pub houses: Vec<House>,
    pub people: Vec<Person>,
    pub resources: Vec<ResourceNode>,
    /// The gather events that are waiting to be delivered, oldest first.
    pub gather_events: Vec<GatherEvent>,
    pub wander_timer: WanderTimer,
    pub gather_timer: GatherTimer,
    pub island_names: IslandsResources,
    pub rules: Rules,
}

impl Settlement {
    /// The invariant of the simulation. Islands, houses, people and nodes
    /// are well-formed, every house stands on an island that exists, the
    /// timers and rules are well-formed, and nothing has been credited or is
    /// waiting to be credited that was not gathered: what the pools hold
    /// and the events that wait are together no more than the nodes
    /// consumed.
    pub open spec fn wf(self) -> bool {
        &&& islands_wf(self.islands@)
        &&& houses_wf(self.houses@, self.islands@.len() as int)
        &&& people_wf(self.people@)
        &&& nodes_wf(self.resources@)
        &&& self.wander_timer.0.wf()
        &&& self.gather_timer.0.wf()
        &&& self.rules.wf()
        &&& total_stock(self.islands@) + self.gather_events@.len() <= consumed_count(
            self.resources@,
        )
    }

    /// Whether the invariant of the simulation holds. A caller that has
    /// put a settlement together by hand can ask before it steps.
    pub fn is_wf(&self) -> (ok: bool)
        ensures
            ok == self.wf(),
    {
        if !(check_islands(&self.islands) && check_houses(&self.houses, self.islands.len())
            && check_people(&self.people) && check_nodes(&self.resources)
            && self.wander_timer.0.is_wf() && self.gather_timer.0.is_wf() && self.rules.is_wf()) {
            return false;
        }
        let consumed = count_consumed(&self.resources);
        let waiting = self.gather_events.len();
        if waiting > consumed {
            return false;
        }
        stock_within(&self.islands, (consumed - waiting) as u64)
    }

    /// The people after the movement pass.
    pub open spec fn all_moved(people: Seq<Person>, travel: int) -> Seq<Person> {
        Seq::new(people.len(), |i: int| people[i].moved(travel))
    }

    /// The islands after the events have been delivered.
    pub open spec fn all_credited(
        islands: Seq<Island>,
        events: Seq<GatherEvent>,
        people: Seq<Person>,
        houses: Seq<House>,
    ) -> Seq<Island> {
        Seq::new(
            islands.len(),
            |i: int|
                islands[i].with_pool(
                    pool_after(
                        islands[i].natural_resources,
                        events,
                        people,
                        houses,
                        islands.len() as int,
                        i,
                    ),
                    islands[i].changed || events.filter(
                        is_sent_to(people, houses, islands.len() as int, i),
                    ).len() > 0,
                ),
        )
    }

    /// What the people's half of a step makes of the settlement, by way of
    /// the people as the wander pass left them (`wandered`) and as the gather
    /// pass left them (`assigned`). The passes run in this order:
    ///
    /// 1. the wander pass;
    /// 2. the gather pass, over the nodes as they were;
    /// 3. the movement pass, which consumes the nodes arrived at and sends
    ///    the events of the arrivals after those that waited.
    ///
    /// Islands and houses stay as they were.
    pub open spec fn people_stepped(
        self,
        after: Settlement,
        elapsed_ms: int,
        report: PeopleReport,
        wandered: Seq<Person>,
        assigned: Seq<Person>,
    ) -> bool {
        &&& report.wander_fired == self.wander_timer.0.fires(elapsed_ms)
        &&& after.wander_timer.0 == self.wander_timer.0.ticked(elapsed_ms)
        &&& report.gather.fired == self.gather_timer.0.fires(elapsed_ms)
        &&& after.gather_timer.0 == self.gather_timer.0.ticked(elapsed_ms)
        &&& after.rules == self.rules
        &&& after.island_names == self.island_names
        &&& after.islands@ == self.islands@
        &&& after.houses@ == self.houses@
        &&& wander_pass(
            self.people@,
            wandered,
            self.houses@,
            report.wander_fired,
            self.rules.wander_skip,
        )
        &&& gather_pass(
            wandered,
            assigned,
            self.resources@,
            report.gather.fired,
            self.rules.gather_skip,
        )
        &&& after.people@ == Self::all_moved(assigned, travel_in(elapsed_ms))
        &&& forall|i: int|
            0 <= i < assigned.len() ==> ({
                let person = #[trigger] after.people@[i];
                (person.position.x as int, person.position.y as int)
            }) == assigned[i].place_after(travel_in(elapsed_ms))
        &&& report.arrivals.gatherers == gatherers_arrived(assigned, assigned.len())
        &&& report.arrivals.gathered == completions(assigned, self.resources@).len()
        &&& after.resources@ == harvested(assigned, self.resources@)
        &&& after.gather_events@ == self.gather_events@ + completions(assigned, self.resources@)
    }

    /// What the islands' half of a step makes of the settlement:
    ///
    /// 1. all the events that wait are delivered to the islands;
    /// 2. the spawner runs over the islands as credited.
    ///
    /// Resource nodes and timers stay as they were.
    pub open spec fn islands_stepped(self, after: Settlement, report: IslandsReport) -> bool {
        let credited = Self::all_credited(
            self.islands@,
            self.gather_events@,
            self.people@,
            self.houses@,
        );
        &&& after.wander_timer == self.wander_timer
        &&& after.gather_timer == self.gather_timer
        &&& after.rules == self.rules
        &&& after.island_names == self.island_names
        &&& after.resources@ == self.resources@
        &&& after.gather_events@.len() == 0
        &&& report.delivery.delivered == self.gather_events@.filter(
            is_delivered(self.people@, self.houses@, self.islands@.len() as int),
        ).len()
        &&& report.delivery.delivered + report.delivery.dropped == self.gather_events@.len()
        &&& spawned_upto(
            credited,
            self.houses@,
            self.people@,
            after.islands@,
            after.houses@,
            after.people@,
            self.rules.construction_kind,
            self.rules.construction_cost as int,
            self.islands@.len() as int,
        )
        &&& report.built == after.houses@.len() - self.houses@.len()
    }

    /// What one step makes of the settlement: the people's half takes it to
    /// `mid`, and the islands' half takes it on from there.
    pub open spec fn stepped(
        self,
        after: Settlement,
        elapsed_ms: int,
        report: StepReport,
        mid: Settlement,
        wandered: Seq<Person>,
        assigned: Seq<Person>,
    ) -> bool {
        &&& self.people_stepped(
            mid,
            elapsed_ms,
            PeopleReport {
                wander_fired: report.wander_fired,
                gather: report.gather,
                arrivals: report.arrivals,
            },
            wandered,
            assigned,
        )
        &&& mid.islands_stepped(after, IslandsReport { delivery: report.delivery, built: report.built })
    }

    /// An empty settlement with the timers and rules of the game and the
    /// island names on offer.
    pub fn new() -> (settlement: Settlement)
        ensures
            settlement.wf(),
            settlement.islands@.len() == 0,
            settlement.houses@.len() == 0,
            settlement.people@.len() == 0,
            settlement.resources@.len() == 0,
            settlement.gather_events@.len() == 0,
            settlement.wander_timer.0 == (Timer { period_ms: WANDER_PERIOD_MS, elapsed_ms: 0 }),
            settlement.gather_timer.0 == (Timer { period_ms: GATHER_PERIOD_MS, elapsed_ms: 0 }),
            settlement.rules == Rules::standard(),
            settlement.island_names.available_names@.len() == 2,
            settlement.island_names.available_names@[0]@ == "Land #1"@,
            settlement.island_names.available_names@[1]@ == "Ocor"@,
    {
        let mut available_names: Vec<String> = Vec::new();
        available_names.push("Land #1".to_owned());
        available_names.push("Ocor".to_owned());
        Settlement {
            islands: Vec::new(),
            houses: Vec::new(),
            people: Vec::new(),
            resources: Vec::new(),
            gather_events: Vec::new(),
            wander_timer: WanderTimer(Timer::new(WANDER_PERIOD_MS)),
            gather_timer: GatherTimer(Timer::new(GATHER_PERIOD_MS)),
            island_names: IslandsResources { available_names },
            rules: Rules::default(),
        }
    }

    /// The people's half of a step, `elapsed_ms` milliseconds long: the
    /// wander pass, the gather pass and the movement pass, one after the
    /// other. The events of the arrivals are left waiting in the channel.
    pub fn step_people(
        &mut self,
        elapsed_ms: u32,
        rng: &mut rand::rngs::StdRng,
        pool: &bevy::tasks::ComputeTaskPool,
    ) -> (report: PeopleReport)
        requires
            old(self).wf(),
        ensures
            final(self).wf(),
            exists|wandered: Seq<Person>, assigned: Seq<Person>|
                old(self).people_stepped(
                    *final(self),
                    elapsed_ms as int,
                    report,
                    wandered,
                    assigned,
                ),
    {
        let ghost before = *self;
        let wander_fired = make_people_wander(
            &mut self.wander_timer,
            &mut self.people,
            &self.houses,
            rng,
            self.rules.wander_skip,
            elapsed_ms,
        );
        let ghost wandered = self.people@;
        let gather = make_people_gather(
            &mut self.gather_timer,
            &mut self.people,
            &self.resources,
            pool,
            rng,
            self.rules.gather_skip,
            elapsed_ms,
        );
        let ghost assigned = self.people@;
        let arrivals = move_people(
            &mut self.people,
            &mut self.resources,
            &mut self.gather_events,
            elapsed_ms,
        );
        let report = PeopleReport { wander_fired, gather, arrivals };
        proof {
            assert(self.people@ =~= Self::all_moved(assigned, travel_in(elapsed_ms as int)));
            assert(self.gather_events@.len() == before.gather_events@.len() + completions(
                assigned,
                before.resources@,
            ).len());
            assert(before.people_stepped(*self, elapsed_ms as int, report, wandered, assigned));
        }
        report
    }

    /// The islands' half of a step: the events that wait are delivered, and
    /// the islands that can pay for houses build them.
    pub fn step_islands(&mut self, rng: &mut rand::rngs::StdRng) -> (report: IslandsReport)
        requires
            old(self).wf(),
        ensures
            final(self).wf(),
            old(self).islands_stepped(*final(self), report),
    {
        let ghost before = *self;
        let nodes = self.resources.len();
        proof {
            lemma_consumed_at_most_len(self.resources@, self.resources@.len());
            assert(consumed_count(self.resources@) <= nodes);
        }
        let delivery = handle_gather_events(
            &mut self.gather_events,
            &self.people,
            &self.houses,
            &mut self.islands,
        );
        proof {
            assert(self.islands@ =~= Self::all_credited(
                before.islands@,
                before.gather_events@,
                before.people@,
                before.houses@,
            ));
        }
        let built = handle_resources_changes(
            &mut self.islands,
            &mut self.houses,
            &mut self.people,
            rng,
            self.rules.construction_kind,
            self.rules.construction_cost,
        );
        proof {
            assert(self.rules.construction_cost * built >= 0) by (nonlinear_arith)
                requires
                    self.rules.construction_cost >= 0,
                    built >= 0,
            ;
        }
        IslandsReport { delivery, built }
    }

    /// One step of the simulation, `elapsed_ms` milliseconds long: the
    /// people's half and then the islands' half. The passes run one after
    /// the other, each to its end: wander, gather, move, deliver, spawn.
    pub fn step(
        &mut self,
        elapsed_ms: u32,
        rng: &mut rand::rngs::StdRng,
        pool: &bevy::tasks::ComputeTaskPool,
    ) -> (report: StepReport)
        requires
            old(self).wf(),
        ensures
            final(self).wf(),
            exists|mid: Settlement, wandered: Seq<Person>, assigned: Seq<Person>|
                old(self).stepped(
                    *final(self),
                    elapsed_ms as int,
                    report,
                    mid,
                    wandered,
                    assigned,
                ),
    {
        let ghost before = *self;
        let people = self.step_people(elapsed_ms, rng, pool);
        let ghost mid = *self;
        let islands = self.step_islands(rng);
        let report = StepReport {
            wander_fired: people.wander_fired,
            gather: people.gather,
            arrivals: people.arrivals,
            delivery: islands.delivery,
            built: islands.built,
        };
        proof {
            let (wandered, assigned) = choose|wandered: Seq<Person>, assigned: Seq<Person>|
                before.people_stepped(mid, elapsed_ms as int, people, wandered, assigned);
            assert(before.stepped(*self, elapsed_ms as int, report, mid, wandered, assigned));
        }
        report
    }
}

/// In a well-formed settlement a person has a target exactly while it
/// wanders or gathers. Every step keeps the settlement well-formed, so this
/// holds after every step.
pub proof fn law_target_iff_busy(settlement: Settlement, i: int)
    requires
        settlement.wf(),
        0 <= i < settlement.people@.len(),
    ensures
        settlement.people@[i].target.0 is Some <==> (settlement.people@[i].task
            == crate::person::PersonTask::Wandering
            || settlement.people@[i].task is Gathering),
{
    assert(settlement.people@[i].wf());
}

/// In a well-formed settlement nothing is held or waiting that was not
/// gathered: the pools and the waiting events together count no more than
/// the nodes that have been consumed, which are no more than the nodes.
pub proof fn law_nothing_from_nothing(settlement: Settlement)
    requires
        settlement.wf(),
    ensures
        total_stock(settlement.islands@) + settlement.gather_events@.len() <= consumed_count(
            settlement.resources@,
        ) <= settlement.resources@.len(),
{
    lemma_consumed_at_most_len(settlement.resources@, settlement.resources@.len());
}

} // verus!
