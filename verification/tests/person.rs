use bevy::tasks::{ComputeTaskPool, TaskPool};
use rand::rngs::StdRng;
use rand::SeedableRng;
use settlement::geometry::{Position, AGENT_LIMIT, TARGET_LIMIT, UNIT, WANDER_RANGE};
use settlement::house::House;
use settlement::person::{
    available_person_names, check_people, colonize_homes, home_anchor, make_people_gather, make_people_wander,
    move_people, Arrivals, GatherEvent, GatherPass, GatherTimer, Person, PersonTask, TargetPosition,
    WanderTimer, AVAILABLE_PERSON_NAMES,
};
use settlement::random::Ratio;
use settlement::resource::{NaturalResource, NaturalResourceType, ResourceNode};
use settlement::timer::Timer;

fn idler(x: i64, y: i64) -> Person {
    Person {
        name: "Test".to_string(),
        task: PersonTask::Idle,
        house: None,
        position: Position::new(x, y),
        target: TargetPosition(None),
    }
}

fn wanderer(x: i64, y: i64, tx: i64, ty: i64) -> Person {
    Person {
        name: "Test".to_string(),
        task: PersonTask::Wandering,
        house: None,
        position: Position::new(x, y),
        target: TargetPosition(Some(Position::new(tx, ty))),
    }
}

fn gatherer(x: i64, y: i64, kind: NaturalResourceType, node: usize, at: Position) -> Person {
    Person {
        name: "Test".to_string(),
        task: PersonTask::Gathering(kind, node),
        house: None,
        position: Position::new(x, y),
        target: TargetPosition(Some(at)),
    }
}

fn live(kind: NaturalResourceType, x: i64, y: i64) -> ResourceNode {
    ResourceNode { resource: NaturalResource(kind), position: Position::new(x, y), consumed: false }
}

fn pool() -> ComputeTaskPool {
    ComputeTaskPool(TaskPool::new())
}

#[test]
fn the_default_person_is_idle_and_homeless() {
    let person = Person::default();
    assert_eq!(person.name, "Unnamed Pal");
    assert_eq!(person.task, PersonTask::Idle);
    assert_eq!(person.house, None);
    assert_eq!(person.position, Position::new(0, 0));
    assert_eq!(person.target, TargetPosition(None));
    assert_eq!(PersonTask::default(), PersonTask::Idle);
}

#[test]
fn the_names_on_offer_are_the_seven() {
    let names = available_person_names();
    assert_eq!(names.len(), 7);
    assert_eq!(names, AVAILABLE_PERSON_NAMES.iter().map(|n| n.to_string()).collect::<Vec<_>>());
    assert_eq!(names[0], "Leon");
    assert_eq!(names[6], "Vasya");
}

#[test]
fn walking_without_a_target_changes_nothing() {
    let mut person = idler(5, 5);
    assert_eq!(person.walk(1000), None);
    assert_eq!(person, idler(5, 5));
}

#[test]
fn walking_toward_a_far_target_moves_one_step() {
    let mut person = wanderer(0, 0, 30_000, 40_000);
    assert_eq!(person.walk(5000), None);
    assert_eq!(person, wanderer(3000, 4000, 30_000, 40_000));
}

#[test]
fn arriving_comes_to_rest_without_moving() {
    let mut person = wanderer(1000, 1000, 2000, 2000);
    assert_eq!(person.walk(5000), Some(PersonTask::Wandering));
    assert_eq!(person, idler(1000, 1000));
}

#[test]
fn arriving_is_decided_before_moving() {
    // Exactly two units away is not yet there, whatever the step's length.
    let mut person = wanderer(0, 0, 2 * UNIT, 0);
    assert_eq!(person.walk(500), None);
    assert_eq!(person.position, Position::new(500, 0));
    assert_eq!(person.task, PersonTask::Wandering);
    assert_eq!(person.walk(500), Some(PersonTask::Wandering));
    assert_eq!(person.position, Position::new(500, 0));
    assert_eq!(person.target, TargetPosition(None));
}

#[test]
fn setting_out_gives_task_and_target() {
    let mut person = idler(1, 2);
    person.set_out(PersonTask::Gathering(NaturalResourceType::Iron, 4), Position::new(9, 9));
    assert_eq!(person, gatherer(1, 2, NaturalResourceType::Iron, 4, Position::new(9, 9)));
}

#[test]
fn a_gatherer_who_arrives_consumes_the_node_and_sends_an_event() {
    let at = Position::new(10_000, 0);
    let mut people = vec![idler(0, 0), gatherer(9_000, 0, NaturalResourceType::Gold, 1, at)];
    let mut nodes = vec![live(NaturalResourceType::Coal, 500, 500), live(NaturalResourceType::Gold, 10_000, 0)];
    let mut events = vec![GatherEvent(7, NaturalResourceType::Water)];
    let seen = move_people(&mut people, &mut nodes, &mut events, 16);
    assert_eq!(seen, Arrivals { gatherers: 1, gathered: 1 });
    assert_eq!(people, vec![idler(0, 0), idler(9_000, 0)]);
    assert!(!nodes[0].consumed);
    assert!(nodes[1].consumed);
    assert_eq!(nodes[1].position, at);
    assert_eq!(
        events,
        vec![GatherEvent(7, NaturalResourceType::Water), GatherEvent(1, NaturalResourceType::Gold)]
    );
}

#[test]
fn a_wanderer_who_arrives_sends_no_event() {
    let mut people = vec![wanderer(100, 100, 200, 200)];
    let mut nodes = vec![live(NaturalResourceType::Wood, 200, 200)];
    let mut events = Vec::new();
    let seen = move_people(&mut people, &mut nodes, &mut events, 16);
    assert_eq!(seen, Arrivals { gatherers: 0, gathered: 0 });
    assert_eq!(people, vec![idler(100, 100)]);
    assert!(!nodes[0].consumed);
    assert!(events.is_empty());
}

#[test]
fn two_arrivals_at_one_node_gather_it_once() {
    let at = Position::new(0, 0);
    let mut people = vec![
        gatherer(-500, 0, NaturalResourceType::Wood, 0, at),
        gatherer(100, 100, NaturalResourceType::Wood, 0, at),
        gatherer(0, 1000, NaturalResourceType::Wood, 0, at),
    ];
    let mut nodes = vec![live(NaturalResourceType::Wood, 0, 0)];
    let mut events = Vec::new();
    let seen = move_people(&mut people, &mut nodes, &mut events, 16);
    assert_eq!(seen, Arrivals { gatherers: 3, gathered: 1 });
    assert_eq!(events, vec![GatherEvent(0, NaturalResourceType::Wood)]);
    assert!(nodes[0].consumed);
    assert!(people.iter().all(|p| p.task == PersonTask::Idle && p.target.0.is_none()));
}

#[test]
fn an_arrival_at_a_consumed_node_gathers_nothing() {
    let at = Position::new(0, 0);
    let mut nodes = vec![live(NaturalResourceType::Wood, 0, 0)];
    let mut events = Vec::new();

    let mut first = vec![gatherer(100, 0, NaturalResourceType::Wood, 0, at)];
    let seen = move_people(&mut first, &mut nodes, &mut events, 16);
    assert_eq!(seen, Arrivals { gatherers: 1, gathered: 1 });
    assert_eq!(events.len(), 1);

    let mut second = vec![gatherer(0, 100, NaturalResourceType::Wood, 0, at)];
    let seen = move_people(&mut second, &mut nodes, &mut events, 16);
    assert_eq!(seen, Arrivals { gatherers: 1, gathered: 0 });
    assert_eq!(events, vec![GatherEvent(0, NaturalResourceType::Wood)]);
    assert_eq!(second, vec![idler(0, 100)]);
    assert!(nodes[0].consumed);
}

#[test]
fn an_arrival_at_a_node_that_does_not_exist_gathers_nothing() {
    let mut people = vec![gatherer(0, 0, NaturalResourceType::Wood, 5, Position::new(0, 0))];
    let mut nodes = vec![live(NaturalResourceType::Wood, 0, 0)];
    let mut events = Vec::new();
    let seen = move_people(&mut people, &mut nodes, &mut events, 16);
    assert_eq!(seen, Arrivals { gatherers: 1, gathered: 0 });
    assert!(events.is_empty());
    assert!(!nodes[0].consumed);
    assert_eq!(people, vec![idler(0, 0)]);
}

#[test]
fn the_event_carries_the_kind_of_the_task() {
    let mut people = vec![gatherer(0, 0, NaturalResourceType::Iron, 0, Position::new(0, 0))];
    let mut nodes = vec![live(NaturalResourceType::Coal, 0, 0)];
    let mut events = Vec::new();
    move_people(&mut people, &mut nodes, &mut events, 16);
    assert_eq!(events, vec![GatherEvent(0, NaturalResourceType::Iron)]);
}

#[test]
fn people_walk_at_two_hundred_units_a_second() {
    let mut people = vec![wanderer(0, 0, 0, 500 * UNIT), idler(3, 3)];
    let mut nodes = Vec::new();
    let mut events = Vec::new();
    move_people(&mut people, &mut nodes, &mut events, 1000);
    assert_eq!(people[0].position, Position::new(0, 200 * UNIT));
    assert_eq!(people[0].task, PersonTask::Wandering);
    assert_eq!(people[1], idler(3, 3));
    move_people(&mut people, &mut nodes, &mut events, 0);
    assert_eq!(people[0].position, Position::new(0, 200 * UNIT));
}

#[test]
fn the_anchor_is_the_house_or_the_origin() {
    let houses = vec![House { island: 0, position: Position::new(40, 50) }];
    let mut person = idler(1, 1);
    assert_eq!(home_anchor(&person, &houses), Position::new(0, 0));
    person.house = Some(0);
    assert_eq!(home_anchor(&person, &houses), Position::new(40, 50));
    person.house = Some(1);
    assert_eq!(home_anchor(&person, &houses), Position::new(0, 0));
}

#[test]
fn nobody_wanders_before_the_timer_fires() {
    let mut rng = StdRng::seed_from_u64(1);
    let mut timer = WanderTimer(Timer::new(2000));
    let mut people = vec![idler(0, 0)];
    let fired = make_people_wander(&mut timer, &mut people, &Vec::new(), &mut rng, Ratio::never(), 1999);
    assert!(!fired);
    assert_eq!(people, vec![idler(0, 0)]);
    assert_eq!(timer.0.elapsed_ms, 1999);
}

#[test]
fn every_idle_person_wanders_when_the_timer_fires() {
    let mut rng = StdRng::seed_from_u64(2);
    let mut timer = WanderTimer(Timer::new(2000));
    let houses = vec![House { island: 0, position: Position::new(500_000, -300_000) }];
    let mut homed = idler(7, 7);
    homed.house = Some(0);
    let busy = gatherer(0, 0, NaturalResourceType::Wood, 0, Position::new(9, 9));
    let roaming = wanderer(1, 1, 2, 2);
    let mut people = vec![idler(5, 5), busy.clone(), homed, roaming.clone()];
    let fired = make_people_wander(&mut timer, &mut people, &houses, &mut rng, Ratio::never(), 2000);
    assert!(fired);
    assert_eq!(timer.0.elapsed_ms, 0);

    assert_eq!(people[0].task, PersonTask::Wandering);
    assert_eq!(people[0].position, Position::new(5, 5));
    let target = people[0].target.0.unwrap();
    assert!(target.is_within(WANDER_RANGE));

    assert_eq!(people[1], busy);

    assert_eq!(people[2].task, PersonTask::Wandering);
    assert_eq!(people[2].house, Some(0));
    let target = people[2].target.0.unwrap();
    assert!((target.x - 500_000).abs() <= WANDER_RANGE);
    assert!((target.y + 300_000).abs() <= WANDER_RANGE);

    assert_eq!(people[3], roaming);
}

#[test]
fn wander_targets_spread_over_the_range() {
    let mut rng = StdRng::seed_from_u64(3);
    let mut timer = WanderTimer(Timer::new(0));
    let mut people = Vec::new();
    let mut n = 0;
    while n < 200 {
        people.push(idler(0, 0));
        n += 1;
    }
    make_people_wander(&mut timer, &mut people, &Vec::new(), &mut rng, Ratio::never(), 1);
    let xs: Vec<i64> = people.iter().map(|p| p.target.0.unwrap().x).collect();
    let ys: Vec<i64> = people.iter().map(|p| p.target.0.unwrap().y).collect();
    assert!(xs.iter().all(|x| x.abs() <= WANDER_RANGE));
    assert!(ys.iter().all(|y| y.abs() <= WANDER_RANGE));
    assert!(*xs.iter().max().unwrap() > WANDER_RANGE / 2);
    assert!(*xs.iter().min().unwrap() < -WANDER_RANGE / 2);
    assert!(*ys.iter().max().unwrap() > WANDER_RANGE / 2);
    assert!(*ys.iter().min().unwrap() < -WANDER_RANGE / 2);
}

#[test]
fn nobody_wanders_when_everybody_is_skipped() {
    let mut rng = StdRng::seed_from_u64(4);
    let mut timer = WanderTimer(Timer::new(10));
    let mut people = vec![idler(0, 0), idler(1, 1)];
    let fired = make_people_wander(&mut timer, &mut people, &Vec::new(), &mut rng, Ratio::always(), 10);
    assert!(fired);
    assert_eq!(people, vec![idler(0, 0), idler(1, 1)]);
}

#[test]
fn nobody_gathers_before_the_timer_fires() {
    let mut rng = StdRng::seed_from_u64(5);
    let mut timer = GatherTimer(Timer::new(1000));
    let mut people = vec![idler(0, 0)];
    let nodes = vec![live(NaturalResourceType::Wood, 5, 5)];
    let pass = make_people_gather(&mut timer, &mut people, &nodes, &pool(), &mut rng, Ratio::never(), 999);
    assert_eq!(pass, GatherPass { fired: false, searches: 0, assigned: 0 });
    assert_eq!(people, vec![idler(0, 0)]);
    assert_eq!(timer.0.elapsed_ms, 999);
}

#[test]
fn free_people_are_sent_to_the_nearest_live_node() {
    let mut rng = StdRng::seed_from_u64(6);
    let mut timer = GatherTimer(Timer::new(1000));
    let busy = gatherer(0, 0, NaturalResourceType::Coal, 0, Position::new(1000, 0));
    let mut people = vec![idler(0, 0), wanderer(900, 900, 0, 0), busy.clone()];
    let mut nodes = vec![
        live(NaturalResourceType::Coal, 1000, 0),
        live(NaturalResourceType::Iron, 10, 10),
        live(NaturalResourceType::Gold, 1000, 1000),
    ];
    nodes[1].consumed = true;
    let pass = make_people_gather(&mut timer, &mut people, &nodes, &pool(), &mut rng, Ratio::never(), 1000);
    assert_eq!(pass, GatherPass { fired: true, searches: 2, assigned: 2 });
    assert_eq!(
        people[0],
        gatherer(0, 0, NaturalResourceType::Coal, 0, Position::new(1000, 0))
    );
    assert_eq!(
        people[1],
        gatherer(900, 900, NaturalResourceType::Gold, 2, Position::new(1000, 1000))
    );
    assert_eq!(people[2], busy);
    assert_eq!(nodes[0], live(NaturalResourceType::Coal, 1000, 0));
}

#[test]
fn a_search_without_live_nodes_leaves_people_as_they_were() {
    let mut rng = StdRng::seed_from_u64(7);
    let mut timer = GatherTimer(Timer::new(1000));
    let mut people = vec![idler(0, 0), wanderer(5, 5, 6, 6)];
    let mut nodes = vec![live(NaturalResourceType::Coal, 1000, 0)];
    nodes[0].consumed = true;
    let pass = make_people_gather(&mut timer, &mut people, &nodes, &pool(), &mut rng, Ratio::never(), 1500);
    assert_eq!(pass, GatherPass { fired: true, searches: 2, assigned: 0 });
    assert_eq!(people, vec![idler(0, 0), wanderer(5, 5, 6, 6)]);
    assert_eq!(timer.0.elapsed_ms, 500);
}

#[test]
fn nobody_gathers_when_everybody_is_skipped() {
    let mut rng = StdRng::seed_from_u64(8);
    let mut timer = GatherTimer(Timer::new(1000));
    let mut people = vec![idler(0, 0)];
    let nodes = vec![live(NaturalResourceType::Coal, 1000, 0)];
    let pass = make_people_gather(&mut timer, &mut people, &nodes, &pool(), &mut rng, Ratio::always(), 1000);
    assert_eq!(pass, GatherPass { fired: true, searches: 0, assigned: 0 });
    assert_eq!(people, vec![idler(0, 0)]);
}

#[test]
fn an_even_skip_sends_some_and_leaves_some() {
    let mut rng = StdRng::seed_from_u64(9);
    let mut timer = GatherTimer(Timer::new(1000));
    let mut people = Vec::new();
    let mut n = 0;
    while n < 400 {
        people.push(idler(n, 0));
        n += 1;
    }
    let nodes = vec![live(NaturalResourceType::Wood, 0, 50)];
    let pass = make_people_gather(&mut timer, &mut people, &nodes, &pool(), &mut rng, Ratio::half(), 1000);
    assert!(pass.fired);
    assert_eq!(pass.searches, pass.assigned);
    assert!(pass.assigned > 120 && pass.assigned < 280);
    let sent = people.iter().filter(|p| p.task != PersonTask::Idle).count();
    assert_eq!(sent, pass.assigned);
    for (i, person) in people.iter().enumerate() {
        if person.task != PersonTask::Idle {
            assert_eq!(
                *person,
                gatherer(i as i64, 0, NaturalResourceType::Wood, 0, Position::new(0, 50))
            );
        } else {
            assert_eq!(*person, idler(i as i64, 0));
        }
    }
}

#[test]
fn every_house_gets_one_inhabitant() {
    let mut rng = StdRng::seed_from_u64(10);
    let houses = vec![
        House { island: 0, position: Position::new(100, 200) },
        House { island: 1, position: Position::new(-300, 400) },
        House { island: 0, position: Position::new(0, 0) },
    ];
    let mut people = vec![idler(9, 9)];
    colonize_homes(&houses, &mut people, &mut rng);
    assert_eq!(people.len(), 4);
    assert_eq!(people[0], idler(9, 9));
    for (h, house) in houses.iter().enumerate() {
        let person = &people[1 + h];
        assert_eq!(person.house, Some(h));
        assert_eq!(person.position, house.position);
        assert_eq!(person.task, PersonTask::Idle);
        assert_eq!(person.target, TargetPosition(None));
        assert!(AVAILABLE_PERSON_NAMES.contains(&person.name.as_str()));
    }
}

#[test]
fn names_are_drawn_from_all_that_are_on_offer() {
    let mut rng = StdRng::seed_from_u64(12);
    let mut houses = Vec::new();
    let mut n = 0;
    while n < 300 {
        houses.push(House { island: 0, position: Position::new(n, n) });
        n += 1;
    }
    let mut people = Vec::new();
    colonize_homes(&houses, &mut people, &mut rng);
    for name in AVAILABLE_PERSON_NAMES.iter() {
        assert!(people.iter().any(|p| p.name == *name));
    }
}

#[test]
fn short_steps_always_arrive() {
    let starts = [(0, 0), (-77_777, 12_345), (5, -900_000), (123_456, 654_321)];
    let target = Position::new(40_000, -30_000);
    for (x, y) in starts.iter() {
        for travel in [2u64, 7, 200, 1999, 2000, 2001, 2200, 3800, 3999].iter() {
            let mut person = wanderer(*x, *y, target.x, target.y);
            // Far walks with the shortest steps take long: start those nearer.
            if *travel < 200 {
                person.position = Position::new(target.x + x % 3000, target.y + y % 3000);
            }
            let start = person.position.manhattan_distance(&target);
            let bound = (start + (*travel as u128 - 2)) / (*travel as u128 - 1) + 2;
            let mut distance = start;
            let mut passes: u128 = 0;
            loop {
                let finished = person.walk(*travel);
                passes += 1;
                if finished.is_some() {
                    break;
                }
                let now = person.position.manhattan_distance(&target);
                if *travel <= 2000 {
                    assert!(now + (*travel as u128 - 1) <= distance);
                }
                distance = now;
                assert!(passes <= bound);
            }
            assert!(passes <= bound);
            assert!(person.position.has_reached(&target));
            assert_eq!(person.task, PersonTask::Idle);
            assert_eq!(person.target, TargetPosition(None));
        }
    }
}

#[test]
fn a_step_over_the_target_lands_within_reach() {
    // The line is 3000 ticks long and the step 3800: the walker passes the target by 800.
    let mut person = wanderer(0, 0, 3000, 0);
    assert_eq!(person.walk(3800), None);
    assert_eq!(person.position, Position::new(3800, 0));
    assert_eq!(person.walk(3800), Some(PersonTask::Wandering));
    assert_eq!(person.position, Position::new(3800, 0));
}

#[test]
fn a_step_of_twice_the_reach_may_never_arrive() {
    // At four world units a step the walker jumps from one side of the reach to the other.
    let mut person = wanderer(0, 0, 2000, 0);
    let mut n = 0;
    while n < 50 {
        assert_eq!(person.walk(4000), None);
        assert_eq!(person.position, Position::new(4000, 0));
        assert_eq!(person.walk(4000), None);
        assert_eq!(person.position, Position::new(0, 0));
        n += 1;
    }
}

#[test]
fn people_are_checked_one_by_one() {
    assert!(idler(AGENT_LIMIT, -AGENT_LIMIT).is_wf());
    assert!(!idler(AGENT_LIMIT + 1, 0).is_wf());
    assert!(wanderer(0, 0, TARGET_LIMIT, 0).is_wf());
    assert!(!wanderer(0, 0, TARGET_LIMIT + 1, 0).is_wf());
    let mut odd = idler(0, 0);
    odd.target = TargetPosition(Some(Position::new(1, 1)));
    assert!(!odd.is_wf());
    let mut lost = wanderer(0, 0, 1, 1);
    lost.target = TargetPosition(None);
    assert!(!lost.is_wf());
    assert!(check_people(&vec![idler(0, 0), wanderer(0, 0, 5, 5)]));
    assert!(!check_people(&vec![idler(0, 0), odd]));
    assert!(check_people(&Vec::new()));
}
