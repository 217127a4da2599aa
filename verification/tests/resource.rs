use rand::rngs::StdRng;
use rand::SeedableRng;
use settlement::geometry::{Position, UNIT, WORLD_LIMIT};
use settlement::random::Ratio;
use settlement::resource::{
    check_nodes, count_consumed, grid_position, plant_point, plant_resources, NaturalResource,
    NaturalResourceType, ResourceNode, PLANT_EXTENT, PLANT_ODDS,
};

#[test]
fn rolls_stand_for_kinds() {
    assert_eq!(NaturalResourceType::from_roll(0), NaturalResourceType::Coal);
    assert_eq!(NaturalResourceType::from_roll(1), NaturalResourceType::Iron);
    assert_eq!(NaturalResourceType::from_roll(2), NaturalResourceType::Gold);
    assert_eq!(NaturalResourceType::from_roll(3), NaturalResourceType::Wood);
    assert_eq!(NaturalResourceType::from_roll(4), NaturalResourceType::Wood);
}

#[test]
fn pick_never_gives_water_and_gives_every_other_kind() {
    let mut rng = StdRng::seed_from_u64(11);
    let mut seen = [false; 4];
    let mut n = 0;
    while n < 2000 {
        match NaturalResourceType::pick(&mut rng) {
            NaturalResourceType::Coal => seen[0] = true,
            NaturalResourceType::Iron => seen[1] = true,
            NaturalResourceType::Gold => seen[2] = true,
            NaturalResourceType::Wood => seen[3] = true,
            NaturalResourceType::Water => panic!("water was rolled"),
        }
        n += 1;
    }
    assert_eq!(seen, [true; 4]);
}

#[test]
fn ratio_is_made_of_probabilities_only() {
    assert_eq!(Ratio::new(1, 2), Some(Ratio { numerator: 1, denominator: 2 }));
    assert_eq!(Ratio::new(0, 7), Some(Ratio { numerator: 0, denominator: 7 }));
    assert_eq!(Ratio::new(7, 7), Some(Ratio { numerator: 7, denominator: 7 }));
    assert_eq!(Ratio::new(8, 7), None);
    assert_eq!(Ratio::new(0, 0), None);
    assert_eq!(Ratio::never(), Ratio { numerator: 0, denominator: 1 });
    assert_eq!(Ratio::always(), Ratio { numerator: 1, denominator: 1 });
    assert_eq!(Ratio::half(), Ratio { numerator: 1, denominator: 2 });
}

#[test]
fn certain_ratios_do_not_depend_on_the_draw() {
    let mut rng = StdRng::seed_from_u64(3);
    let mut n = 0;
    while n < 500 {
        assert!(!Ratio::never().sample(&mut rng));
        assert!(Ratio::always().sample(&mut rng));
        assert!(!Ratio { numerator: 0, denominator: 9 }.sample(&mut rng));
        assert!(Ratio { numerator: 9, denominator: 9 }.sample(&mut rng));
        n += 1;
    }
}

#[test]
fn an_even_ratio_gives_both_answers() {
    let mut rng = StdRng::seed_from_u64(5);
    let mut yes = 0;
    let mut n = 0;
    while n < 1000 {
        if Ratio::half().sample(&mut rng) {
            yes += 1;
        }
        n += 1;
    }
    assert!(yes > 300 && yes < 700);
}

#[test]
fn a_node_must_lie_inside_the_world() {
    let inside = Position::new(WORLD_LIMIT, -WORLD_LIMIT);
    assert_eq!(
        ResourceNode::new(NaturalResourceType::Gold, inside),
        Some(ResourceNode {
            resource: NaturalResource(NaturalResourceType::Gold),
            position: inside,
            consumed: false,
        })
    );
    assert_eq!(
        ResourceNode::new(NaturalResourceType::Gold, Position::new(WORLD_LIMIT + 1, 0)),
        None
    );
    assert_eq!(
        ResourceNode::new(NaturalResourceType::Gold, Position::new(0, -WORLD_LIMIT - 1)),
        None
    );
}

#[test]
fn planting_scatters_live_nodes_over_the_grid() {
    let mut rng = StdRng::seed_from_u64(2021);
    let kept = ResourceNode {
        resource: NaturalResource(NaturalResourceType::Water),
        position: Position::new(7, 7),
        consumed: true,
    };
    let mut nodes = vec![kept];
    plant_resources(&mut nodes, &mut rng);
    assert_eq!(nodes[0], kept);

    // 2001 * 2001 grid points at odds of one in ten thousand: about 400 nodes.
    let planted = nodes.len() - 1;
    assert!(planted > 250 && planted < 600);
    assert_eq!(PLANT_ODDS, 10_000);

    let extent = PLANT_EXTENT * UNIT;
    let mut k = 1;
    while k < nodes.len() {
        let node = nodes[k];
        assert!(!node.consumed);
        assert!(node.resource.0 != NaturalResourceType::Water);
        assert_eq!(node.position.x % UNIT, 0);
        assert_eq!(node.position.y % UNIT, 0);
        assert!(node.position.is_within(extent));
        if k > 1 {
            let earlier = nodes[k - 1].position;
            assert!(
                earlier.x < node.position.x
                    || (earlier.x == node.position.x && earlier.y < node.position.y)
            );
        }
        k += 1;
    }
}

#[test]
fn planting_twice_keeps_the_first_planting() {
    let mut rng = StdRng::seed_from_u64(1);
    let mut nodes = Vec::new();
    plant_resources(&mut nodes, &mut rng);
    let first = nodes.clone();
    plant_resources(&mut nodes, &mut rng);
    assert!(nodes.len() > first.len());
    assert_eq!(&nodes[..first.len()], &first[..]);
}

#[test]
fn grid_points_are_whole_units() {
    assert_eq!(grid_position(0, 0), Position::new(0, 0));
    assert_eq!(grid_position(-1000, 1000), Position::new(-1_000_000, 1_000_000));
    assert_eq!(grid_position(17, -3), Position::new(17_000, -3_000));
}

#[test]
fn nodes_are_checked_and_counted() {
    let live = ResourceNode::new(NaturalResourceType::Coal, Position::new(1, 1)).unwrap();
    let mut spent = live;
    spent.consumed = true;
    let mut stray = live;
    stray.position = Position::new(0, WORLD_LIMIT + 1);
    assert!(live.is_wf());
    assert!(!stray.is_wf());
    assert!(check_nodes(&vec![live, spent]));
    assert!(!check_nodes(&vec![live, stray, spent]));
    assert_eq!(count_consumed(&vec![live, spent, spent, live, spent]), 3);
    assert_eq!(count_consumed(&vec![live]), 0);
    assert_eq!(count_consumed(&Vec::new()), 0);
    assert!(Ratio { numerator: 1, denominator: 2 }.is_wf());
    assert!(!Ratio { numerator: 3, denominator: 2 }.is_wf());
    assert!(!Ratio { numerator: 0, denominator: 0 }.is_wf());
}

#[test]
fn a_draw_of_nothing_plants_nothing() {
    let kept = ResourceNode::new(NaturalResourceType::Iron, Position::new(5, 5)).unwrap();
    let mut nodes = vec![kept];
    plant_point(&mut nodes, 3, -4, None);
    assert_eq!(nodes, vec![kept]);
}

#[test]
fn a_draw_of_a_kind_plants_a_live_node_at_the_grid_point() {
    let kept = ResourceNode::new(NaturalResourceType::Iron, Position::new(5, 5)).unwrap();
    let mut nodes = vec![kept];
    plant_point(&mut nodes, 3, -4, Some(NaturalResourceType::Gold));
    plant_point(&mut nodes, -1000, 1000, Some(NaturalResourceType::Wood));
    assert_eq!(
        nodes,
        vec![
            kept,
            ResourceNode {
                resource: NaturalResource(NaturalResourceType::Gold),
                position: Position::new(3000, -4000),
                consumed: false,
            },
            ResourceNode {
                resource: NaturalResource(NaturalResourceType::Wood),
                position: Position::new(-1_000_000, 1_000_000),
                consumed: false,
            },
        ]
    );
}
