use rand::rngs::StdRng;
use rand::SeedableRng;
use settlement::geometry::{Position, WORLD_LIMIT};
use settlement::house::{build_house, check_houses, draw_house_count, House, MOST_HOUSES};
use settlement::island::{Island, IslandNR, Size, Title};

fn island() -> Island {
    Island {
        title: Title("Ocor".to_string()),
        size: Size { width: 200_000, height: 200_000 },
        position: Position::new(0, 0),
        natural_resources: IslandNR::new(),
        changed: false,
    }
}

#[test]
fn houses_are_built_at_the_sites_in_order() {
    let islands = vec![island(), island()];
    let mut houses = vec![House { island: 0, position: Position::new(1, 1) }];
    let sites = vec![Position::new(100_000, 0), Position::new(-50_000, 86_602), Position::new(-50_000, -86_602)];
    build_house(&islands, &mut houses, 1, &sites);
    assert_eq!(
        houses,
        vec![
            House { island: 0, position: Position::new(1, 1) },
            House { island: 1, position: Position::new(100_000, 0) },
            House { island: 1, position: Position::new(-50_000, 86_602) },
            House { island: 1, position: Position::new(-50_000, -86_602) },
        ]
    );
}

#[test]
fn no_sites_build_no_houses() {
    let islands = vec![island()];
    let mut houses = Vec::new();
    build_house(&islands, &mut houses, 0, &Vec::new());
    assert!(houses.is_empty());
}

#[test]
fn an_island_is_given_one_to_nine_houses() {
    let mut rng = StdRng::seed_from_u64(5);
    let mut seen = [false; 10];
    let mut n = 0;
    while n < 500 {
        let count = draw_house_count(&mut rng);
        assert!(1 <= count && count <= MOST_HOUSES);
        seen[count] = true;
        n += 1;
    }
    assert_eq!(MOST_HOUSES, 9);
    assert!(!seen[0]);
    assert!(seen[1..].iter().all(|s| *s));
}

#[test]
fn houses_are_checked_against_the_islands_and_the_world() {
    let inside = House { island: 1, position: Position::new(WORLD_LIMIT, 0) };
    let outside = House { island: 0, position: Position::new(WORLD_LIMIT + 1, 0) };
    assert!(inside.is_wf(2));
    assert!(!inside.is_wf(1));
    assert!(!outside.is_wf(2));
    assert!(check_houses(&vec![inside, inside], 2));
    assert!(!check_houses(&vec![inside, outside], 2));
    assert!(!check_houses(&vec![inside], 1));
    assert!(check_houses(&Vec::new(), 0));
}
