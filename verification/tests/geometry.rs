use settlement::geometry::{
    gap, half_chord, integer_sqrt, Position, AGENT_LIMIT, ARRIVAL_THRESHOLD_SQ, MAX_TRAVEL, PERSON_SPEED,
    TARGET_LIMIT, UNIT, WANDER_RANGE, WORLD_LIMIT,
};

#[test]
fn integer_sqrt_rounds_down() {
    assert_eq!(integer_sqrt(0), 0);
    assert_eq!(integer_sqrt(1), 1);
    assert_eq!(integer_sqrt(2), 1);
    assert_eq!(integer_sqrt(3), 1);
    assert_eq!(integer_sqrt(4), 2);
    assert_eq!(integer_sqrt(24), 4);
    assert_eq!(integer_sqrt(25), 5);
    assert_eq!(integer_sqrt(26), 5);
    assert_eq!(integer_sqrt(25_000_000), 5000);
    assert_eq!(integer_sqrt(u128::MAX), u64::MAX);
}

#[test]
fn integer_sqrt_brackets_its_argument() {
    let mut n: u128 = 0;
    while n < 5000 {
        let r = integer_sqrt(n) as u128;
        assert!(r * r <= n);
        assert!(n < (r + 1) * (r + 1));
        n += 1;
    }
}

#[test]
fn gap_is_symmetric_and_wide() {
    assert_eq!(gap(3, 10), 7);
    assert_eq!(gap(10, 3), 7);
    assert_eq!(gap(-4, -4), 0);
    assert_eq!(gap(i64::MIN, i64::MAX), u64::MAX as u128);
}

#[test]
fn manhattan_distance_adds_the_axes() {
    let a = Position::new(-3, 4);
    let b = Position::new(2, -6);
    assert_eq!(a.manhattan_distance(&b), 15);
    assert_eq!(b.manhattan_distance(&a), 15);
    assert_eq!(a.manhattan_distance(&a), 0);
}

#[test]
fn manhattan_distance_of_the_far_corners() {
    let a = Position::new(i64::MIN, i64::MIN);
    let b = Position::new(i64::MAX, i64::MAX);
    assert_eq!(a.manhattan_distance(&b), 2 * (u64::MAX as u128));
}

#[test]
fn limits_nest() {
    assert_eq!(UNIT, 1000);
    assert_eq!(WANDER_RANGE, 100 * UNIT);
    assert_eq!(TARGET_LIMIT, WORLD_LIMIT + WANDER_RANGE);
    assert_eq!(MAX_TRAVEL, PERSON_SPEED * (u32::MAX as u64));
    assert_eq!(AGENT_LIMIT, TARGET_LIMIT + MAX_TRAVEL as i64);
    assert_eq!(ARRIVAL_THRESHOLD_SQ, (4 * UNIT * UNIT) as u128);
}

#[test]
fn is_within_includes_the_border() {
    let p = Position::new(5, -5);
    assert!(p.is_within(5));
    assert!(!p.is_within(4));
    assert!(Position::new(0, 0).is_within(0));
    assert!(!Position::new(0, 0).is_within(-1));
    assert!(!Position::new(0, 0).is_within(i64::MIN));
    assert!(Position::new(i64::MAX, i64::MIN + 1).is_within(i64::MAX));
    assert!(!Position::new(i64::MIN, 0).is_within(i64::MAX));
}

#[test]
fn arrival_is_strictly_inside_two_units() {
    let origin = Position::new(0, 0);
    assert!(origin.has_reached(&Position::new(0, 0)));
    assert!(origin.has_reached(&Position::new(1999, 0)));
    assert!(!origin.has_reached(&Position::new(2000, 0)));
    assert!(!origin.has_reached(&Position::new(0, -2000)));
    assert!(origin.has_reached(&Position::new(1414, 1414)));
    assert!(!origin.has_reached(&Position::new(1415, 1414)));
    assert!(origin.has_reached(&Position::new(-1000, 1000)));
}

#[test]
fn arrival_far_apart_does_not_overflow() {
    let a = Position::new(i64::MIN, i64::MIN);
    let b = Position::new(i64::MAX, i64::MAX);
    assert!(!a.has_reached(&b));
    assert!(!b.has_reached(&a));
}

#[test]
fn advance_follows_the_direction() {
    let from = Position::new(0, 0);
    let to = Position::new(3000, 4000);
    assert_eq!(from.advance(&to, 1000), Position::new(600, 800));
    assert_eq!(to.advance(&from, 1000), Position::new(2400, 3200));
}

#[test]
fn advance_rounds_each_share_toward_zero() {
    let from = Position::new(0, 0);
    // The direction has length 5000, so the shares of a step of 7 are 4.2 and 5.6.
    assert_eq!(from.advance(&Position::new(3000, 4000), 7), Position::new(4, 5));
    assert_eq!(from.advance(&Position::new(-3000, -4000), 7), Position::new(-4, -5));
    assert_eq!(from.advance(&Position::new(3000, -4000), 7), Position::new(4, -5));
}

#[test]
fn advance_takes_the_rounded_down_length() {
    // The direction (2000, 1000) has length 2236.06..., taken as 2236.
    let from = Position::new(0, 0);
    let next = from.advance(&Position::new(2000, 1000), 2236);
    assert_eq!(next, Position::new(2000, 1000));
    let next = from.advance(&Position::new(2000, 1000), 1000);
    assert_eq!(next, Position::new(894, 447));
}

#[test]
fn advance_may_pass_the_target() {
    let from = Position::new(0, 0);
    let to = Position::new(3000, 0);
    assert_eq!(from.advance(&to, 5000), Position::new(5000, 0));
}

#[test]
fn advance_without_travel_or_direction_stays() {
    let from = Position::new(10, -10);
    assert_eq!(from.advance(&Position::new(500, 500), 0), from);
    assert_eq!(from.advance(&from, 1234), from);
}

#[test]
fn advance_at_the_limits_stays_in_range() {
    let from = Position::new(AGENT_LIMIT, -AGENT_LIMIT);
    let to = Position::new(-TARGET_LIMIT, TARGET_LIMIT);
    let next = from.advance(&to, MAX_TRAVEL);
    assert!(next.is_within(AGENT_LIMIT));
    assert!(next.x < from.x);
    assert!(next.y > from.y);
}

#[test]
fn half_chord_is_the_rounded_down_leg() {
    assert_eq!(half_chord(5, 0), 5);
    assert_eq!(half_chord(5, 3), 4);
    assert_eq!(half_chord(5, -4), 3);
    assert_eq!(half_chord(5, 5), 0);
    assert_eq!(half_chord(5, -5), 0);
    assert_eq!(half_chord(10, 1), 9);
    assert_eq!(half_chord(0, 0), 0);
    assert_eq!(half_chord(WORLD_LIMIT, 0), WORLD_LIMIT);
    assert_eq!(half_chord(WORLD_LIMIT, WORLD_LIMIT), 0);
}

#[test]
fn every_point_of_a_chord_lies_on_the_disc() {
    let radius: i64 = 37;
    let mut offset = -radius;
    while offset <= radius {
        let reach = half_chord(radius, offset);
        assert!(offset * offset + reach * reach <= radius * radius);
        assert!(offset * offset + (reach + 1) * (reach + 1) > radius * radius);
        offset += 1;
    }
}
