use arena::units::{FOOD_SIZE, FOOD_VALUE, LIMIT, TICK_PERIOD_MS, MAX_FOOD_COUNT, PLAYER_START_SIZE, SPAWN_MARGIN, UNIT, WORLD_HEIGHT, WORLD_WIDTH};
use arena::world::{can_eat, clash_between, draw_newcomer, AdmitError, Color, Encounter, Food, Player, World};

const GREY: Color = Color { r: 128, g: 128, b: 128 };

fn player(id: u128, x: i64, y: i64, size: i64) -> Player {
    Player { id, x, y, size, color: GREY }
}

fn pellet(id: u128, x: i64, y: i64) -> Food {
    Food { id, x, y, color: GREY }
}

fn is_hex_color(s: &str) -> bool {
    let bytes = s.as_bytes();
    bytes.len() == 7
        && bytes[0] == b'#'
        && bytes[1..].iter().all(|b| b.is_ascii_digit() || (b'a'..=b'f').contains(b))
}

#[test]
fn constants_of_the_arena() {
    assert_eq!(UNIT, 1_000);
    assert_eq!(WORLD_WIDTH, 3_000 * UNIT);
    assert_eq!(WORLD_HEIGHT, 3_000 * UNIT);
    assert_eq!(PLAYER_START_SIZE, 20 * UNIT);
    assert_eq!(FOOD_VALUE, UNIT);
    assert_eq!(MAX_FOOD_COUNT, 100);
    assert_eq!(SPAWN_MARGIN, 100 * UNIT);
    assert_eq!(FOOD_SIZE, 10 * UNIT);
    assert_eq!(TICK_PERIOD_MS, 50);
}

#[test]
fn an_empty_world_is_empty() {
    let w = World::empty();
    assert!(w.players().is_empty());
    assert!(w.food().is_empty());
}

#[test]
fn spawn_food_fills_an_empty_world() {
    let mut w = World::empty();
    w.spawn_food();
    assert_eq!(w.food().len(), 100);
    for f in w.food() {
        assert!(0 <= f.x && f.x < 3_000_000);
        assert!(0 <= f.y && f.y < 3_000_000);
        assert!(is_hex_color(&f.color.to_hex()));
    }
    let mut ids: Vec<u128> = w.food().iter().map(|f| f.id).collect();
    ids.sort();
    ids.dedup();
    assert_eq!(ids.len(), 100);
    assert!(w.players().is_empty());
}

#[test]
fn a_new_world_is_stocked() {
    let w = World::new();
    assert_eq!(w.food().len(), MAX_FOOD_COUNT);
    assert!(w.players().is_empty());
}

#[test]
fn spawn_food_changes_nothing_at_the_target_count() {
    let mut w = World::new();
    let before: Vec<Food> = w.food().clone();
    w.spawn_food();
    assert_eq!(w.food(), &before);
    w.spawn_food();
    assert_eq!(w.food(), &before);
}

#[test]
fn spawn_food_keeps_what_is_there() {
    let mut w = World::empty();
    assert!(w.place_food(pellet(1, 10, 20)));
    assert!(w.place_food(pellet(2, 30, 40)));
    w.spawn_food();
    assert_eq!(w.food().len(), 100);
    assert_eq!(w.food()[0], pellet(1, 10, 20));
    assert_eq!(w.food()[1], pellet(2, 30, 40));
}

#[test]
fn place_food_refuses_what_does_not_fit() {
    let mut w = World::empty();
    assert!(w.place_food(pellet(1, 0, 0)));
    assert!(!w.place_food(pellet(1, 5, 5)));
    assert!(!w.place_food(pellet(2, -1, 5)));
    assert!(!w.place_food(pellet(2, 5, WORLD_HEIGHT)));
    assert!(w.place_food(pellet(2, WORLD_WIDTH - 1, WORLD_HEIGHT - 1)));
    assert_eq!(w.food().len(), 2);
    let mut full = World::new();
    assert!(!full.place_food(pellet(0, 1, 1)) || full.food().len() <= 100);
    assert_eq!(full.food().len(), 100);
}

#[test]
fn admit_player_places_a_newcomer() {
    let mut w = World::new();
    assert_eq!(w.admit_player(42), Ok(()));
    assert_eq!(w.players().len(), 1);
    let p = w.player(42).unwrap();
    assert_eq!(p.id, 42);
    assert_eq!(p.size, 20_000);
    assert!(100_000 <= p.x && p.x < 2_900_000);
    assert!(100_000 <= p.y && p.y < 2_900_000);
    assert!(p.color.r < 255 && p.color.g < 255 && p.color.b < 255);
    assert!(is_hex_color(&p.color.to_hex()));
    assert_eq!(w.food().len(), 100);
}

#[test]
fn admit_player_fails_on_a_taken_identifier() {
    let mut w = World::empty();
    assert_eq!(w.admit_player(42), Ok(()));
    let before = w.players().clone();
    assert_eq!(w.admit_player(42), Err(AdmitError::Duplicate));
    assert_eq!(w.players(), &before);
    assert_eq!(w.admit_player(43), Ok(()));
    assert_eq!(w.players().len(), 2);
    assert_eq!(w.players()[0], before[0]);
}

#[test]
fn draw_newcomer_stays_in_the_margin() {
    for id in 0..200u128 {
        let p = draw_newcomer(id);
        assert_eq!(p.id, id);
        assert_eq!(p.size, PLAYER_START_SIZE);
        assert!(SPAWN_MARGIN <= p.x && p.x < WORLD_WIDTH - SPAWN_MARGIN);
        assert!(SPAWN_MARGIN <= p.y && p.y < WORLD_HEIGHT - SPAWN_MARGIN);
        assert!(p.is_valid());
    }
}

#[test]
fn insert_player_checks_the_player() {
    let mut w = World::empty();
    assert_eq!(w.insert_player(player(1, 0, 0, 20_000)), Ok(()));
    assert_eq!(w.insert_player(player(1, 5, 5, 20_000)), Err(AdmitError::Duplicate));
    assert_eq!(w.insert_player(player(1, 5, 5, 0)), Err(AdmitError::Duplicate));
    assert_eq!(w.insert_player(player(2, 5, 5, 0)), Err(AdmitError::OutOfRange));
    assert_eq!(w.insert_player(player(2, 5, 5, -3)), Err(AdmitError::OutOfRange));
    assert_eq!(w.insert_player(player(2, 5, 5, LIMIT + 1)), Err(AdmitError::OutOfRange));
    assert_eq!(w.insert_player(player(2, LIMIT + 1, 5, 1)), Err(AdmitError::OutOfRange));
    assert_eq!(w.insert_player(player(2, 5, -LIMIT - 1, 1)), Err(AdmitError::OutOfRange));
    assert_eq!(w.insert_player(player(2, -LIMIT, LIMIT, LIMIT)), Ok(()));
    assert_eq!(w.players().len(), 2);
}

#[test]
fn remove_player_removes_only_that_player() {
    let mut w = World::empty();
    for id in 1..=3u128 {
        w.insert_player(player(id, 1_000_000 * id as i64, 500_000, 20_000)).unwrap();
    }
    w.remove_player(2);
    assert_eq!(w.players().len(), 2);
    assert_eq!(w.players()[0].id, 1);
    assert_eq!(w.players()[1].id, 3);
    assert_eq!(w.player(2), None);
    w.remove_player(2);
    w.remove_player(99);
    assert_eq!(w.players().len(), 2);
}

#[test]
fn a_movement_intent_moves_one_step() {
    let mut w = World::empty();
    w.insert_player(player(1, 1_000_000, 1_000_000, 20_000)).unwrap();
    // a target 1000 units away
    w.apply_movement_intent(1, 2_000_000, 1_000_000);
    let p = w.player(1).unwrap();
    // 5 / (1 + 20 / 100) = 4.166 units
    assert_eq!(p.x, 1_004_166);
    assert_eq!(p.y, 1_000_000);
}

#[test]
fn move_player_moves_and_leaves_the_rest() {
    let mut w = World::empty();
    w.insert_player(player(1, 1_000_000, 1_000_000, 20_000)).unwrap();
    w.insert_player(player(2, 2_000_000, 2_000_000, 30_000)).unwrap();
    assert!(w.place_food(pellet(9, 5, 5)));
    assert_eq!(w.move_player(1, 4_000_000, 5_000_000), 0);
    assert_eq!(w.player(1).unwrap(), player(1, 1_002_499, 1_003_332, 20_000));
    assert_eq!(w.player(2).unwrap(), player(2, 2_000_000, 2_000_000, 30_000));
    assert_eq!(w.food(), &vec![pellet(9, 5, 5)]);
}

#[test]
fn a_larger_player_moves_slower() {
    let mut w = World::empty();
    w.insert_player(player(1, 1_000_000, 1_000_000, 100_000)).unwrap();
    w.move_player(1, 1_000_000, 2_000_000);
    assert_eq!(w.player(1).unwrap(), player(1, 1_000_000, 1_002_500, 100_000));
}

#[test]
fn movement_is_clamped_into_the_world() {
    let mut w = World::empty();
    w.insert_player(player(1, 20_000, 20_000, 20_000)).unwrap();
    w.move_player(1, -1_000_000, -1_000_000);
    assert_eq!(w.player(1).unwrap(), player(1, 20_000, 20_000, 20_000));
    w.insert_player(player(2, 2_979_000, 2_980_000, 20_000)).unwrap();
    w.move_player(2, 9_000_000, 2_980_000);
    assert_eq!(w.player(2).unwrap(), player(2, 2_980_000, 2_980_000, 20_000));
    // a player placed outside is brought inside even without moving
    w.insert_player(player(3, 0, 3_000_000, 20_000)).unwrap();
    w.move_player(3, 0, 3_000_000);
    assert_eq!(w.player(3).unwrap(), player(3, 20_000, 2_980_000, 20_000));
}

#[test]
fn an_intent_for_an_absent_player_changes_nothing() {
    let mut w = World::empty();
    w.insert_player(player(1, 1_000_000, 1_000_000, 20_000)).unwrap();
    assert!(w.place_food(pellet(9, 5, 5)));
    w.apply_movement_intent(2, 0, 0);
    assert_eq!(w.players(), &vec![player(1, 1_000_000, 1_000_000, 20_000)]);
    // not even a refill
    assert_eq!(w.food(), &vec![pellet(9, 5, 5)]);
    assert_eq!(w.move_player(2, 0, 0), 0);
}

#[test]
fn a_player_eats_the_pellets_in_reach() {
    let mut w = World::empty();
    w.insert_player(player(1, 1_000_000, 1_000_000, 20_000)).unwrap();
    assert!(w.place_food(pellet(10, 1_000_000, 1_000_000)));
    assert!(w.place_food(pellet(11, 1_019_999, 1_000_000)));
    // exactly on the rim: out of reach
    assert!(w.place_food(pellet(12, 1_020_000, 1_000_000)));
    assert!(w.place_food(pellet(13, 1_012_000, 1_016_000)));
    assert!(w.place_food(pellet(14, 1_012_000, 1_015_999)));
    assert!(w.place_food(pellet(15, 2_000_000, 2_000_000)));
    let eaten = w.move_player(1, 1_000_000, 1_000_000);
    assert_eq!(eaten, 3);
    assert_eq!(w.player(1).unwrap(), player(1, 1_000_000, 1_000_000, 23_000));
    assert_eq!(
        w.food(),
        &vec![pellet(12, 1_020_000, 1_000_000), pellet(13, 1_012_000, 1_016_000), pellet(15, 2_000_000, 2_000_000)]
    );
}

#[test]
fn pellets_are_eaten_where_the_player_arrives() {
    let mut w = World::empty();
    w.insert_player(player(1, 1_000_000, 1_000_000, 20_000)).unwrap();
    // in reach only after the step of 4166
    assert!(w.place_food(pellet(10, 1_024_000, 1_000_000)));
    // in reach only before it
    assert!(w.place_food(pellet(11, 980_500, 1_000_000)));
    assert_eq!(w.move_player(1, 2_000_000, 1_000_000), 1);
    assert_eq!(w.player(1).unwrap(), player(1, 1_004_166, 1_000_000, 21_000));
    assert_eq!(w.food(), &vec![pellet(11, 980_500, 1_000_000)]);
}

#[test]
fn a_movement_intent_refills_the_pellets() {
    let mut w = World::new();
    w.insert_player(player(1, 1_500_000, 1_500_000, 20_000)).unwrap();
    for _ in 0..50 {
        let size = w.player(1).unwrap().size;
        let in_reach = w
            .food()
            .iter()
            .filter(|f| {
                let p = arena::geometry::advance(
                    w.player(1).unwrap().x,
                    w.player(1).unwrap().y,
                    size,
                    0,
                    0,
                );
                let x = arena::geometry::confine(p.x, size, WORLD_WIDTH);
                let y = arena::geometry::confine(p.y, size, WORLD_HEIGHT);
                arena::geometry::distance_squared(f.x, f.y, x, y) < (size as u128) * (size as u128)
            })
            .count() as i64;
        w.apply_movement_intent(1, 0, 0);
        assert_eq!(w.food().len(), 100);
        let p = w.player(1).unwrap();
        assert_eq!(p.size, size + in_reach * FOOD_VALUE);
        // the disc it moved with lies inside the world
        assert!(size <= p.x && p.x <= WORLD_WIDTH - size);
        assert!(size <= p.y && p.y <= WORLD_HEIGHT - size);
    }
}

#[test]
fn an_oversized_player_is_clamped_to_the_upper_bound() {
    let mut w = World::empty();
    w.insert_player(player(1, 1_000_000, 1_000_000, 2_000_000)).unwrap();
    assert!(w.place_food(pellet(10, 1_000_000, 1_000_000)));
    assert!(w.place_food(pellet(11, 2_999_999, 2_999_999)));
    // raised to its size, then lowered to extent - size
    assert_eq!(w.move_player(1, 1_000_000, 1_000_000), 1);
    assert_eq!(w.player(1).unwrap(), player(1, 1_000_000, 1_000_000, 2_001_000));
    assert_eq!(w.food(), &vec![pellet(11, 2_999_999, 2_999_999)]);
    // at the limit the centre lies far outside, and no pellet is in reach
    w.insert_player(player(2, 0, 0, LIMIT)).unwrap();
    assert_eq!(w.move_player(2, 0, 0), 0);
    assert_eq!(w.player(2).unwrap(), player(2, WORLD_WIDTH - LIMIT, WORLD_HEIGHT - LIMIT, LIMIT));
}

#[test]
fn the_larger_player_eats_the_smaller() {
    let mut w = World::empty();
    // sizes 30 and 20, 25 units apart
    w.insert_player(player(1, 1_000_000, 1_000_000, 30_000)).unwrap();
    w.insert_player(player(2, 1_025_000, 1_000_000, 20_000)).unwrap();
    let found = w.resolve_combat();
    assert_eq!(found, vec![Encounter { eater: 1, eaten: 2 }]);
    assert_eq!(w.players(), &vec![player(1, 1_000_000, 1_000_000, 40_000)]);
    assert_eq!(w.player(2), None);
}

#[test]
fn the_order_of_admission_does_not_decide_who_eats() {
    let mut w = World::empty();
    w.insert_player(player(2, 1_025_000, 1_000_000, 20_000)).unwrap();
    w.insert_player(player(1, 1_000_000, 1_000_000, 30_000)).unwrap();
    let found = w.resolve_combat();
    assert_eq!(found, vec![Encounter { eater: 1, eaten: 2 }]);
    assert_eq!(w.players(), &vec![player(1, 1_000_000, 1_000_000, 40_000)]);
}

#[test]
fn players_of_similar_size_do_not_interact() {
    let mut w = World::empty();
    w.insert_player(player(1, 1_000_000, 1_000_000, 22_000)).unwrap();
    w.insert_player(player(2, 1_001_000, 1_000_000, 20_000)).unwrap();
    assert_eq!(w.resolve_combat(), vec![]);
    assert_eq!(w.players().len(), 2);
    assert_eq!(w.player(1).unwrap().size, 22_000);
    assert_eq!(w.player(2).unwrap().size, 20_000);
}

#[test]
fn the_margin_must_exceed_a_fifth() {
    let small = player(2, 1_001_000, 1_000_000, 20_000);
    // exactly 20 % larger: not enough
    assert!(!can_eat(&player(1, 1_000_000, 1_000_000, 24_000), &small));
    assert!(can_eat(&player(1, 1_000_000, 1_000_000, 24_001), &small));
    assert!(!can_eat(&small, &player(1, 1_000_000, 1_000_000, 24_001)));
    assert!(!can_eat(&small, &small));
}

#[test]
fn players_apart_do_not_interact() {
    let big = player(1, 1_000_000, 1_000_000, 30_000);
    // the centre of the smaller on the rim of the larger: out of reach
    assert!(!can_eat(&big, &player(2, 1_030_000, 1_000_000, 20_000)));
    assert!(can_eat(&big, &player(2, 1_029_999, 1_000_000, 20_000)));
    assert_eq!(clash_between(&big, &player(2, 1_030_000, 1_000_000, 20_000)), None);
    assert_eq!(
        clash_between(&player(2, 1_029_999, 1_000_000, 20_000), &big),
        Some(Encounter { eater: 1, eaten: 2 })
    );
    let mut w = World::empty();
    w.insert_player(big).unwrap();
    w.insert_player(player(2, 1_030_000, 1_000_000, 20_000)).unwrap();
    assert_eq!(w.resolve_combat(), vec![]);
    assert_eq!(w.players().len(), 2);
}

#[test]
fn encounters_are_settled_in_the_order_of_admission() {
    let mut w = World::empty();
    w.insert_player(player(1, 1_000_000, 1_000_000, 30_000)).unwrap();
    w.insert_player(player(2, 1_000_000, 1_000_000, 20_000)).unwrap();
    w.insert_player(player(3, 1_000_000, 1_000_000, 40_000)).unwrap();
    assert_eq!(
        w.detect_encounters(),
        vec![
            Encounter { eater: 1, eaten: 2 },
            Encounter { eater: 3, eaten: 1 },
            Encounter { eater: 3, eaten: 2 },
        ]
    );
    assert_eq!(w.players().len(), 3);
    let found = w.resolve_combat();
    assert_eq!(found.len(), 3);
    // 1 eats 2 and grows to 40; 3 eats the grown 1; 2 is gone when 3 would eat it
    assert_eq!(w.players(), &vec![player(3, 1_000_000, 1_000_000, 60_000)]);
}

#[test]
fn an_eaten_eater_does_not_grow() {
    let mut w = World::empty();
    w.insert_player(player(3, 1_000_000, 1_000_000, 40_000)).unwrap();
    w.insert_player(player(1, 1_000_000, 1_000_000, 30_000)).unwrap();
    w.insert_player(player(2, 1_000_000, 1_000_000, 20_000)).unwrap();
    let found = w.resolve_combat();
    assert_eq!(
        found,
        vec![
            Encounter { eater: 3, eaten: 1 },
            Encounter { eater: 3, eaten: 2 },
            Encounter { eater: 1, eaten: 2 },
        ]
    );
    // 3 eats 1 (+15) and 2 (+10); 1 is gone when it would eat 2
    assert_eq!(w.players(), &vec![player(3, 1_000_000, 1_000_000, 65_000)]);
}

#[test]
fn settle_feeds_half_the_size_rounded_down() {
    let mut w = World::empty();
    w.insert_player(player(1, 0, 0, 30_000)).unwrap();
    w.insert_player(player(2, 0, 0, 20_001)).unwrap();
    w.insert_player(player(3, 0, 0, 5)).unwrap();
    w.settle(Encounter { eater: 1, eaten: 2 });
    assert_eq!(w.players(), &vec![player(1, 0, 0, 40_000), player(3, 0, 0, 5)]);
    // the eaten is gone already: nothing is gained
    w.settle(Encounter { eater: 3, eaten: 2 });
    assert_eq!(w.players(), &vec![player(1, 0, 0, 40_000), player(3, 0, 0, 5)]);
    // the eater is gone: the eaten is removed all the same
    w.settle(Encounter { eater: 2, eaten: 3 });
    assert_eq!(w.players(), &vec![player(1, 0, 0, 40_000)]);
}

#[test]
fn a_kill_stops_growing_at_the_limit() {
    let mut w = World::empty();
    w.insert_player(player(1, 0, 0, LIMIT - 10)).unwrap();
    w.insert_player(player(2, 0, 0, 1_000)).unwrap();
    assert_eq!(w.resolve_combat(), vec![Encounter { eater: 1, eaten: 2 }]);
    assert_eq!(w.players(), &vec![player(1, 0, 0, LIMIT)]);
}

#[test]
fn combat_leaves_the_pellets() {
    let mut w = World::new();
    let before = w.food().clone();
    w.insert_player(player(1, 1_000_000, 1_000_000, 30_000)).unwrap();
    w.insert_player(player(2, 1_025_000, 1_000_000, 20_000)).unwrap();
    w.resolve_combat();
    assert_eq!(w.food(), &before);
}

#[test]
fn eating_goes_one_way() {
    let mut w = World::empty();
    let mut id = 0u128;
    for size in [10_000i64, 12_000, 12_001, 15_000, 40_000, 47_000, 48_001] {
        for x in [0i64, 9_000, 30_000] {
            id += 1;
            w.insert_player(player(id, x, 0, size)).unwrap();
        }
    }
    let found = w.detect_encounters();
    assert!(!found.is_empty());
    for e in &found {
        assert_ne!(e.eater, e.eaten);
        assert!(!found.contains(&Encounter { eater: e.eaten, eaten: e.eater }));
        assert_eq!(found.iter().filter(|o| *o == e).count(), 1);
        assert!(can_eat(&w.player(e.eater).unwrap(), &w.player(e.eaten).unwrap()));
    }
    for a in w.players() {
        for b in w.players() {
            assert_eq!(can_eat(a, b), found.contains(&Encounter { eater: a.id, eaten: b.id }));
        }
    }
}

#[test]
fn no_survivor_of_a_pass_has_shrunk() {
    let mut w = World::empty();
    let mut id = 0u128;
    for size in [10_000i64, 12_000, 12_001, 15_000, 40_000, 47_000, 48_001] {
        for x in [0i64, 9_000, 30_000] {
            id += 1;
            w.insert_player(player(id, x, 0, size)).unwrap();
        }
    }
    let before = w.players().clone();
    let found = w.resolve_combat();
    for p in w.players() {
        let old = before.iter().find(|o| o.id == p.id).unwrap();
        assert!(p.size >= old.size);
        assert_eq!((p.x, p.y), (old.x, old.y));
    }
    for e in &found {
        assert_eq!(w.player(e.eaten), None);
    }
}
