use falling_sand::element::{Element, ElementForm};
use falling_sand::sandbox::SandBox;
use falling_sand::simulation::{
    level_updater, update_acid, update_acid_with, update_air, update_ash, update_cell,
    update_drain, update_fire, update_fire_with, update_iron, update_iron_with, update_lava,
    update_lava_with, update_life, update_oil, update_oil_with, update_plant, update_plant_with,
    update_sand, update_sand_with, update_smoke, update_smoke_with, update_source, update_water,
    update_water_with, Simulation,
};

fn run(level: &mut SandBox, ticks: usize) {
    let mut simulation = Simulation::default();
    for _ in 0..ticks {
        level_updater(level, &mut simulation);
    }
}

fn count(level: &SandBox, element: Element) -> usize {
    let mut n = 0;
    for y in 0..level.height() {
        for x in 0..level.width() {
            if level.get(x, y).element == element {
                n += 1;
            }
        }
    }
    n
}

fn find(level: &SandBox, element: Element) -> Vec<(usize, usize)> {
    let mut found = Vec::new();
    for y in 0..level.height() {
        for x in 0..level.width() {
            if level.get(x, y).element == element {
                found.push((x, y));
            }
        }
    }
    found
}

fn border_intact(level: &SandBox) -> bool {
    let (w, h) = (level.width(), level.height());
    (0..w).all(|x| {
        level.get(x, 0).element == Element::Indestructible
            && level.get(x, h - 1).element == Element::Indestructible
    }) && (0..h).all(|y| {
        level.get(0, y).element == Element::Indestructible
            && level.get(w - 1, y).element == Element::Indestructible
    })
}

#[test]
fn simulation_defaults_to_running() {
    let simulation = Simulation::default();
    assert!(simulation.running);
    assert!(!simulation.step);
    assert_eq!(simulation.frame_time_ms, 0);
}

#[test]
fn paused_simulation_leaves_the_grid_alone() {
    let mut level = SandBox::with_seed(8, 8, 1);
    level.set_element(3, 1, Element::Sand, false);
    let mut simulation = Simulation { running: false, step: false, frame_time_ms: 0 };
    level_updater(&mut level, &mut simulation);
    assert_eq!(level.get(3, 1).element, Element::Sand);
    assert!(!level.is_visited_state());
}

#[test]
fn single_step_runs_once_and_is_consumed() {
    let mut level = SandBox::with_seed(8, 8, 1);
    level.set_element(3, 1, Element::Sand, false);
    let mut simulation = Simulation { running: false, step: true, frame_time_ms: 0 };
    level_updater(&mut level, &mut simulation);
    assert!(!simulation.step);
    assert_eq!(level.get(3, 2).element, Element::Sand);
    level_updater(&mut level, &mut simulation);
    assert_eq!(level.get(3, 2).element, Element::Sand);
}

#[test]
fn sand_falls_one_row_per_tick_to_the_floor() {
    let mut level = SandBox::with_seed(9, 12, 5);
    level.set_element(4, 1, Element::Sand, false);
    for tick in 1..=9 {
        run(&mut level, 1);
        assert_eq!(find(&level, Element::Sand), vec![(4, 1 + tick)]);
    }
    run(&mut level, 5);
    assert_eq!(find(&level, Element::Sand), vec![(4, 10)]);
}

#[test]
fn sand_stops_on_rock() {
    let mut level = SandBox::with_seed(9, 12, 5);
    for x in 1..8 {
        level.set_element(x, 6, Element::Rock, false);
    }
    level.set_element(4, 1, Element::Sand, false);
    run(&mut level, 20);
    assert_eq!(find(&level, Element::Sand), vec![(4, 5)]);
}

#[test]
fn sand_rule_swaps_with_air_below() {
    let mut level = SandBox::with_seed(5, 5, 5);
    level.set_element(2, 1, Element::Sand, false);
    assert!(update_sand(2, 1, &mut level));
    assert_eq!(level.get(2, 1).element, Element::Air);
    assert_eq!(level.get(2, 2).element, Element::Sand);
}

#[test]
fn sand_sinks_into_acid_and_weakens_it() {
    let mut level = SandBox::with_seed(5, 5, 5);
    level.set_element(2, 1, Element::Sand, false);
    level.set_element(2, 2, Element::Acid, false);
    assert!(update_sand(2, 1, &mut level));
    assert_eq!(level.get(2, 2).element, Element::Sand);
    assert_eq!(level.get(2, 1).element, Element::Acid);
    assert_eq!(level.get(2, 1).strength, Element::Acid.strength() - 1);
}

#[test]
fn sand_clears_exhausted_acid() {
    let mut level = SandBox::with_seed(5, 5, 5);
    level.set_element(2, 1, Element::Sand, false);
    level.set_element(2, 2, Element::Acid, false);
    level.get_mut(2, 2).strength = 1;
    assert!(!update_sand(2, 1, &mut level));
    assert_eq!(level.get(2, 2).element, Element::Air);
    assert_eq!(level.get(2, 1).element, Element::Sand);
}

#[test]
fn lonely_life_dies() {
    let mut level = SandBox::with_seed(7, 7, 1);
    level.set_element(3, 3, Element::Life, false);
    assert!(update_life(3, 3, &mut level));
    assert_eq!(level.get(3, 3).element, Element::Air);
    level.set_element(3, 3, Element::Life, false);
    level.set_element(2, 2, Element::Life, false);
    assert!(update_life(3, 3, &mut level));
    assert_eq!(level.get(3, 3).element, Element::Air);
}

#[test]
fn life_with_two_or_three_neighbours_survives() {
    let mut level = SandBox::with_seed(7, 7, 1);
    level.set_element(3, 3, Element::Life, false);
    level.set_element(2, 2, Element::Life, false);
    level.set_element(4, 4, Element::Life, false);
    assert!(!update_life(3, 3, &mut level));
    assert_eq!(level.get(3, 3).element, Element::Life);
    level.set_element(2, 4, Element::Life, false);
    assert!(!update_life(3, 3, &mut level));
    assert_eq!(level.get(3, 3).element, Element::Life);
}

#[test]
fn crowded_life_dies() {
    let mut level = SandBox::with_seed(7, 7, 1);
    level.set_element(3, 3, Element::Life, false);
    for (x, y) in [(2, 2), (3, 2), (4, 2), (2, 3)] {
        level.set_element(x, y, Element::Life, false);
    }
    assert!(update_life(3, 3, &mut level));
    assert_eq!(level.get(3, 3).element, Element::Air);
}

#[test]
fn air_with_three_neighbours_is_born() {
    let mut level = SandBox::with_seed(7, 7, 1);
    for (x, y) in [(2, 2), (3, 2), (4, 4)] {
        level.set_element(x, y, Element::Life, false);
    }
    assert!(update_air(3, 3, &mut level));
    assert_eq!(level.get(3, 3).element, Element::Life);
}

#[test]
fn air_with_other_counts_stays_air() {
    for n in [0usize, 1, 2, 4, 5, 8] {
        let mut level = SandBox::with_seed(7, 7, 1);
        let ring = [(2, 2), (3, 2), (4, 2), (2, 3), (4, 3), (2, 4), (3, 4), (4, 4)];
        for &(x, y) in ring.iter().take(n) {
            level.set_element(x, y, Element::Life, false);
        }
        assert!(!update_air(3, 3, &mut level));
        assert_eq!(level.get(3, 3).element, Element::Air);
    }
}

#[test]
fn source_fills_air_below_then_rests() {
    for (source, element) in [
        (Element::WaterSource, Element::Water),
        (Element::AcidSource, Element::Acid),
        (Element::OilSource, Element::Oil),
        (Element::LavaSource, Element::Lava),
        (Element::FireSource, Element::Fire),
    ] {
        let mut level = SandBox::with_seed(7, 7, 1);
        level.set_element(3, 2, source, true);
        assert!(update_source(3, 2, element, &mut level));
        assert_eq!(level.get(3, 3).element, element);
        let before = *level.get(3, 3);
        assert!(!update_source(3, 2, element, &mut level));
        assert_eq!(*level.get(3, 3), before);
    }
}

#[test]
fn source_emits_within_one_tick() {
    let mut level = SandBox::with_seed(7, 7, 1);
    level.set_element(3, 1, Element::WaterSource, true);
    level.toggle_visited_state();
    update_cell(3, 1, &mut level);
    assert_eq!(level.get(3, 2).element, Element::Water);
}

#[test]
fn source_above_the_floor_leaves_it() {
    let mut level = SandBox::with_seed(7, 7, 1);
    level.set_element(3, 5, Element::WaterSource, true);
    assert!(update_source(3, 5, Element::Water, &mut level));
    assert_eq!(level.get(3, 6).element, Element::Indestructible);
}

#[test]
fn drain_removes_liquid_above_first() {
    let mut level = SandBox::with_seed(7, 7, 1);
    level.set_element(3, 3, Element::Drain, false);
    level.set_element(3, 2, Element::Oil, false);
    level.set_element(2, 3, Element::Water, false);
    assert!(update_drain(3, 3, &mut level));
    assert_eq!(level.get(3, 2).element, Element::Air);
    assert_eq!(level.get(2, 3).element, Element::Water);
    assert!(update_drain(3, 3, &mut level));
    assert_eq!(level.get(2, 3).element, Element::Air);
    level.set_element(4, 3, Element::Sand, false);
    assert!(!update_drain(3, 3, &mut level));
    assert_eq!(level.get(4, 3).element, Element::Sand);
    assert_eq!(Element::Lava.form(), ElementForm::Liquid);
}

#[test]
fn iron_without_water_stays() {
    let mut level = SandBox::with_seed(7, 7, 1);
    level.set_element(3, 3, Element::Iron, false);
    for _ in 0..50 {
        assert!(!update_iron(3, 3, &mut level));
    }
    assert_eq!(level.get(3, 3).strength, Element::Iron.strength());
}

#[test]
fn iron_next_to_water_rusts() {
    let mut level = SandBox::with_seed(7, 7, 1);
    level.set_element(3, 3, Element::Iron, false);
    level.set_element(3, 4, Element::Water, false);
    let mut rusted = false;
    for _ in 0..1000 {
        if update_iron(3, 3, &mut level) {
            rusted = true;
            break;
        }
    }
    assert!(rusted);
    assert_eq!(level.get(3, 3).element, Element::Rust);
}

#[test]
fn water_rule_falls_into_air() {
    let mut level = SandBox::with_seed(7, 7, 1);
    level.set_element(3, 2, Element::Water, false);
    assert!(update_water(3, 2, &mut level));
    assert_eq!(level.get(3, 2).element, Element::Air);
    assert_eq!(count(&level, Element::Water), 1);
    assert!(find(&level, Element::Water)[0].1 == 3);
}

#[test]
fn water_puts_out_fire() {
    let mut level = SandBox::with_seed(7, 7, 1);
    level.set_element(3, 2, Element::Water, false);
    for x in 2..5 {
        level.set_element(x, 3, Element::Fire, false);
    }
    assert!(update_water(3, 2, &mut level));
    assert_eq!(level.get(3, 2).element, Element::Air);
    assert_eq!(count(&level, Element::Water), 1);
    assert_eq!(count(&level, Element::Fire), 2);
}

#[test]
fn same_seed_gives_the_same_grid() {
    let build = || {
        let mut level = SandBox::with_seed(40, 30, 42);
        for x in 5..35 {
            level.set_element(x, 3, Element::Sand, false);
            level.set_element(x, 6, Element::Water, false);
        }
        for x in 10..30 {
            level.set_element(x, 20, Element::Wood, false);
            level.set_element(x, 10, Element::Lava, false);
        }
        level.set_element(20, 1, Element::AcidSource, true);
        level.set_element(25, 15, Element::Fire, false);
        level.set_element(8, 12, Element::Oil, false);
        level.set_element(30, 25, Element::Plant, false);
        level
    };
    let mut a = build();
    let mut b = build();
    run(&mut a, 150);
    run(&mut b, 150);
    for y in 0..30 {
        for x in 0..40 {
            assert_eq!(a.get(x, y), b.get(x, y));
        }
    }
    assert!(border_intact(&a));
}

#[test]
fn falling_water_keeps_its_mass_and_settles_on_the_floor() {
    let mut level = SandBox::with_seed(64, 64, 7);
    level.set_element(32, 1, Element::Water, false);
    run(&mut level, 400);
    assert!(border_intact(&level));
    assert_eq!(count(&level, Element::Water), 1);
    let water = find(&level, Element::Water);
    assert_eq!(water[0].1, 62);
    assert_eq!(count(&level, Element::Air), 62 * 62 - 1);
}

#[test]
fn poured_water_keeps_its_mass() {
    let mut level = SandBox::with_seed(64, 64, 9);
    for x in 24..40 {
        for y in 1..5 {
            level.set_element(x, y, Element::Water, false);
        }
    }
    run(&mut level, 600);
    assert!(border_intact(&level));
    assert_eq!(count(&level, Element::Water), 64);
    assert!(find(&level, Element::Water).iter().all(|&(_, y)| y >= 60));
}

#[test]
fn fire_burns_out_into_smoke_and_air() {
    let mut level = SandBox::with_seed(20, 20, 3);
    level.set_element(10, 18, Element::Fire, false);
    run(&mut level, 2000);
    assert_eq!(count(&level, Element::Fire), 0);
    assert!(border_intact(&level));
}

#[test]
fn acid_falls_into_air() {
    let mut level = SandBox::with_seed(7, 7, 1);
    level.set_element(3, 2, Element::Acid, false);
    assert!(update_acid(3, 2, &mut level));
    assert_eq!(level.get(3, 2).element, Element::Air);
    assert_eq!(find(&level, Element::Acid).len(), 1);
    assert_eq!(find(&level, Element::Acid)[0].1, 3);
}

#[test]
fn acid_on_water_thins() {
    let mut level = SandBox::with_seed(7, 7, 1);
    level.set_element(3, 2, Element::Acid, false);
    for x in 2..5 {
        level.set_element(x, 3, Element::Water, false);
    }
    assert!(!update_acid(3, 2, &mut level));
    assert_eq!(level.get(3, 2).element, Element::Acid);
    assert_eq!(level.get(3, 2).strength, Element::Acid.strength() - 1);
}

#[test]
fn acid_eats_wood_below() {
    let mut level = SandBox::with_seed(7, 7, 1);
    level.set_element(3, 2, Element::Acid, false);
    for x in 2..5 {
        level.set_element(x, 3, Element::Wood, false);
    }
    assert!(!update_acid(3, 2, &mut level));
    let worn: Vec<u8> = (2..5).map(|x| level.get(x, 3).strength).collect();
    assert_eq!(worn.iter().filter(|s| **s == Element::Wood.strength() - 1).count(), 1);
    assert_eq!(level.get(3, 2).element, Element::Acid);
}

#[test]
fn spent_acid_clears_itself() {
    let mut level = SandBox::with_seed(7, 7, 1);
    level.set_element(3, 2, Element::Acid, false);
    for x in 2..5 {
        level.set_element(x, 3, Element::Sand, false);
        level.get_mut(x, 3).strength = 1;
    }
    assert!(update_acid(3, 2, &mut level));
    assert_eq!(level.get(3, 2).element, Element::Air);
    assert_eq!(count(&level, Element::Sand), 2);
}

#[test]
fn oil_falls_into_air() {
    let mut level = SandBox::with_seed(7, 7, 1);
    level.set_element(3, 2, Element::Oil, false);
    assert!(update_oil(3, 2, &mut level));
    assert_eq!(find(&level, Element::Oil)[0].1, 3);
}

#[test]
fn oil_floats_on_water() {
    let mut level = SandBox::with_seed(7, 7, 1);
    for x in 1..6 {
        level.set_element(x, 5, Element::Water, false);
        level.set_element(x, 4, Element::Water, false);
    }
    level.set_element(3, 3, Element::Oil, false);
    run(&mut level, 50);
    let oil = find(&level, Element::Oil);
    assert_eq!(oil.len(), 1);
    assert!(oil[0].1 <= 3);
    assert_eq!(count(&level, Element::Water), 10);
}

#[test]
fn lava_ignites_wood_below() {
    let mut level = SandBox::with_seed(7, 7, 1);
    level.set_element(3, 1, Element::Rock, false);
    level.set_element(3, 2, Element::Lava, false);
    level.set_element(3, 3, Element::Wood, false);
    assert!(!update_lava(3, 2, &mut level));
    assert_eq!(level.get(3, 2).element, Element::Lava);
    assert_eq!(level.get(3, 3).strength, Element::Wood.strength() - 1);
}

#[test]
fn lava_sinks_into_water() {
    let mut level = SandBox::with_seed(7, 7, 1);
    level.set_element(3, 1, Element::Rock, false);
    level.set_element(3, 2, Element::Lava, false);
    level.set_element(3, 3, Element::Water, false);
    assert!(update_lava(3, 2, &mut level));
    assert_eq!(level.get(3, 3).element, Element::Lava);
    assert_eq!(level.get(3, 2).element, Element::Water);
}

#[test]
fn water_cools_lava() {
    let mut level = SandBox::with_seed(7, 7, 1);
    level.set_element(3, 2, Element::Water, false);
    for x in 2..5 {
        level.set_element(x, 3, Element::Lava, false);
    }
    level.set_element(2, 2, Element::Rock, false);
    level.set_element(4, 2, Element::Rock, false);
    assert!(!update_water(3, 2, &mut level));
    assert_eq!(level.get(3, 2).element, Element::Water);
    let cooled = (2..5)
        .filter(|x| level.get(*x, 3).strength == Element::Lava.strength() - 1)
        .count();
    assert_eq!(cooled, 1);
}

#[test]
fn water_thins_acid_below() {
    let mut level = SandBox::with_seed(7, 7, 1);
    level.set_element(3, 2, Element::Water, false);
    for x in 2..5 {
        level.set_element(x, 3, Element::Acid, false);
    }
    assert!(!update_water(3, 2, &mut level));
    let thinned = find(&level, Element::Acid)
        .iter()
        .filter(|&&(x, y)| level.get(x, y).strength == Element::Acid.strength() - 1)
        .count();
    assert_eq!(thinned, 1);
    assert_eq!(count(&level, Element::Acid), 3);
    assert_eq!(count(&level, Element::Water), 1);
}

#[test]
fn water_spreads_sideways_on_a_floor() {
    let mut level = SandBox::with_seed(9, 4, 1);
    level.set_element(4, 2, Element::Water, false);
    let mut moved = false;
    for _ in 0..20 {
        let (x, _) = find(&level, Element::Water)[0];
        if update_water(x, 2, &mut level) {
            moved = true;
        }
        level.toggle_visited_state();
    }
    assert!(moved);
    assert_eq!(count(&level, Element::Water), 1);
    assert_eq!(find(&level, Element::Water)[0].1, 2);
}

#[test]
fn fire_ignites_or_moves_or_burns_down() {
    let mut level = SandBox::with_seed(7, 7, 1);
    for y in 1..6 {
        for x in 1..6 {
            level.set_element(x, y, Element::Wood, false);
        }
    }
    level.set_element(3, 3, Element::Fire, false);
    update_fire(3, 3, &mut level);
    let element = level.get(3, 3).element;
    assert!(element == Element::Fire || element == Element::Smoke);
    let worn = (1..6)
        .flat_map(|y| (1..6).map(move |x| (x, y)))
        .filter(|&(x, y)| level.get(x, y).element == Element::Wood)
        .filter(|&(x, y)| level.get(x, y).strength < Element::Wood.strength())
        .count();
    assert!(worn <= 1);
}

#[test]
fn enclosed_fire_turns_into_smoke() {
    let mut level = SandBox::with_seed(3, 3, 1);
    level.set_element(1, 1, Element::Fire, false);
    let mut turned = false;
    for _ in 0..1000 {
        if update_fire(1, 1, &mut level) {
            turned = true;
            break;
        }
    }
    assert!(turned);
    assert_eq!(level.get(1, 1).element, Element::Smoke);
}

#[test]
fn enclosed_smoke_thins_into_air() {
    let mut level = SandBox::with_seed(3, 3, 1);
    level.set_element(1, 1, Element::Smoke, false);
    let mut gone = false;
    for _ in 0..1000 {
        if update_smoke(1, 1, &mut level) {
            gone = true;
            break;
        }
    }
    assert!(gone);
    assert_eq!(level.get(1, 1).element, Element::Air);
}

#[test]
fn smoke_vanishes_on_water() {
    let mut level = SandBox::with_seed(5, 5, 1);
    level.set_element(2, 2, Element::Smoke, false);
    for (x, y) in [(1, 2), (3, 2), (2, 1)] {
        level.set_element(x, y, Element::Water, false);
    }
    let mut steps = 0;
    while level.get(2, 2).element == Element::Smoke && steps < 100 {
        update_smoke(2, 2, &mut level);
        steps += 1;
    }
    assert_eq!(level.get(2, 2).element, Element::Air);
    assert_eq!(count(&level, Element::Water), 3);
}

#[test]
fn plant_without_water_stays_alone() {
    let mut level = SandBox::with_seed(5, 5, 1);
    level.set_element(2, 2, Element::Plant, false);
    for _ in 0..100 {
        assert!(!update_plant(2, 2, &mut level));
    }
    assert_eq!(count(&level, Element::Plant), 1);
}

#[test]
fn plant_grows_into_water() {
    let mut level = SandBox::with_seed(5, 5, 1);
    level.set_element(2, 2, Element::Plant, false);
    level.set_element(2, 3, Element::Water, false);
    level.set_element(1, 2, Element::Sand, false);
    let mut grew = false;
    for _ in 0..200 {
        if update_plant(2, 2, &mut level) {
            grew = true;
            break;
        }
    }
    assert!(grew);
    assert_eq!(level.get(2, 3).element, Element::Plant);
    assert_eq!(level.get(1, 2).element, Element::Sand);
}

#[test]
fn ash_falls_like_sand() {
    let mut level = SandBox::with_seed(5, 5, 1);
    level.set_element(2, 1, Element::Ash, false);
    assert!(update_ash(2, 1, &mut level));
    assert_eq!(level.get(2, 2).element, Element::Ash);
}

#[test]
fn handled_cell_is_skipped() {
    let mut level = SandBox::with_seed(5, 5, 1);
    level.set_element(2, 1, Element::Sand, false);
    update_cell(2, 1, &mut level);
    assert_eq!(level.get(2, 1).element, Element::Sand);
    level.toggle_visited_state();
    update_cell(2, 1, &mut level);
    assert_eq!(level.get(2, 2).element, Element::Sand);
}

#[test]
fn static_cells_are_only_stamped() {
    let mut level = SandBox::with_seed(5, 5, 1);
    level.set_element(2, 1, Element::Wood, false);
    level.toggle_visited_state();
    let before = *level.get(2, 1);
    update_cell(2, 1, &mut level);
    let after = *level.get(2, 1);
    assert_eq!(after.element, before.element);
    assert_eq!(after.strength, before.strength);
    assert!(after.visited);
}

#[test]
fn in_place_sweep_breaks_the_blinker() {
    let mut level = SandBox::with_seed(12, 12, 1);
    for y in 4..7 {
        level.set_element(5, y, Element::Life, false);
    }
    run(&mut level, 1);
    let horizontal = [(4, 5), (5, 5), (6, 5)];
    let alive = find(&level, Element::Life);
    assert_ne!(alive, horizontal.to_vec());
}

#[test]
fn water_reaches_air_sixteen_cells_along_a_run() {
    let mut level = SandBox::with_seed(20, 4, 3);
    for x in 1..=16 {
        level.set_element(x, 2, Element::Water, false);
    }
    let mut moved = false;
    for _ in 0..200 {
        if update_water(1, 2, &mut level) {
            moved = true;
            break;
        }
    }
    assert!(moved);
    assert_eq!(level.get(1, 2).element, Element::Air);
    assert_eq!(level.get(17, 2).element, Element::Water);
}

#[test]
fn oil_reaches_air_eight_cells_along_a_run() {
    let mut level = SandBox::with_seed(12, 4, 3);
    for x in 1..=8 {
        level.set_element(x, 2, Element::Oil, false);
    }
    let mut moved = false;
    for _ in 0..200 {
        if update_oil(1, 2, &mut level) {
            moved = true;
            break;
        }
    }
    assert!(moved);
    assert_eq!(level.get(1, 2).element, Element::Air);
    assert_eq!(level.get(9, 2).element, Element::Oil);
}

#[test]
fn ticks_on_grids_without_interior_change_nothing_but_parity() {
    let mut level = SandBox::with_seed(2, 2, 1);
    run(&mut level, 3);
    assert!(level.is_visited_state());
    assert!(border_intact(&level));
    let mut level = SandBox::with_seed(2, 9, 1);
    run(&mut level, 2);
    assert!(!level.is_visited_state());
    assert!(border_intact(&level));
}

#[test]
fn single_interior_cell_holds_its_sand() {
    let mut level = SandBox::with_seed(3, 3, 1);
    level.set_element(1, 1, Element::Sand, false);
    run(&mut level, 5);
    assert_eq!(find(&level, Element::Sand), vec![(1, 1)]);
    assert!(border_intact(&level));
}

#[test]
fn iron_with_high_draw_rusts_when_spent() {
    let mut level = SandBox::with_seed(7, 7, 1);
    level.set_element(3, 3, Element::Iron, false);
    level.set_element(3, 4, Element::Water, false);
    level.get_mut(3, 3).strength = 2;
    assert!(!update_iron_with(3, 3, 3, &mut level));
    assert_eq!(level.get(3, 3).strength, 1);
    assert!(!update_iron_with(3, 3, 2, &mut level));
    assert_eq!(level.get(3, 3).element, Element::Iron);
    assert!(update_iron_with(3, 3, 4, &mut level));
    assert_eq!(level.get(3, 3).element, Element::Rust);
}

#[test]
fn iron_with_no_water_ignores_the_draw() {
    let mut level = SandBox::with_seed(7, 7, 1);
    level.set_element(3, 3, Element::Iron, false);
    level.get_mut(3, 3).strength = 1;
    assert!(!update_iron_with(3, 3, 4, &mut level));
    assert_eq!(level.get(3, 3).element, Element::Iron);
}

#[test]
fn plant_with_draws_grows_where_allowed() {
    let mut level = SandBox::with_seed(7, 7, 1);
    level.set_element(3, 3, Element::Plant, false);
    for (x, y) in [(2, 3), (4, 3), (3, 2), (3, 4)] {
        level.set_element(x, y, Element::Water, false);
    }
    assert!(update_plant_with(3, 3, 0, 5, 1, 9, &mut level));
    assert_eq!(level.get(2, 3).element, Element::Plant);
    assert_eq!(level.get(4, 3).element, Element::Water);
    assert_eq!(level.get(3, 2).element, Element::Plant);
    assert_eq!(level.get(3, 4).element, Element::Water);
    assert!(!update_plant_with(3, 3, 5, 5, 5, 5, &mut level));
}

#[test]
fn plant_with_low_draws_skips_dry_cells() {
    let mut level = SandBox::with_seed(7, 7, 1);
    level.set_element(3, 3, Element::Plant, false);
    level.set_element(2, 3, Element::Sand, false);
    assert!(!update_plant_with(3, 3, 0, 0, 0, 0, &mut level));
    assert_eq!(count(&level, Element::Plant), 1);
}

#[test]
fn fire_with_draw_moves_up_into_air() {
    let mut level = SandBox::with_seed(7, 7, 1);
    level.set_element(3, 3, Element::Fire, false);
    assert!(update_fire_with(3, 3, 3, &mut level));
    assert_eq!(level.get(3, 2).element, Element::Fire);
    assert_eq!(level.get(3, 3).element, Element::Air);
}

#[test]
fn spent_fire_with_top_draw_turns_into_smoke() {
    let mut level = SandBox::with_seed(7, 7, 1);
    level.set_element(3, 3, Element::Fire, false);
    level.get_mut(3, 3).strength = 1;
    assert!(update_fire_with(3, 3, 4, &mut level));
    assert_eq!(level.get(3, 3).element, Element::Smoke);
}

#[test]
fn smoke_with_draw_moves_left() {
    let mut level = SandBox::with_seed(7, 7, 1);
    level.set_element(3, 3, Element::Smoke, false);
    assert!(update_smoke_with(3, 3, 1, &mut level));
    assert_eq!(level.get(2, 3).element, Element::Smoke);
}

#[test]
fn water_with_draw_picks_the_diagonal() {
    let mut level = SandBox::with_seed(7, 7, 1);
    level.set_element(3, 2, Element::Water, false);
    assert!(update_water_with(3, 2, 58, &mut level));
    assert_eq!(level.get(2, 3).element, Element::Water);
    let mut level = SandBox::with_seed(7, 7, 1);
    level.set_element(3, 2, Element::Water, false);
    assert!(update_water_with(3, 2, 59, &mut level));
    assert_eq!(level.get(4, 3).element, Element::Water);
}

#[test]
fn acid_with_draw_picks_the_diagonal() {
    let mut level = SandBox::with_seed(7, 7, 1);
    level.set_element(3, 2, Element::Acid, false);
    assert!(update_acid_with(3, 2, 52, &mut level));
    assert_eq!(level.get(2, 3).element, Element::Acid);
}

#[test]
fn oil_with_draw_picks_the_diagonal() {
    let mut level = SandBox::with_seed(7, 7, 1);
    level.set_element(3, 2, Element::Oil, false);
    assert!(update_oil_with(3, 2, 10, &mut level));
    assert_eq!(level.get(4, 3).element, Element::Oil);
}

#[test]
fn sand_with_side_column_slides_there() {
    let mut level = SandBox::with_seed(7, 7, 1);
    level.set_element(3, 2, Element::Sand, false);
    level.set_element(3, 3, Element::Rock, false);
    assert!(update_sand_with(3, 2, 4, &mut level));
    assert_eq!(level.get(4, 3).element, Element::Sand);
}

#[test]
fn lava_with_side_column_slides_sideways() {
    let mut level = SandBox::with_seed(7, 7, 1);
    level.set_element(3, 1, Element::Rock, false);
    level.set_element(3, 2, Element::Lava, false);
    for x in 2..5 {
        level.set_element(x, 3, Element::Rock, false);
    }
    assert!(update_lava_with(3, 2, 300, 2, &mut level));
    assert_eq!(level.get(2, 2).element, Element::Lava);
    assert_eq!(level.get(3, 2).element, Element::Air);
}

#[test]
fn single_water_cell_rests_on_the_floor_after_many_ticks() {
    let mut level = SandBox::with_seed(64, 64, 11);
    level.set_element(32, 1, Element::Water, false);
    run(&mut level, 1000);
    let water = find(&level, Element::Water);
    assert_eq!(water.len(), 1);
    assert_eq!(water[0].1, 62);
    assert!(water[0].0 >= 1 && water[0].0 <= 62);
    assert_eq!(count(&level, Element::Air), 62 * 62 - 1);
    assert!(border_intact(&level));
}
