use falling_sand::cell::Cell;
use falling_sand::element::Element;
use falling_sand::sandbox::SandBox;

fn is_border(level: &SandBox, x: usize, y: usize) -> bool {
    x == 0 || y == 0 || x == level.width() - 1 || y == level.height() - 1
}

#[test]
fn new_grid_has_indestructible_border_and_air_inside() {
    for (w, h) in [(2, 2), (3, 5), (7, 4), (16, 16)] {
        let level = SandBox::with_seed(w, h, 1);
        assert_eq!(level.width(), w);
        assert_eq!(level.height(), h);
        assert!(!level.is_visited_state());
        for y in 0..h {
            for x in 0..w {
                let cell = *level.get(x, y);
                let expected = if is_border(&level, x, y) {
                    Element::Indestructible
                } else {
                    Element::Air
                };
                assert_eq!(cell.element, expected);
                assert_eq!(cell.strength, 0);
                assert!(!cell.visited);
                assert!(!cell.source);
            }
        }
    }
}

#[test]
fn entropy_seeded_grid_has_the_same_layout() {
    let level = SandBox::new(5, 4);
    assert_eq!(level.get(0, 0).element, Element::Indestructible);
    assert_eq!(level.get(4, 3).element, Element::Indestructible);
    assert_eq!(level.get(2, 2).element, Element::Air);
}

#[test]
fn default_grid_is_512_square() {
    let level = SandBox::default();
    assert_eq!(level.width(), 512);
    assert_eq!(level.height(), 512);
    assert_eq!(level.get(511, 300).element, Element::Indestructible);
    assert_eq!(level.get(300, 300).element, Element::Air);
}

#[test]
fn set_element_on_border_changes_nothing() {
    let mut level = SandBox::with_seed(6, 6, 2);
    let before = *level.get(0, 3);
    level.set_element(0, 3, Element::Sand, true);
    assert_eq!(*level.get(0, 3), before);
    level.set_element(5, 5, Element::Water, false);
    assert_eq!(level.get(5, 5).element, Element::Indestructible);
}

#[test]
fn set_element_places_a_fresh_cell() {
    let mut level = SandBox::with_seed(6, 6, 3);
    level.toggle_visited_state();
    level.set_element(2, 3, Element::Lava, true);
    let cell = *level.get(2, 3);
    assert_eq!(cell.element, Element::Lava);
    assert_eq!(cell.strength, 128);
    assert!(cell.visited);
    assert!(cell.source);
}

#[test]
fn set_element_keeps_variant_of_uncoloured_elements() {
    let mut level = SandBox::with_seed(6, 6, 4);
    level.get_mut(2, 2).variant = 77;
    level.set_element(2, 2, Element::Life, false);
    assert_eq!(level.get(2, 2).variant, 77);
}

#[test]
fn set_element_draws_variants_for_coloured_elements() {
    let mut level = SandBox::with_seed(40, 3, 5);
    for x in 1..39 {
        level.set_element(x, 1, Element::Sand, false);
    }
    let first = level.get(1, 1).variant;
    assert!((2..39).any(|x| level.get(x, 1).variant != first));
}

#[test]
fn swap_with_border_changes_nothing() {
    let mut level = SandBox::with_seed(5, 5, 6);
    level.set_element(1, 1, Element::Sand, false);
    let sand = *level.get(1, 1);
    let wall = *level.get(0, 1);
    level.swap(1, 1, 0, 1);
    assert_eq!(*level.get(1, 1), sand);
    assert_eq!(*level.get(0, 1), wall);
    level.swap(0, 1, 1, 1);
    assert_eq!(*level.get(1, 1), sand);
    assert_eq!(*level.get(0, 1), wall);
}

#[test]
fn swap_exchanges_and_stamps_both_cells() {
    let mut level = SandBox::with_seed(5, 5, 7);
    level.set_element(1, 1, Element::Sand, false);
    level.set_element(2, 2, Element::Water, false);
    level.toggle_visited_state();
    level.swap(1, 1, 2, 2);
    assert_eq!(level.get(1, 1).element, Element::Water);
    assert_eq!(level.get(2, 2).element, Element::Sand);
    assert!(level.get(1, 1).visited);
    assert!(level.get(2, 2).visited);
}

#[test]
fn reduce_strength_counts_down_to_one() {
    let mut level = SandBox::with_seed(5, 5, 8);
    level.set_element(2, 2, Element::Sand, false);
    assert_eq!(level.get(2, 2).strength, 4);
    assert!(level.reduce_strength(2, 2));
    assert_eq!(level.get(2, 2).strength, 3);
    assert!(level.reduce_strength(2, 2));
    assert!(level.reduce_strength(2, 2));
    assert_eq!(level.get(2, 2).strength, 1);
    let before = *level.get(2, 2);
    assert!(!level.reduce_strength(2, 2));
    assert_eq!(*level.get(2, 2), before);
}

#[test]
fn reduce_strength_on_zero_strength_changes_nothing() {
    let mut level = SandBox::with_seed(5, 5, 9);
    let before = *level.get(2, 2);
    assert!(!level.reduce_strength(2, 2));
    assert_eq!(*level.get(2, 2), before);
}

#[test]
fn clear_cell_puts_air() {
    let mut level = SandBox::with_seed(5, 5, 10);
    level.set_element(3, 3, Element::Wood, false);
    level.clear_cell(3, 3);
    assert_eq!(level.get(3, 3).element, Element::Air);
    assert_eq!(level.get(3, 3).strength, 0);
}

#[test]
fn clear_resets_interior_and_keeps_border() {
    let mut level = SandBox::with_seed(6, 5, 11);
    level.set_element(1, 1, Element::Rock, false);
    level.set_element(4, 3, Element::Indestructible, false);
    level.clear();
    for y in 0..5 {
        for x in 0..6 {
            let expected = if is_border(&level, x, y) {
                Element::Indestructible
            } else {
                Element::Air
            };
            assert_eq!(level.get(x, y).element, expected);
        }
    }
}

#[test]
fn set_visited_stamps_current_parity() {
    let mut level = SandBox::with_seed(5, 5, 12);
    assert!(level.toggle_visited_state());
    level.set_visited(2, 2);
    assert!(level.get(2, 2).visited);
    assert_eq!(level.get(2, 2).element, Element::Air);
    assert!(!level.toggle_visited_state());
    assert!(!level.is_visited_state());
}

#[test]
fn random_stays_below_its_bound() {
    let mut level = SandBox::with_seed(5, 5, 13);
    let mut seen = [false; 7];
    for _ in 0..2000 {
        let r = level.random(7);
        assert!(r < 7);
        seen[r] = true;
    }
    assert!(seen.iter().all(|s| *s));
    for _ in 0..100 {
        assert_eq!(level.random(1), 0);
    }
}

#[test]
fn random_neighbour_is_one_column_away() {
    let mut level = SandBox::with_seed(5, 5, 14);
    let mut left = false;
    let mut right = false;
    for _ in 0..200 {
        let n = level.random_neighbour_x(3);
        assert!(n == 2 || n == 4);
        left |= n == 2;
        right |= n == 4;
    }
    assert!(left && right);
}

#[test]
fn dissolve_wears_down_then_turns() {
    let mut cell = Cell {
        element: Element::Acid,
        variant: 3,
        strength: 2,
        visited: true,
        source: false,
    };
    assert!(!cell.dissolve_to(Element::Water));
    assert_eq!(cell.strength, 1);
    assert_eq!(cell.element, Element::Acid);
    assert!(cell.dissolve_to(Element::Water));
    assert_eq!(cell.element, Element::Water);
    assert_eq!(cell.strength, Element::Water.strength());
    assert_eq!(cell.variant, 3);
    assert!(cell.visited);
}
