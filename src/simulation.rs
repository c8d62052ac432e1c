use vstd::prelude::*;

use crate::cell::{dissolved, Cell};
use crate::element::{Element, ElementForm};
use crate::sandbox::{
    lemma_with_cell_at, lemma_with_cell_twice, lemma_write_keeps_border, lemma_write_keeps_wf,
    placed, placed_with, SandBox, SandBoxView,
};
use crate::sweep::{
    lemma_no_life, lemma_sand_sweep_ready, lemma_sand_sweep_step, lemma_stamp_keeps_water,
    lemma_water_outcome_in_water_world, lone_sand, lone_sand_at, sand_row_after_tick, sand_sweep,
    water_count, water_world,
};

verus! {

/// Whether the simulation runs continuously, whether one step was asked for, and how
/// long the last sweep took.
#[derive(Clone, Copy, Debug)]
pub struct Simulation {
    pub running: bool,
    pub step: bool,
    pub frame_time_ms: u128,
}

impl Default for Simulation {
    fn default() -> (r: Simulation)
        ensures
            r.running,
            !r.step,
            r.frame_time_ms == 0,
    {
        Simulation { running: true, step: false, frame_time_ms: 0 }
    }
}

/// What every rule keeps: a well-formed grid of the same size and parity, whose border
/// cells are untouched.
pub open spec fn keeps_frame(before: SandBoxView, after: SandBoxView) -> bool {
    after.wf() && after.same_frame(before) && before.border_kept(after)
}

/// The rule-level precondition: a well-formed grid and an interior position.
pub open spec fn at_interior(v: SandBoxView, x: int, y: int) -> bool {
    v.wf() && v.is_interior(x, y)
}

/// 1 where `(x, y)` holds Life, else 0.
pub open spec fn life_at(v: SandBoxView, x: int, y: int) -> int {
    if v.at(x, y).element == Element::Life {
        1
    } else {
        0
    }
}

/// How many of the eight cells around `(x, y)` hold Life.
pub open spec fn live_neighbours(v: SandBoxView, x: int, y: int) -> int {
    life_at(v, x - 1, y - 1) + life_at(v, x, y - 1) + life_at(v, x + 1, y - 1) + life_at(
        v,
        x - 1,
        y,
    ) + life_at(v, x + 1, y) + life_at(v, x - 1, y + 1) + life_at(v, x, y + 1) + life_at(
        v,
        x + 1,
        y + 1,
    )
}

/// Cells that falling sand swaps places with.
pub open spec fn sand_sinks_into(e: Element) -> bool {
    e == Element::Air || e == Element::Water || e == Element::Fire || e == Element::Oil
}

/// Wears down the cell at `(x, y)` towards `element`; returns whether it turned.
fn dissolve_at(level: &mut SandBox, x: usize, y: usize, element: Element) -> (r: bool)
    requires
        old(level).wf(),
        old(level)@.in_bounds(x as int, y as int),
        old(level)@.at(x as int, y as int).element != Element::Indestructible,
    ensures
        final(level).wf(),
        old(level)@.border_kept(final(level)@),
        final(level)@ == old(level)@.with_cell(
            x as int,
            y as int,
            dissolved(old(level)@.at(x as int, y as int), element),
        ),
        final(level)@.at(x as int, y as int) == dissolved(old(level)@.at(x as int, y as int), element),
        r == (old(level)@.at(x as int, y as int).strength <= 1),
{
    let ghost before = level@;
    let r = level.get_mut(x, y).dissolve_to(element);
    proof {
        lemma_with_cell_at(
            before,
            x as int,
            y as int,
            dissolved(before.at(x as int, y as int), element),
            x as int,
            y as int,
        );
        lemma_write_keeps_border(
            before,
            x as int,
            y as int,
            dissolved(before.at(x as int, y as int), element),
        );
        lemma_write_keeps_wf(
            before,
            x as int,
            y as int,
            dissolved(before.at(x as int, y as int), element),
        );
    }
    r
}

/// Counts the Life cells among the eight around `(x, y)`.
fn count_living_neighbours(x: usize, y: usize, level: &SandBox) -> (r: u8)
    requires
        at_interior(level@, x as int, y as int),
    ensures
        r == live_neighbours(level@, x as int, y as int),
{
    let mut living_neighbours: u8 = 0;
    if level.get(x - 1, y - 1).element == Element::Life {
        living_neighbours += 1;
    }
    if level.get(x, y - 1).element == Element::Life {
        living_neighbours += 1;
    }
    if level.get(x + 1, y - 1).element == Element::Life {
        living_neighbours += 1;
    }
    if level.get(x - 1, y).element == Element::Life {
        living_neighbours += 1;
    }
    if level.get(x + 1, y).element == Element::Life {
        living_neighbours += 1;
    }
    if level.get(x - 1, y + 1).element == Element::Life {
        living_neighbours += 1;
    }
    if level.get(x, y + 1).element == Element::Life {
        living_neighbours += 1;
    }
    if level.get(x + 1, y + 1).element == Element::Life {
        living_neighbours += 1;
    }
    living_neighbours
}

/// Air with exactly three living neighbours comes to life.
pub fn update_air(x: usize, y: usize, level: &mut SandBox) -> (r: bool)
    requires
        at_interior(old(level)@, x as int, y as int),
        old(level)@.at(x as int, y as int).element == Element::Air,
    ensures
        keeps_frame(old(level)@, final(level)@),
        r == (live_neighbours(old(level)@, x as int, y as int) == 3),
        r ==> final(level)@ == old(level)@.with_cell(
            x as int,
            y as int,
            placed(old(level)@, x as int, y as int, Element::Life, false),
        ),
        !r ==> final(level)@ == old(level)@,
{
    let living_neighbours = count_living_neighbours(x, y, level);
    if living_neighbours == 3 {
        level.set_element(x, y, Element::Life, false);
        return true;
    }
    false
}

/// Life with fewer than two or more than three living neighbours dies.
pub fn update_life(x: usize, y: usize, level: &mut SandBox) -> (r: bool)
    requires
        at_interior(old(level)@, x as int, y as int),
        old(level)@.at(x as int, y as int).element == Element::Life,
    ensures
        keeps_frame(old(level)@, final(level)@),
        r == (live_neighbours(old(level)@, x as int, y as int) < 2 || live_neighbours(
            old(level)@,
            x as int,
            y as int,
        ) > 3),
        r ==> final(level)@ == old(level)@.with_cell(
            x as int,
            y as int,
            placed(old(level)@, x as int, y as int, Element::Air, false),
        ),
        !r ==> final(level)@ == old(level)@,
{
    let living_neighbours = count_living_neighbours(x, y, level);
    if living_neighbours < 2 || living_neighbours > 3 {
        level.set_element(x, y, Element::Air, false);
        return true;
    }
    false
}

/// The source rule at `(x, y)` for element `k` takes `before` to `after` and returns
/// `r`: unless the cell below holds `k` already, `k` is placed there (with some colour
/// variant), which an indestructible cell refuses.
pub open spec fn source_outcome(
    before: SandBoxView,
    x: int,
    y: int,
    k: Element,
    after: SandBoxView,
    r: bool,
) -> bool {
    let below = before.at(x, y + 1).element;
    &&& r == (below != k)
    &&& if r && below != Element::Indestructible {
        after == before.with_cell(x, y + 1, placed_with(before, k, false, after.at(x, y + 1).variant))
    } else {
        after == before
    }
}

/// A source fills the cell below it with its element unless that cell holds it already.
pub fn update_source(x: usize, y: usize, element: Element, level: &mut SandBox) -> (r: bool)
    requires
        at_interior(old(level)@, x as int, y as int),
    ensures
        keeps_frame(old(level)@, final(level)@),
        r == (old(level)@.at(x as int, y as int + 1).element != element),
        r && old(level)@.at(x as int, y as int + 1).element != Element::Indestructible
            ==> final(level)@ == old(level)@.with_cell(
            x as int,
            y as int + 1,
            placed_with(old(level)@, element, false, final(level)@.at(x as int, y as int + 1).variant),
        ),
        r && old(level)@.at(x as int, y as int + 1).element != Element::Indestructible
            ==> final(level)@.at(x as int, y as int + 1).element == element,
        !r || old(level)@.at(x as int, y as int + 1).element == Element::Indestructible
            ==> final(level)@ == old(level)@,
{
    if level.get(x, y + 1).element != element {
        level.set_element(x, y + 1, element, false);
        return true;
    }
    false
}

/// The drain rule at `(x, y)` takes `before` to `after` and returns `r`: the first
/// liquid above, to the left or to the right of it turns into air.
pub open spec fn drain_outcome(
    before: SandBoxView,
    x: int,
    y: int,
    after: SandBoxView,
    r: bool,
) -> bool {
    let liquid = |a: int, b: int| before.at(a, b).element.form() == ElementForm::Liquid;
    if liquid(x, y - 1) {
        r && after == before.with_cell(x, y - 1, placed(before, x, y - 1, Element::Air, false))
    } else if liquid(x - 1, y) {
        r && after == before.with_cell(x - 1, y, placed(before, x - 1, y, Element::Air, false))
    } else if liquid(x + 1, y) {
        r && after == before.with_cell(x + 1, y, placed(before, x + 1, y, Element::Air, false))
    } else {
        !r && after == before
    }
}

/// A drain empties the first liquid it finds above, to the left or to the right of it.
pub fn update_drain(x: usize, y: usize, level: &mut SandBox) -> (r: bool)
    requires
        at_interior(old(level)@, x as int, y as int),
    ensures
        keeps_frame(old(level)@, final(level)@),
        drain_outcome(old(level)@, x as int, y as int, final(level)@, r),
{
    let element_form = level.get(x, y - 1).element.form();
    if element_form == ElementForm::Liquid {
        level.clear_cell(x, y - 1);
        return true;
    }
    let element_form = level.get(x - 1, y).element.form();
    if element_form == ElementForm::Liquid {
        level.clear_cell(x - 1, y);
        return true;
    }
    let element_form = level.get(x + 1, y).element.form();
    if element_form == ElementForm::Liquid {
        level.clear_cell(x + 1, y);
        return true;
    }
    false
}

/// Sand at `(x, y)` eating into the acid at `(ax, ay)` in `before`: the acid wears down;
/// spent acid leaves air behind and the sand stays, otherwise the sand sinks into it.
pub open spec fn sand_into_acid(
    before: SandBoxView,
    x: int,
    y: int,
    ax: int,
    ay: int,
    after: SandBoxView,
    r: bool,
) -> bool {
    let acid = before.at(ax, ay);
    let worn = before.with_cell(ax, ay, dissolved(acid, Element::Air));
    if acid.strength <= 1 {
        !r && after == worn.with_cell(ax, ay, placed(worn, ax, ay, Element::Air, false))
    } else {
        r && after == worn.swapped(x, y, ax, ay)
    }
}

/// The sand rule at `(x, y)` with side column `nx` takes `before` to `after` and
/// returns `r`: straight down first, then diagonally towards `nx`.
pub open spec fn sand_outcome(
    before: SandBoxView,
    x: int,
    y: int,
    nx: int,
    after: SandBoxView,
    r: bool,
) -> bool {
    let below = before.at(x, y + 1).element;
    let side = before.at(nx, y + 1).element;
    if sand_sinks_into(below) {
        r && after == before.swapped(x, y, x, y + 1)
    } else if below == Element::Acid {
        sand_into_acid(before, x, y, x, y + 1, after, r)
    } else if side == Element::Air || side == Element::Water {
        r && after == before.swapped(x, y, nx, y + 1)
    } else if side == Element::Acid {
        sand_into_acid(before, x, y, nx, y + 1, after, r)
    } else {
        !r && after == before
    }
}

/// The sand rule at `(x, y)` with side column `neighbour_x`.
pub fn update_sand_with(x: usize, y: usize, neighbour_x: usize, level: &mut SandBox) -> (r: bool)
    requires
        at_interior(old(level)@, x as int, y as int),
        old(level)@.at(x as int, y as int).element != Element::Indestructible,
        neighbour_x == x - 1 || neighbour_x == x + 1,
    ensures
        keeps_frame(old(level)@, final(level)@),
        sand_outcome(old(level)@, x as int, y as int, neighbour_x as int, final(level)@, r),
{
    let ghost before = level@;
    let element_below = level.get(x, y + 1).element;
    if element_below == Element::Air || element_below == Element::Water || element_below
        == Element::Fire || element_below == Element::Oil {
        level.swap(x, y, x, y + 1);
        assert(sand_outcome(before, x as int, y as int, neighbour_x as int, level@, true));
        return true;
    }
    if element_below == Element::Acid {
        let gone = dissolve_at(level, x, y + 1, Element::Air);
        proof {
            let d = dissolved(before.at(x as int, y + 1), Element::Air);
            lemma_with_cell_at(before, x as int, y + 1, d, x as int, y as int);
            lemma_with_cell_at(before, x as int, y + 1, d, x as int, y + 1);
        }
        if gone {
            level.clear_cell(x, y + 1);
            assert(sand_outcome(before, x as int, y as int, neighbour_x as int, level@, false));
            return false;
        } else {
            level.swap(x, y, x, y + 1);
            assert(sand_outcome(before, x as int, y as int, neighbour_x as int, level@, true));
            return true;
        }
    }
    let neighbour_element = level.get(neighbour_x, y + 1).element;
    if neighbour_element == Element::Air || neighbour_element == Element::Water {
        level.swap(x, y, neighbour_x, y + 1);
        assert(sand_outcome(before, x as int, y as int, neighbour_x as int, level@, true));
        return true;
    }
    if neighbour_element == Element::Acid {
        let gone = dissolve_at(level, neighbour_x, y + 1, Element::Air);
        proof {
            let d = dissolved(before.at(neighbour_x as int, y + 1), Element::Air);
            lemma_with_cell_at(before, neighbour_x as int, y + 1, d, x as int, y as int);
            lemma_with_cell_at(before, neighbour_x as int, y + 1, d, neighbour_x as int, y + 1);
        }
        if gone {
            // Spent acid leaves air in its own cell, as it does straight below.
            level.clear_cell(neighbour_x, y + 1);
            assert(sand_outcome(before, x as int, y as int, neighbour_x as int, level@, false));
            return false;
        } else {
            level.swap(x, y, neighbour_x, y + 1);
            assert(sand_outcome(before, x as int, y as int, neighbour_x as int, level@, true));
            return true;
        }
    }
    assert(sand_outcome(before, x as int, y as int, neighbour_x as int, level@, false));
    false
}

/// Sand falls into what it sinks through, eats its way into acid, or slides down a
/// random diagonal.
pub fn update_sand(x: usize, y: usize, level: &mut SandBox) -> (r: bool)
    requires
        at_interior(old(level)@, x as int, y as int),
        old(level)@.at(x as int, y as int).element != Element::Indestructible,
    ensures
        keeps_frame(old(level)@, final(level)@),
        sand_sinks_into(old(level)@.at(x as int, y as int + 1).element) ==> r && final(level)@
            == old(level)@.swapped(x as int, y as int, x as int, y as int + 1),
        exists|nx: int|
            (nx == x - 1 || nx == x + 1) && #[trigger] sand_outcome(
                old(level)@,
                x as int,
                y as int,
                nx,
                final(level)@,
                r,
            ),
{
    let element_below = level.get(x, y + 1).element;
    let neighbour_x = if element_below == Element::Air || element_below == Element::Water
        || element_below == Element::Fire || element_below == Element::Oil || element_below
        == Element::Acid {
        x - 1
    } else {
        level.random_neighbour_x(x)
    };
    update_sand_with(x, y, neighbour_x, level)
}

/// Water at `(wx, wy)` touching `(ox, oy)` in `v`: the grid after and whether the water
/// counts as moved, or `None` when nothing happens. Water swaps with air and oil; it
/// thins acid into water and, going down on an even `random`, sinks into it; it cools
/// lava into rock and is spent once the lava turns; it puts out fire, taking its place
/// as water with variant `sv`.
pub open spec fn water_touch(
    v: SandBoxView,
    wx: int,
    wy: int,
    ox: int,
    oy: int,
    random: int,
    sv: u8,
) -> Option<(SandBoxView, bool)> {
    let other = v.at(ox, oy);
    let e = other.element;
    if e == Element::Air || e == Element::Oil {
        Some((v.swapped(wx, wy, ox, oy), true))
    } else if e == Element::Acid {
        let t = v.with_cell(ox, oy, dissolved(other, Element::Water));
        Some(
            (
                if wy < oy && random % 2 == 0 {
                    t.swapped(wx, wy, ox, oy)
                } else {
                    t
                },
                false,
            ),
        )
    } else if e == Element::Lava {
        let t = v.with_cell(ox, oy, dissolved(other, Element::Rock));
        Some(
            (
                if other.strength <= 1 {
                    t.with_cell(wx, wy, placed(t, wx, wy, Element::Air, false))
                } else {
                    t
                },
                false,
            ),
        )
    } else if e == Element::Fire {
        let t = v.with_cell(wx, wy, placed(v, wx, wy, Element::Air, false));
        Some((t.with_cell(ox, oy, placed_with(t, Element::Water, false, sv)), true))
    } else {
        None
    }
}

/// Water at `(water_x, water_y)` touches the cell at `(other_x, other_y)`.
fn touch_water(
    level: &mut SandBox,
    water_x: usize,
    water_y: usize,
    other_x: usize,
    other_y: usize,
    random: usize,
) -> (r: Option<bool>)
    requires
        old(level).wf(),
        old(level)@.in_bounds(water_x as int, water_y as int),
        old(level)@.in_bounds(other_x as int, other_y as int),
        water_touch(
            old(level)@,
            water_x as int,
            water_y as int,
            other_x as int,
            other_y as int,
            random as int,
            0,
        ) is Some ==> (water_x != other_x || water_y != other_y) && old(level)@.at(
            water_x as int,
            water_y as int,
        ).element != Element::Indestructible,
    ensures
        keeps_frame(old(level)@, final(level)@),
        match water_touch(
            old(level)@,
            water_x as int,
            water_y as int,
            other_x as int,
            other_y as int,
            random as int,
            final(level)@.at(other_x as int, other_y as int).variant,
        ) {
            Some((after, moved)) => r == Some(moved) && final(level)@ == after,
            None => r is None && final(level)@ == old(level)@,
        },
{
    let ghost v = level@;
    let ghost (wx, wy, ox, oy) = (water_x as int, water_y as int, other_x as int, other_y as int);
    let other_element = level.get(other_x, other_y).element;
    if other_element == Element::Air || other_element == Element::Oil {
        level.swap(water_x, water_y, other_x, other_y);
        return Some(true);
    }
    if other_element == Element::Acid {
        dissolve_at(level, other_x, other_y, Element::Water);
        proof {
            lemma_with_cell_at(v, ox, oy, dissolved(v.at(ox, oy), Element::Water), wx, wy);
        }
        if water_y < other_y && random % 2 == 0 {
            level.swap(water_x, water_y, other_x, other_y);
        }
        return Some(false);
    }
    if other_element == Element::Lava {
        let cooled = dissolve_at(level, other_x, other_y, Element::Rock);
        proof {
            lemma_with_cell_at(v, ox, oy, dissolved(v.at(ox, oy), Element::Rock), wx, wy);
        }
        if cooled {
            level.clear_cell(water_x, water_y);
        }
        return Some(false);
    }
    if other_element == Element::Fire {
        level.clear_cell(water_x, water_y);
        proof {
            lemma_with_cell_at(v, wx, wy, placed(v, wx, wy, Element::Air, false), ox, oy);
        }
        level.set_element(other_x, other_y, Element::Water, false);
        return Some(true);
    }
    None
}

/// The column `n` cells to the left of `x` (or to the right, as `left` says) when it
/// lies inside the border of a grid `width` wide.
pub open spec fn lateral_column(x: int, n: int, left: bool, width: int) -> Option<int> {
    if left {
        if x > n {
            Some(x - n)
        } else {
            None
        }
    } else {
        if x + n < width - 1 {
            Some(x + n)
        } else {
            None
        }
    }
}

/// The column `n` cells to one side of `x`, when it lies inside the border.
fn lateral(x: usize, n: usize, left: bool, width: usize) -> (r: Option<usize>)
    requires
        width >= 2,
        x < width,
    ensures
        r matches Some(c) ==> lateral_column(x as int, n as int, left, width as int) == Some(c as int),
        r is None ==> lateral_column(x as int, n as int, left, width as int) is None,
{
    if left {
        if x > n {
            Some(x - n)
        } else {
            None
        }
    } else {
        if n < width - 1 - x {
            Some(x + n)
        } else {
            None
        }
    }
}

/// Water at `(x, y)` in `v` spreading sideways from distance `n` up to 16, with draw
/// `random` (low draws go left): the first touch that does something decides, and the
/// search stops at the first cell in the way that is not water.
pub open spec fn water_spread(
    v: SandBoxView,
    x: int,
    y: int,
    random: int,
    n: int,
    after: SandBoxView,
    r: bool,
) -> bool
    decreases 17 - n,
{
    if n > 16 {
        !r && after == v
    } else {
        match lateral_column(x, n, random < 30, v.width as int) {
            None => water_spread(v, x, y, random, n + 1, after, r),
            Some(cx) => match water_touch(v, x, y, cx, y, random, after.at(cx, y).variant) {
                Some((w, moved)) => r == moved && after == w,
                None => if v.at(cx, y).element != Element::Water {
                    !r && after == v
                } else {
                    water_spread(v, x, y, random, n + 1, after, r)
                },
            },
        }
    }
}

/// The column below `x` that water checks first after drawing `d`.
pub open spec fn water_fall_column(x: int, d: int) -> int {
    if d < 58 {
        x
    } else if d == 58 {
        x - 1
    } else {
        x + 1
    }
}

/// The water rule at `(x, y)` with draw `d` takes `before` to `after` and returns `r`:
/// it touches the cell below (rarely a diagonal one), and spreads sideways when that
/// does nothing.
pub open spec fn water_outcome(
    before: SandBoxView,
    x: int,
    y: int,
    d: int,
    after: SandBoxView,
    r: bool,
) -> bool {
    let cx = water_fall_column(x, d);
    match water_touch(before, x, y, cx, y + 1, d, after.at(cx, y + 1).variant) {
        Some((w, moved)) => r == moved && after == w,
        None => water_spread(before, x, y, d, 1, after, r),
    }
}

/// The water rule at `(x, y)` for the draw `random`.
pub fn update_water_with(x: usize, y: usize, random: usize, level: &mut SandBox) -> (r: bool)
    requires
        at_interior(old(level)@, x as int, y as int),
        old(level)@.at(x as int, y as int).element == Element::Water,
        random < 60,
    ensures
        keeps_frame(old(level)@, final(level)@),
        water_outcome(old(level)@, x as int, y as int, random as int, final(level)@, r),
{
    let ghost before = level@;
    let check_x = if random < 58 {
        x
    } else if random == 58 {
        x - 1
    } else {
        x + 1
    };
    if let Some(value) = touch_water(level, x, y, check_x, y + 1, random) {
        assert(water_outcome(before, x as int, y as int, random as int, level@, value));
        return value;
    }
    let width = level.width();
    let mut n: usize = 1;
    while n <= 16
        invariant
            1 <= n <= 17,
            level@ == before,
            before == old(level)@,
            at_interior(before, x as int, y as int),
            before.at(x as int, y as int).element == Element::Water,
            width == before.width,
            random < 60,
            forall|after: SandBoxView, r: bool|
                #[trigger] water_spread(before, x as int, y as int, random as int, n as int, after, r)
                    ==> water_outcome(before, x as int, y as int, random as int, after, r),
        decreases 17 - n,
    {
        if let Some(check_x) = lateral(x, n, random < 30, width) {
            let neighbour_element = level.get(check_x, y).element;
            if let Some(value) = touch_water(level, x, y, check_x, y, random) {
                assert(water_spread(before, x as int, y as int, random as int, n as int, level@, value));
                return value;
            }
            if neighbour_element != Element::Water {
                assert(water_spread(before, x as int, y as int, random as int, n as int, level@, false));
                return false;
            }
        }
        assert forall|after: SandBoxView, r: bool|
            #[trigger] water_spread(before, x as int, y as int, random as int, n + 1, after, r)
                implies water_outcome(before, x as int, y as int, random as int, after, r) by {
            assert(water_spread(before, x as int, y as int, random as int, n as int, after, r));
        }
        n = n + 1;
    }
    assert(water_spread(before, x as int, y as int, random as int, n as int, level@, false));
    false
}

/// Water mostly falls straight down, sometimes diagonally, and otherwise spreads
/// sideways along a run of water.
pub fn update_water(x: usize, y: usize, level: &mut SandBox) -> (r: bool)
    requires
        at_interior(old(level)@, x as int, y as int),
        old(level)@.at(x as int, y as int).element == Element::Water,
    ensures
        keeps_frame(old(level)@, final(level)@),
        exists|d: int|
            0 <= d < 60 && #[trigger] water_outcome(
                old(level)@,
                x as int,
                y as int,
                d,
                final(level)@,
                r,
            ),
        water_world(old(level)@) ==> water_world(final(level)@) && water_count(final(level)@.cells)
            == water_count(old(level)@.cells),
{
    let random = level.random(60);
    let r = update_water_with(x, y, random, level);
    proof {
        if water_world(old(level)@) {
            let d = random as int;
            lemma_water_outcome_in_water_world(old(level)@, x as int, y as int, d, level@, r);
        }
    }
    r
}

/// The column below `x` that acid checks after drawing `d`.
pub open spec fn acid_fall_column(x: int, d: int) -> int {
    if d < 50 {
        x
    } else if d < 55 {
        x - 1
    } else {
        x + 1
    }
}

/// Acid at `(x, y)` in `v` eating the cell at `(cx, cy)`: that cell wears down, and once
/// it turns into air the acid is spent.
pub open spec fn acid_eats(v: SandBoxView, x: int, y: int, cx: int, cy: int) -> SandBoxView {
    let t = v.with_cell(cx, cy, dissolved(v.at(cx, cy), Element::Air));
    if v.at(cx, cy).strength <= 1 {
        t.with_cell(x, y, placed(t, x, y, Element::Air, false))
    } else {
        t
    }
}

/// Acid at `(x, y)` in `v` spreading sideways from distance `n` up to 8, with draw
/// `random` (low draws go left): it moves into air, eats what dissolves in it, and stops at the
/// first other cell that is not acid.
pub open spec fn acid_spread(
    v: SandBoxView,
    x: int,
    y: int,
    random: int,
    n: int,
    after: SandBoxView,
    r: bool,
) -> bool
    decreases 9 - n,
{
    if n > 8 {
        !r && after == v
    } else {
        match lateral_column(x, n, random < 30, v.width as int) {
            None => acid_spread(v, x, y, random, n + 1, after, r),
            Some(cx) => {
                let e = v.at(cx, y).element;
                if e == Element::Air {
                    r && after == v.swapped(x, y, cx, y)
                } else if e.dissolves_in_acid() {
                    r && after == acid_eats(v, x, y, cx, y)
                } else if e != Element::Acid {
                    !r && after == v
                } else {
                    acid_spread(v, x, y, random, n + 1, after, r)
                }
            },
        }
    }
}

/// The acid rule at `(x, y)` with draw `d` takes `before` to `after` and returns `r`.
/// It falls through air and fire below, weakens towards water on water, eats what
/// dissolves below it, and otherwise spreads sideways.
pub open spec fn acid_outcome(
    before: SandBoxView,
    x: int,
    y: int,
    d: int,
    after: SandBoxView,
    r: bool,
) -> bool {
    let cx = acid_fall_column(x, d);
    let below = before.at(cx, y + 1).element;
    if below == Element::Air || below == Element::Fire {
        r && after == before.swapped(x, y, cx, y + 1)
    } else if below == Element::Water {
        !r && after == before.with_cell(x, y, dissolved(before.at(x, y), Element::Water))
    } else if below.dissolves_in_acid() {
        r == (before.at(cx, y + 1).strength <= 1) && after == acid_eats(before, x, y, cx, y + 1)
    } else {
        acid_spread(before, x, y, d, 1, after, r)
    }
}

/// The acid rule at `(x, y)` for the draw `random`.
pub fn update_acid_with(x: usize, y: usize, random: usize, level: &mut SandBox) -> (r: bool)
    requires
        at_interior(old(level)@, x as int, y as int),
        old(level)@.at(x as int, y as int).element == Element::Acid,
        random < 60,
    ensures
        keeps_frame(old(level)@, final(level)@),
        acid_outcome(old(level)@, x as int, y as int, random as int, final(level)@, r),
{
    let ghost before = level@;
    let check_x = if random < 50 {
        x
    } else if random < 55 {
        x - 1
    } else {
        x + 1
    };
    let element_below = level.get(check_x, y + 1).element;
    if element_below == Element::Air || element_below == Element::Fire {
        level.swap(x, y, check_x, y + 1);
        assert(acid_outcome(before, x as int, y as int, random as int, level@, true));
        return true;
    }
    if element_below == Element::Water {
        dissolve_at(level, x, y, Element::Water);
        assert(acid_outcome(before, x as int, y as int, random as int, level@, false));
        return false;
    }
    if element_below.dissolves_in_acid() {
        if dissolve_at(level, check_x, y + 1, Element::Air) {
            proof {
                let d = dissolved(before.at(check_x as int, y + 1), Element::Air);
                lemma_with_cell_at(before, check_x as int, y + 1, d, x as int, y as int);
            }
            level.clear_cell(x, y);
            assert(acid_outcome(before, x as int, y as int, random as int, level@, true));
            return true;
        }
        assert(acid_outcome(before, x as int, y as int, random as int, level@, false));
        return false;
    }
    let width = level.width();
    let mut n: usize = 1;
    while n <= 8
        invariant
            1 <= n <= 9,
            level@ == before,
            before == old(level)@,
            at_interior(before, x as int, y as int),
            before.at(x as int, y as int).element == Element::Acid,
            width == before.width,
            random < 60,
            forall|after: SandBoxView, r: bool|
                #[trigger] acid_spread(before, x as int, y as int, random as int, n as int, after, r)
                    ==> acid_outcome(before, x as int, y as int, random as int, after, r),
        decreases 9 - n,
    {
        if let Some(check_x) = lateral(x, n, random < 30, width) {
            let neighbour_element = level.get(check_x, y).element;
            if neighbour_element == Element::Air {
                level.swap(x, y, check_x, y);
                assert(acid_spread(before, x as int, y as int, random as int, n as int, level@, true));
                return true;
            }
            if neighbour_element.dissolves_in_acid() {
                if dissolve_at(level, check_x, y, Element::Air) {
                    proof {
                        let d = dissolved(before.at(check_x as int, y as int), Element::Air);
                        lemma_with_cell_at(before, check_x as int, y as int, d, x as int, y as int);
                    }
                    level.clear_cell(x, y);
                }
                assert(acid_spread(before, x as int, y as int, random as int, n as int, level@, true));
                return true;
            }
            if neighbour_element != Element::Acid {
                assert(acid_spread(before, x as int, y as int, random as int, n as int, level@, false));
                return false;
            }
        }
        assert forall|after: SandBoxView, r: bool|
            #[trigger] acid_spread(before, x as int, y as int, random as int, n + 1, after, r)
                implies acid_outcome(before, x as int, y as int, random as int, after, r) by {
            assert(acid_spread(before, x as int, y as int, random as int, n as int, after, r));
        }
        n = n + 1;
    }
    assert(acid_spread(before, x as int, y as int, random as int, n as int, level@, false));
    false
}

/// Acid mostly falls straight down, sometimes diagonally; it turns into water on water,
/// eats what dissolves in it, and otherwise spreads sideways along a run of acid.
pub fn update_acid(x: usize, y: usize, level: &mut SandBox) -> (r: bool)
    requires
        at_interior(old(level)@, x as int, y as int),
        old(level)@.at(x as int, y as int).element == Element::Acid,
    ensures
        keeps_frame(old(level)@, final(level)@),
        exists|d: int|
            0 <= d < 60 && #[trigger] acid_outcome(
                old(level)@,
                x as int,
                y as int,
                d,
                final(level)@,
                r,
            ),
{
    let random = level.random(60);
    update_acid_with(x, y, random, level)
}

/// The column below `x` that oil checks after drawing `d`.
pub open spec fn oil_fall_column(x: int, d: int) -> int {
    if d > 50 {
        x
    } else if d > 25 {
        x - 1
    } else {
        x + 1
    }
}

/// Oil at `(x, y)` in `v` spreading sideways from distance `n` up to 8, with draw
/// `random` (low draws go left): it moves into air, or into acid right next to it, and stops at
/// the first other cell that is not oil.
pub open spec fn oil_spread(
    v: SandBoxView,
    x: int,
    y: int,
    random: int,
    n: int,
    after: SandBoxView,
    r: bool,
) -> bool
    decreases 9 - n,
{
    if n > 8 {
        !r && after == v
    } else {
        match lateral_column(x, n, random < 250, v.width as int) {
            None => oil_spread(v, x, y, random, n + 1, after, r),
            Some(cx) => {
                let e = v.at(cx, y).element;
                if e == Element::Air || (n == 1 && e == Element::Acid) {
                    r && after == v.swapped(x, y, cx, y)
                } else if e != Element::Oil {
                    !r && after == v
                } else {
                    oil_spread(v, x, y, random, n + 1, after, r)
                }
            },
        }
    }
}

/// The oil rule at `(x, y)` with draw `d` takes `before` to `after` and returns `r`: it
/// falls through air and acid below, and otherwise spreads sideways.
pub open spec fn oil_outcome(
    before: SandBoxView,
    x: int,
    y: int,
    d: int,
    after: SandBoxView,
    r: bool,
) -> bool {
    let cx = oil_fall_column(x, d);
    let below = before.at(cx, y + 1).element;
    if below == Element::Air || below == Element::Acid {
        r && after == before.swapped(x, y, cx, y + 1)
    } else {
        oil_spread(before, x, y, d, 1, after, r)
    }
}

/// The oil rule at `(x, y)` for the draw `random`.
pub fn update_oil_with(x: usize, y: usize, random: usize, level: &mut SandBox) -> (r: bool)
    requires
        at_interior(old(level)@, x as int, y as int),
        old(level)@.at(x as int, y as int).element == Element::Oil,
        random < 500,
    ensures
        keeps_frame(old(level)@, final(level)@),
        oil_outcome(old(level)@, x as int, y as int, random as int, final(level)@, r),
{
    let ghost before = level@;
    let check_x = if random > 50 {
        x
    } else if random > 25 {
        x - 1
    } else {
        x + 1
    };
    let element_below = level.get(check_x, y + 1).element;
    if element_below == Element::Air || element_below == Element::Acid {
        level.swap(x, y, check_x, y + 1);
        assert(oil_outcome(before, x as int, y as int, random as int, level@, true));
        return true;
    }
    let width = level.width();
    let mut n: usize = 1;
    while n <= 8
        invariant
            1 <= n <= 9,
            level@ == before,
            before == old(level)@,
            at_interior(before, x as int, y as int),
            before.at(x as int, y as int).element == Element::Oil,
            width == before.width,
            random < 500,
            forall|after: SandBoxView, r: bool|
                #[trigger] oil_spread(before, x as int, y as int, random as int, n as int, after, r)
                    ==> oil_outcome(before, x as int, y as int, random as int, after, r),
        decreases 9 - n,
    {
        if let Some(check_x) = lateral(x, n, random < 250, width) {
            let neighbour_element = level.get(check_x, y).element;
            if neighbour_element == Element::Air || (n == 1 && neighbour_element == Element::Acid) {
                level.swap(x, y, check_x, y);
                assert(oil_spread(before, x as int, y as int, random as int, n as int, level@, true));
                return true;
            }
            if neighbour_element != Element::Oil {
                assert(oil_spread(before, x as int, y as int, random as int, n as int, level@, false));
                return false;
            }
        }
        assert forall|after: SandBoxView, r: bool|
            #[trigger] oil_spread(before, x as int, y as int, random as int, n + 1, after, r)
                implies oil_outcome(before, x as int, y as int, random as int, after, r) by {
            assert(oil_spread(before, x as int, y as int, random as int, n as int, after, r));
        }
        n = n + 1;
    }
    assert(oil_spread(before, x as int, y as int, random as int, n as int, level@, false));
    false
}

/// Oil mostly falls straight down, sometimes diagonally, through air and acid, and
/// otherwise spreads sideways along a run of oil.
pub fn update_oil(x: usize, y: usize, level: &mut SandBox) -> (r: bool)
    requires
        at_interior(old(level)@, x as int, y as int),
        old(level)@.at(x as int, y as int).element == Element::Oil,
    ensures
        keeps_frame(old(level)@, final(level)@),
        exists|d: int|
            0 <= d < 500 && #[trigger] oil_outcome(
                old(level)@,
                x as int,
                y as int,
                d,
                final(level)@,
                r,
            ),
{
    let random = level.random(500);
    update_oil_with(x, y, random, level)
}

/// Shifts the colour variant of the cell at `(x, y)` by `amount`, modulo 255.
fn shift_variant(level: &mut SandBox, x: usize, y: usize, amount: u8)
    requires
        old(level).wf(),
        old(level)@.is_interior(x as int, y as int),
    ensures
        final(level).wf(),
        old(level)@.border_kept(final(level)@),
        final(level)@ == old(level)@.with_cell(
            x as int,
            y as int,
            (Cell {
                variant: ((old(level)@.at(x as int, y as int).variant + amount) % 255) as u8,
                ..old(level)@.at(x as int, y as int)
            }),
        ),
        final(level)@.at(x as int, y as int).element == old(level)@.at(x as int, y as int).element,
{
    let ghost before = level@;
    let cell = level.get_mut(x, y);
    cell.variant = ((cell.variant as u16 + amount as u16) % 255) as u8;
    proof {
        lemma_with_cell_at(
            before,
            x as int,
            y as int,
            Cell {
                variant: ((before.at(x as int, y as int).variant + amount) % 255) as u8,
                ..before.at(x as int, y as int)
            },
            x as int,
            y as int,
        );
        lemma_write_keeps_border(
            before,
            x as int,
            y as int,
            Cell {
                variant: ((before.at(x as int, y as int).variant + amount) % 255) as u8,
                ..before.at(x as int, y as int)
            },
        );
        lemma_write_keeps_wf(
            before,
            x as int,
            y as int,
            Cell {
                variant: ((before.at(x as int, y as int).variant + amount) % 255) as u8,
                ..before.at(x as int, y as int)
            },
        );
    }
}

/// The neighbour of `(x, y)` that fire moves towards after drawing `d`: down, right,
/// left, or (for the two highest draws) up.
pub open spec fn fire_target(x: int, y: int, d: int) -> (int, int) {
    if d == 0 {
        (x, y + 1)
    } else if d == 1 {
        (x + 1, y)
    } else if d == 2 {
        (x - 1, y)
    } else {
        (x, y - 1)
    }
}

/// What a burnable element turns into when fire reaches it after drawing `d`.
pub open spec fn burnt(e: Element, d: int) -> Element {
    if e.form() == ElementForm::Solid && d > 3 {
        Element::Ash
    } else {
        Element::Fire
    }
}

/// The fire cell at `(x, y)` after drawing `d`: weakened on the highest draw, and
/// flickered by `10 * d`.
pub open spec fn fire_flickered(c: Cell, d: int) -> Cell {
    let worn = if d > 3 {
        Cell { strength: (c.strength - 1) as u8, ..c }
    } else {
        c
    };
    Cell { variant: ((c.variant + d * 10) % 255) as u8, ..worn }
}

/// The fire rule at `(x, y)` with draw `d` takes `before` to `after` and returns `r`.
/// On the highest draw a spent fire turns into smoke. Otherwise it flickers, then
/// swaps with air where it moves, or ignites what burns there.
pub open spec fn fire_outcome(
    before: SandBoxView,
    x: int,
    y: int,
    d: int,
    after: SandBoxView,
    r: bool,
) -> bool {
    let c = before.at(x, y);
    if d > 3 && c.strength <= 1 {
        r && after == before.with_cell(
            x,
            y,
            placed_with(before, Element::Smoke, false, after.at(x, y).variant),
        )
    } else {
        let mid = before.with_cell(x, y, fire_flickered(c, d));
        let (nx, ny) = fire_target(x, y, d);
        let e = before.at(nx, ny).element;
        if e == Element::Air {
            r && after == mid.swapped(x, y, nx, ny)
        } else if e.burns() {
            !r && after == mid.with_cell(nx, ny, dissolved(before.at(nx, ny), burnt(e, d)))
        } else {
            !r && after == mid
        }
    }
}

/// The fire rule at `(x, y)` for the draw `random`.
pub fn update_fire_with(x: usize, y: usize, random: usize, level: &mut SandBox) -> (r: bool)
    requires
        at_interior(old(level)@, x as int, y as int),
        old(level)@.at(x as int, y as int).element == Element::Fire,
        random < 5,
    ensures
        keeps_frame(old(level)@, final(level)@),
        fire_outcome(old(level)@, x as int, y as int, random as int, final(level)@, r),
{
    let ghost before = level@;
    if random > 3 && !level.reduce_strength(x, y) {
        level.set_element(x, y, Element::Smoke, false);
        assert(fire_outcome(before, x as int, y as int, random as int, level@, true));
        return true;
    }
    shift_variant(level, x, y, (random * 10) as u8);
    let ghost mid = level@;
    proof {
        let c = fire_flickered(before.at(x as int, y as int), random as int);
        let worn = Cell {
            strength: (before.at(x as int, y as int).strength - 1) as u8,
            ..before.at(x as int, y as int)
        };
        lemma_with_cell_at(before, x as int, y as int, worn, x as int, y as int);
        lemma_with_cell_twice(before, x as int, y as int, worn, c);
        assert(mid == before.with_cell(x as int, y as int, c));
    }
    let (nx, ny) = match random {
        0 => (x, y + 1),
        1 => (x + 1, y),
        2 => (x - 1, y),
        _ => (x, y - 1),
    };
    proof {
        let c = fire_flickered(before.at(x as int, y as int), random as int);
        lemma_with_cell_at(before, x as int, y as int, c, nx as int, ny as int);
        lemma_with_cell_at(before, x as int, y as int, c, x as int, y as int);
        assert(fire_target(x as int, y as int, random as int) == (nx as int, ny as int));
    }
    let element = level.get(nx, ny).element;
    if element == Element::Air {
        level.swap(x, y, nx, ny);
        assert(fire_outcome(before, x as int, y as int, random as int, level@, true));
        return true;
    }
    if element.burns() {
        if element.form() == ElementForm::Solid && random > 3 {
            dissolve_at(level, nx, ny, Element::Ash);
        } else {
            dissolve_at(level, nx, ny, Element::Fire);
        }
        assert(fire_outcome(before, x as int, y as int, random as int, level@, false));
        return false;
    }
    assert(fire_outcome(before, x as int, y as int, random as int, level@, false));
    false
}

/// Fire burns down into smoke, flickers, drifts mostly upwards and ignites what burns.
pub fn update_fire(x: usize, y: usize, level: &mut SandBox) -> (r: bool)
    requires
        at_interior(old(level)@, x as int, y as int),
        old(level)@.at(x as int, y as int).element == Element::Fire,
    ensures
        keeps_frame(old(level)@, final(level)@),
        exists|d: int|
            0 <= d < 5 && #[trigger] fire_outcome(
                old(level)@,
                x as int,
                y as int,
                d,
                final(level)@,
                r,
            ),
{
    let random = level.random(5);
    update_fire_with(x, y, random, level)
}

/// Ash behaves as sand.
pub fn update_ash(x: usize, y: usize, level: &mut SandBox) -> (r: bool)
    requires
        at_interior(old(level)@, x as int, y as int),
        old(level)@.at(x as int, y as int).element == Element::Ash,
    ensures
        keeps_frame(old(level)@, final(level)@),
        exists|nx: int|
            (nx == x - 1 || nx == x + 1) && #[trigger] sand_outcome(
                old(level)@,
                x as int,
                y as int,
                nx,
                final(level)@,
                r,
            ),
{
    update_sand(x, y, level)
}

/// The elements that lava flows into by swapping places.
pub open spec fn lava_sinks_into(e: Element) -> bool {
    e == Element::Air || e == Element::Acid || e == Element::Water || e == Element::Fire
}

/// Lava at `(lava_x, lava_y)` touching `(other_x, other_y)` in `v`: the grid after and
/// whether the lava moved, or `None` when nothing happens. It swaps with air and
/// liquids and ignites what burns.
pub open spec fn lava_touch(
    v: SandBoxView,
    lava_x: int,
    lava_y: int,
    other_x: int,
    other_y: int,
) -> Option<
    (SandBoxView, bool),
> {
    let e = v.at(other_x, other_y).element;
    if lava_sinks_into(e) {
        Some((v.swapped(lava_x, lava_y, other_x, other_y), true))
    } else if e.burns() {
        Some((v.with_cell(other_x, other_y, dissolved(v.at(other_x, other_y), Element::Fire)), false))
    } else {
        None
    }
}

/// Lava at `(lava_x, lava_y)` touches the cell at `(other_x, other_y)`.
fn touch_lava(
    level: &mut SandBox,
    lava_x: usize,
    lava_y: usize,
    other_x: usize,
    other_y: usize,
) -> (r:
    Option<bool>)
    requires
        old(level).wf(),
        old(level)@.in_bounds(lava_x as int, lava_y as int),
        old(level)@.in_bounds(other_x as int, other_y as int),
        old(level)@.at(lava_x as int, lava_y as int).element != Element::Indestructible,
    ensures
        keeps_frame(old(level)@, final(level)@),
        match lava_touch(
            old(level)@,
            lava_x as int,
            lava_y as int,
            other_x as int,
            other_y as int,
        ) {
            Some((after, moved)) => r == Some(moved) && final(level)@ == after,
            None => r is None && final(level)@ == old(level)@,
        },
{
    let element = level.get(other_x, other_y).element;
    if element == Element::Air || element == Element::Acid || element == Element::Water || element
        == Element::Fire {
        level.swap(lava_x, lava_y, other_x, other_y);
        return Some(true);
    }
    if element.burns() {
        dissolve_at(level, other_x, other_y, Element::Fire);
        return Some(false);
    }
    None
}

/// Lava in `v` at `(x, y)` tries to flow down, then towards column `nx` below, then
/// towards column `nx` beside it; the first touch that does something decides.
pub open spec fn lava_flow(
    v: SandBoxView,
    x: int,
    y: int,
    nx: int,
    after: SandBoxView,
    r: bool,
) -> bool {
    match lava_touch(v, x, y, x, y + 1) {
        Some((w, moved)) => r == moved && after == w,
        None => match lava_touch(v, x, y, nx, y + 1) {
            Some((w, moved)) => r == moved && after == w,
            None => match lava_touch(v, x, y, nx, y) {
                Some((w, moved)) => r == moved && after == w,
                None => !r && after == v,
            },
        },
    }
}

/// The lava rule at `(x, y)` with draw `d`, side column `nx` and spark variant `sv`
/// takes `before` to `after` and returns `r`. Lava glows by `d`; on the lower half of
/// the draws, lava weaker than 64 cools towards rock, and stops there once it turns. On
/// the lowest draw it sets fire to air above it. Then it flows.
pub open spec fn lava_outcome(
    before: SandBoxView,
    x: int,
    y: int,
    d: int,
    nx: int,
    sv: u8,
    after: SandBoxView,
    r: bool,
) -> bool {
    let c = before.at(x, y);
    let glowing = Cell { variant: ((c.variant + d % 256) % 255) as u8, ..c };
    let v1 = before.with_cell(x, y, glowing);
    let cooling = d < 250 && c.strength < 64;
    if cooling && c.strength <= 1 {
        r && after == v1.with_cell(x, y, dissolved(glowing, Element::Rock))
    } else {
        let v2 = if cooling {
            v1.with_cell(x, y, dissolved(glowing, Element::Rock))
        } else {
            v1
        };
        let v3 = if d == 0 && v2.at(x, y - 1).element == Element::Air {
            v2.with_cell(x, y - 1, placed_with(v2, Element::Fire, false, sv))
        } else {
            v2
        };
        lava_flow(v3, x, y, nx, after, r)
    }
}

/// The lava rule at `(x, y)` for the draw `random` and side column `neighbour_x`.
pub fn update_lava_with(
    x: usize,
    y: usize,
    random: usize,
    neighbour_x: usize,
    level: &mut SandBox,
) -> (r: bool)
    requires
        at_interior(old(level)@, x as int, y as int),
        old(level)@.at(x as int, y as int).element == Element::Lava,
        random < 500,
        neighbour_x == x - 1 || neighbour_x == x + 1,
    ensures
        keeps_frame(old(level)@, final(level)@),
        exists|sv: u8|
            #[trigger] lava_outcome(
                old(level)@,
                x as int,
                y as int,
                random as int,
                neighbour_x as int,
                sv,
                final(level)@,
                r,
            ),
{
    let ghost before = level@;
    shift_variant(level, x, y, (random % 256) as u8);
    let ghost v1 = level@;
    let ghost c = before.at(x as int, y as int);
    let ghost glowing = Cell { variant: ((c.variant + random % 256) % 255) as u8, ..c };
    proof {
        lemma_with_cell_at(before, x as int, y as int, glowing, x as int, y as int);
        assert(v1 == before.with_cell(x as int, y as int, glowing));
    }
    if random < 250 && level.get(x, y).strength < 64 {
        if dissolve_at(level, x, y, Element::Rock) {
            let ghost nx = neighbour_x as int;
            assert(lava_outcome(before, x as int, y as int, random as int, nx, 0, level@, true));
            return true;
        }
    }
    let ghost v2 = level@;
    proof {
        lemma_with_cell_at(v1, x as int, y as int, v2.at(x as int, y as int), x as int, y as int);
        lemma_with_cell_at(v1, x as int, y as int, v2.at(x as int, y as int), x as int, y - 1);
    }
    if random == 0 && level.get(x, y - 1).element == Element::Air {
        level.set_element(x, y - 1, Element::Fire, false);
        proof {
            lemma_with_cell_at(
                v2,
                x as int,
                y - 1,
                placed_with(v2, Element::Fire, false, level@.at(x as int, y - 1).variant),
                x as int,
                y as int,
            );
        }
    }
    let ghost v3 = level@;
    let ghost sv = v3.at(x as int, y - 1).variant;
    proof {
        assert(v3.at(x as int, y as int).element == Element::Lava);
    }
    if let Some(visited) = touch_lava(level, x, y, x, y + 1) {
        let ghost nx = neighbour_x as int;
        assert(lava_outcome(before, x as int, y as int, random as int, nx, sv, level@, visited));
        return visited;
    }
    if let Some(visited) = touch_lava(level, x, y, neighbour_x, y + 1) {
        let ghost nx = neighbour_x as int;
        assert(lava_outcome(before, x as int, y as int, random as int, nx, sv, level@, visited));
        return visited;
    }
    if let Some(visited) = touch_lava(level, x, y, neighbour_x, y) {
        let ghost nx = neighbour_x as int;
        assert(lava_outcome(before, x as int, y as int, random as int, nx, sv, level@, visited));
        return visited;
    }
    let ghost nx = neighbour_x as int;
    assert(lava_outcome(before, x as int, y as int, random as int, nx, sv, level@, false));
    false
}

/// Lava glows, cools into rock once weakened, gives off sparks, and flows down,
/// diagonally or sideways.
pub fn update_lava(x: usize, y: usize, level: &mut SandBox) -> (r: bool)
    requires
        at_interior(old(level)@, x as int, y as int),
        old(level)@.at(x as int, y as int).element == Element::Lava,
    ensures
        keeps_frame(old(level)@, final(level)@),
        exists|d: int, nx: int, sv: u8|
            0 <= d < 500 && (nx == x - 1 || nx == x + 1) && #[trigger] lava_outcome(
                old(level)@,
                x as int,
                y as int,
                d,
                nx,
                sv,
                final(level)@,
                r,
            ),
{
    let random = level.random(500);
    let neighbour_x = level.random_neighbour_x(x);
    update_lava_with(x, y, random, neighbour_x, level)
}

/// The neighbour of `(x, y)` that smoke moves towards after drawing `d`: right, left,
/// or (for the three highest draws) up.
pub open spec fn smoke_target(x: int, y: int, d: int) -> (int, int) {
    if d == 0 {
        (x + 1, y)
    } else if d == 1 {
        (x - 1, y)
    } else {
        (x, y - 1)
    }
}

/// The smoke rule at `(x, y)` with draw `d` takes `before` to `after` and returns `r`.
/// On the three highest draws smoke thins, and spent smoke clears. Otherwise it swaps
/// with air where it moves, or clears on fire or liquid there.
pub open spec fn smoke_outcome(
    before: SandBoxView,
    x: int,
    y: int,
    d: int,
    after: SandBoxView,
    r: bool,
) -> bool {
    let c = before.at(x, y);
    if d > 2 && c.strength <= 1 {
        r && after == before.with_cell(x, y, placed(before, x, y, Element::Air, false))
    } else {
        let mid = if d > 2 {
            before.with_cell(x, y, Cell { strength: (c.strength - 1) as u8, ..c })
        } else {
            before
        };
        let (nx, ny) = smoke_target(x, y, d);
        let e = before.at(nx, ny).element;
        if e == Element::Air {
            r && after == mid.swapped(x, y, nx, ny)
        } else if e == Element::Fire || e.form() == ElementForm::Liquid {
            r && after == mid.with_cell(x, y, placed(mid, x, y, Element::Air, false))
        } else {
            !r && after == mid
        }
    }
}

/// The smoke rule at `(x, y)` for the draw `random`.
pub fn update_smoke_with(x: usize, y: usize, random: usize, level: &mut SandBox) -> (r: bool)
    requires
        at_interior(old(level)@, x as int, y as int),
        old(level)@.at(x as int, y as int).element == Element::Smoke,
        random < 5,
    ensures
        keeps_frame(old(level)@, final(level)@),
        smoke_outcome(old(level)@, x as int, y as int, random as int, final(level)@, r),
{
    let ghost before = level@;
    if random > 2 && !level.reduce_strength(x, y) {
        level.clear_cell(x, y);
        assert(smoke_outcome(before, x as int, y as int, random as int, level@, true));
        return true;
    }
    let ghost mid = level@;
    let (nx, ny) = match random {
        0 => (x + 1, y),
        1 => (x - 1, y),
        _ => (x, y - 1),
    };
    proof {
        let c = before.at(x as int, y as int);
        let worn = Cell { strength: (c.strength - 1) as u8, ..c };
        lemma_with_cell_at(before, x as int, y as int, worn, nx as int, ny as int);
        lemma_with_cell_at(before, x as int, y as int, worn, x as int, y as int);
        assert(smoke_target(x as int, y as int, random as int) == (nx as int, ny as int));
    }
    let neighbour_element = level.get(nx, ny).element;
    if neighbour_element == Element::Air {
        level.swap(x, y, nx, ny);
        assert(smoke_outcome(before, x as int, y as int, random as int, level@, true));
        return true;
    }
    if neighbour_element == Element::Fire || neighbour_element.form() == ElementForm::Liquid {
        level.clear_cell(x, y);
        assert(smoke_outcome(before, x as int, y as int, random as int, level@, true));
        return true;
    }
    assert(smoke_outcome(before, x as int, y as int, random as int, level@, false));
    false
}

/// Smoke thins out into air, drifts mostly upwards, and vanishes on fire or liquid.
pub fn update_smoke(x: usize, y: usize, level: &mut SandBox) -> (r: bool)
    requires
        at_interior(old(level)@, x as int, y as int),
        old(level)@.at(x as int, y as int).element == Element::Smoke,
    ensures
        keeps_frame(old(level)@, final(level)@),
        exists|d: int|
            0 <= d < 5 && #[trigger] smoke_outcome(
                old(level)@,
                x as int,
                y as int,
                d,
                final(level)@,
                r,
            ),
{
    let random = level.random(5);
    update_smoke_with(x, y, random, level)
}

/// Whether one of the four cells next to `(x, y)` rusts iron.
pub open spec fn rusty_neighbour(v: SandBoxView, x: int, y: int) -> bool {
    v.at(x - 1, y).element.causes_rust() || v.at(x + 1, y).element.causes_rust() || v.at(
        x,
        y - 1,
    ).element.causes_rust() || v.at(x, y + 1).element.causes_rust()
}

/// The iron rule at `(x, y)` with draw `d` takes `before` to `after` and returns `r`.
/// Next to what causes rust, iron wears down on the two highest draws and turns into
/// rust once spent; elsewhere nothing changes.
pub open spec fn iron_outcome(
    before: SandBoxView,
    x: int,
    y: int,
    d: int,
    after: SandBoxView,
    r: bool,
) -> bool {
    let c = before.at(x, y);
    if !rusty_neighbour(before, x, y) || d <= 2 {
        !r && after == before
    } else if c.strength > 1 {
        !r && after == before.with_cell(x, y, Cell { strength: (c.strength - 1) as u8, ..c })
    } else {
        r && after == before.with_cell(
            x,
            y,
            placed_with(before, Element::Rust, false, after.at(x, y).variant),
        )
    }
}

/// The iron rule at `(x, y)` for the draw `d`: iron next to what causes rust wears
/// down on the two highest draws and turns into rust once spent.
pub fn update_iron_with(x: usize, y: usize, d: usize, level: &mut SandBox) -> (r: bool)
    requires
        at_interior(old(level)@, x as int, y as int),
        old(level)@.at(x as int, y as int).element == Element::Iron,
        d < 5,
    ensures
        keeps_frame(old(level)@, final(level)@),
        iron_outcome(old(level)@, x as int, y as int, d as int, final(level)@, r),
        r ==> final(level)@.at(x as int, y as int).element == Element::Rust,
        !r ==> final(level)@.at(x as int, y as int).element == Element::Iron,
{
    let ghost before = level@;
    let rusty_neighbour = level.get(x - 1, y).element.causes_rust() || level.get(
        x + 1,
        y,
    ).element.causes_rust() || level.get(x, y - 1).element.causes_rust() || level.get(
        x,
        y + 1,
    ).element.causes_rust();
    if rusty_neighbour && d > 2 && !level.reduce_strength(x, y) {
        level.set_element(x, y, Element::Rust, false);
        return true;
    }
    false
}

/// Iron next to what causes rust wears down and turns into rust; the draw is made only
/// next to such a cell.
pub fn update_iron(x: usize, y: usize, level: &mut SandBox) -> (r: bool)
    requires
        at_interior(old(level)@, x as int, y as int),
        old(level)@.at(x as int, y as int).element == Element::Iron,
    ensures
        keeps_frame(old(level)@, final(level)@),
        exists|d: int|
            0 <= d < 5 && #[trigger] iron_outcome(
                old(level)@,
                x as int,
                y as int,
                d,
                final(level)@,
                r,
            ),
        r ==> final(level)@.at(x as int, y as int).element == Element::Rust,
        !r ==> final(level)@.at(x as int, y as int).element == Element::Iron,
{
    let rusty_neighbour = level.get(x - 1, y).element.causes_rust() || level.get(
        x + 1,
        y,
    ).element.causes_rust() || level.get(x, y - 1).element.causes_rust() || level.get(
        x,
        y + 1,
    ).element.causes_rust();
    let d = if rusty_neighbour {
        level.random(5)
    } else {
        0
    };
    update_iron_with(x, y, d, level)
}

/// One growth step: where `grew`, the cell at `(x, y)` held what plants grow into and
/// `after` is `v` with a plant there; otherwise `after` is `v`.
pub open spec fn plant_step(
    v: SandBoxView,
    x: int,
    y: int,
    after: SandBoxView,
    grew: bool,
) -> bool {
    if grew {
        v.at(x, y).element.grows_plant() && after == v.with_cell(
            x,
            y,
            placed_with(v, Element::Plant, false, after.at(x, y).variant),
        )
    } else {
        after == v
    }
}

/// The plant at `(x, y)` tries its left, right, upper and lower neighbours in turn,
/// passing through `v1`, `v2` and `v3` to `after`.
pub open spec fn plant_outcome(
    before: SandBoxView,
    x: int,
    y: int,
    v1: SandBoxView,
    v2: SandBoxView,
    v3: SandBoxView,
    after: SandBoxView,
    g1: bool,
    g2: bool,
    g3: bool,
    g4: bool,
) -> bool {
    &&& plant_step(before, x - 1, y, v1, g1)
    &&& plant_step(v1, x + 1, y, v2, g2)
    &&& plant_step(v2, x, y - 1, v3, g3)
    &&& plant_step(v3, x, y + 1, after, g4)
}

/// Whether a plant grows into the cell at `(x, y)` of `v` for the draw `d` (below 10):
/// on the two lowest draws, where the cell holds what plants grow into.
pub open spec fn plant_grows(v: SandBoxView, x: int, y: int, d: int) -> bool {
    d <= 1 && v.at(x, y).element.grows_plant()
}

/// A plant grows into the cell at `(x, y)` when the draw `d` allows it.
fn grow_plant_with(level: &mut SandBox, x: usize, y: usize, d: usize) -> (r: bool)
    requires
        old(level).wf(),
        old(level)@.in_bounds(x as int, y as int),
    ensures
        keeps_frame(old(level)@, final(level)@),
        r == plant_grows(old(level)@, x as int, y as int, d as int),
        plant_step(old(level)@, x as int, y as int, final(level)@, r),
{
    if d <= 1 && level.get(x, y).element.grows_plant() {
        level.set_element(x, y, Element::Plant, false);
        return true;
    }
    false
}

/// The plant rule at `(x, y)` for the draws `d1` to `d4` (each below 10) of its left,
/// right, upper and lower neighbours: each neighbour whose draw is at most 1 and that
/// holds what plants grow into turns into a plant; returns whether any did.
pub fn update_plant_with(
    x: usize,
    y: usize,
    d1: usize,
    d2: usize,
    d3: usize,
    d4: usize,
    level: &mut SandBox,
) -> (r: bool)
    requires
        at_interior(old(level)@, x as int, y as int),
    ensures
        keeps_frame(old(level)@, final(level)@),
        exists|v1: SandBoxView, v2: SandBoxView, v3: SandBoxView|
            #[trigger] plant_outcome(
                old(level)@,
                x as int,
                y as int,
                v1,
                v2,
                v3,
                final(level)@,
                plant_grows(old(level)@, x - 1, y as int, d1 as int),
                plant_grows(old(level)@, x + 1, y as int, d2 as int),
                plant_grows(old(level)@, x as int, y - 1, d3 as int),
                plant_grows(old(level)@, x as int, y + 1, d4 as int),
            ),
        r == (plant_grows(old(level)@, x - 1, y as int, d1 as int) || plant_grows(
            old(level)@,
            x + 1,
            y as int,
            d2 as int,
        ) || plant_grows(old(level)@, x as int, y - 1, d3 as int) || plant_grows(
            old(level)@,
            x as int,
            y + 1,
            d4 as int,
        )),
{
    let ghost v0 = level@;
    let ghost (xi, yi) = (x as int, y as int);
    let g1 = grow_plant_with(level, x - 1, y, d1);
    let ghost v1 = level@;
    proof {
        let c = placed_with(v0, Element::Plant, false, v1.at(xi - 1, yi).variant);
        lemma_with_cell_at(v0, xi - 1, yi, c, xi + 1, yi);
        lemma_with_cell_at(v0, xi - 1, yi, c, xi, yi - 1);
        lemma_with_cell_at(v0, xi - 1, yi, c, xi, yi + 1);
    }
    let g2 = grow_plant_with(level, x + 1, y, d2);
    let ghost v2 = level@;
    proof {
        let c = placed_with(v1, Element::Plant, false, v2.at(xi + 1, yi).variant);
        lemma_with_cell_at(v1, xi + 1, yi, c, xi, yi - 1);
        lemma_with_cell_at(v1, xi + 1, yi, c, xi, yi + 1);
    }
    let g3 = grow_plant_with(level, x, y - 1, d3);
    let ghost v3 = level@;
    proof {
        let c = placed_with(v2, Element::Plant, false, v3.at(xi, yi - 1).variant);
        lemma_with_cell_at(v2, xi, yi - 1, c, xi, yi + 1);
    }
    let g4 = grow_plant_with(level, x, y + 1, d4);
    assert(plant_outcome(
        v0,
        xi,
        yi,
        v1,
        v2,
        v3,
        level@,
        plant_grows(v0, xi - 1, yi, d1 as int),
        plant_grows(v0, xi + 1, yi, d2 as int),
        plant_grows(v0, xi, yi - 1, d3 as int),
        plant_grows(v0, xi, yi + 1, d4 as int),
    ));
    g1 || g2 || g3 || g4
}

/// A plant spreads into each of its four neighbours that plants grow into, each with a
/// chance of one in five; returns whether it grew at all.
pub fn update_plant(x: usize, y: usize, level: &mut SandBox) -> (r: bool)
    requires
        at_interior(old(level)@, x as int, y as int),
    ensures
        keeps_frame(old(level)@, final(level)@),
        exists|v1: SandBoxView, v2: SandBoxView, v3: SandBoxView, g1: bool, g2: bool, g3: bool, g4: bool|
            #[trigger] plant_outcome(
                old(level)@,
                x as int,
                y as int,
                v1,
                v2,
                v3,
                final(level)@,
                g1,
                g2,
                g3,
                g4,
            ) && r == (g1 || g2 || g3 || g4),
{
    let d1 = level.random(10);
    let d2 = level.random(10);
    let d3 = level.random(10);
    let d4 = level.random(10);
    update_plant_with(x, y, d1, d2, d3, d4, level)
}

/// The element that a source element emits.
pub open spec fn source_of(e: Element) -> Option<Element> {
    match e {
        Element::WaterSource => Some(Element::Water),
        Element::AcidSource => Some(Element::Acid),
        Element::OilSource => Some(Element::Oil),
        Element::LavaSource => Some(Element::Lava),
        Element::FireSource => Some(Element::Fire),
        _ => None,
    }
}

/// Elements that never act on their own.
pub open spec fn is_static(e: Element) -> bool {
    e == Element::Wood || e == Element::Rock || e == Element::Indestructible
}

/// `v` with the cell at `(x, y)` stamped with the current parity.
pub open spec fn stamped(v: SandBoxView, x: int, y: int) -> SandBoxView {
    v.with_cell(x, y, Cell { visited: v.visited_state, ..v.at(x, y) })
}

/// What the rule of the element at `(x, y)` may do to `v`: `after` is the grid it
/// leaves and `r` whether it took care of stamping the cell.
pub open spec fn rule_outcome(v: SandBoxView, x: int, y: int, after: SandBoxView, r: bool) -> bool {
    let n = live_neighbours(v, x, y);
    match v.at(x, y).element {
        Element::Air => r == (n == 3) && after == if r {
            v.with_cell(x, y, placed(v, x, y, Element::Life, false))
        } else {
            v
        },
        Element::Life => r == (n < 2 || n > 3) && after == if r {
            v.with_cell(x, y, placed(v, x, y, Element::Air, false))
        } else {
            v
        },
        Element::Sand | Element::Ash | Element::Rust => exists|nx: int|
            (nx == x - 1 || nx == x + 1) && #[trigger] sand_outcome(v, x, y, nx, after, r),
        Element::Water => exists|d: int| 0 <= d < 60 && #[trigger] water_outcome(v, x, y, d, after, r),
        Element::Acid => exists|d: int| 0 <= d < 60 && #[trigger] acid_outcome(v, x, y, d, after, r),
        Element::Oil => exists|d: int| 0 <= d < 500 && #[trigger] oil_outcome(v, x, y, d, after, r),
        Element::Drain => drain_outcome(v, x, y, after, r),
        Element::Fire => exists|d: int| 0 <= d < 5 && #[trigger] fire_outcome(v, x, y, d, after, r),
        Element::Lava => exists|d: int, nx: int, sv: u8|
            0 <= d < 500 && (nx == x - 1 || nx == x + 1) && #[trigger] lava_outcome(
                v,
                x,
                y,
                d,
                nx,
                sv,
                after,
                r,
            ),
        Element::Smoke => exists|d: int| 0 <= d < 5 && #[trigger] smoke_outcome(v, x, y, d, after, r),
        Element::Iron => exists|d: int| 0 <= d < 5 && #[trigger] iron_outcome(v, x, y, d, after, r),
        Element::Plant => exists|
            v1: SandBoxView,
            v2: SandBoxView,
            v3: SandBoxView,
            g1: bool,
            g2: bool,
            g3: bool,
            g4: bool,
        |
            #[trigger] plant_outcome(v, x, y, v1, v2, v3, after, g1, g2, g3, g4) && r == (g1 || g2
                || g3 || g4),
        Element::WaterSource => source_outcome(v, x, y, Element::Water, after, r),
        Element::AcidSource => source_outcome(v, x, y, Element::Acid, after, r),
        Element::OilSource => source_outcome(v, x, y, Element::Oil, after, r),
        Element::LavaSource => source_outcome(v, x, y, Element::Lava, after, r),
        Element::FireSource => source_outcome(v, x, y, Element::Fire, after, r),
        Element::Wood | Element::Rock | Element::Indestructible => !r && after == v,
    }
}

/// Runs the rule of the cell at `(x, y)` unless the cell was already handled in this
/// sweep, then stamps the cell unless the rule took care of that.
pub fn update_cell(x: usize, y: usize, level: &mut SandBox)
    requires
        old(level).wf(),
        old(level)@.in_bounds(x as int, y as int),
        old(level)@.at(x as int, y as int).visited != old(level)@.visited_state ==> old(
            level,
        )@.is_interior(x as int, y as int),
    ensures
        keeps_frame(old(level)@, final(level)@),
        old(level)@.at(x as int, y as int).visited == old(level)@.visited_state ==> final(level)@
            == old(level)@,
        old(level)@.at(x as int, y as int).visited != old(level)@.visited_state && is_static(
            old(level)@.at(x as int, y as int).element,
        ) ==> final(level)@ == stamped(old(level)@, x as int, y as int),
        old(level)@.at(x as int, y as int).visited != old(level)@.visited_state && old(level)@.at(
            x as int,
            y as int,
        ).element == Element::Air ==> final(level)@ == if live_neighbours(
            old(level)@,
            x as int,
            y as int,
        ) == 3 {
            old(level)@.with_cell(
                x as int,
                y as int,
                placed(old(level)@, x as int, y as int, Element::Life, false),
            )
        } else {
            stamped(old(level)@, x as int, y as int)
        },
        old(level)@.at(x as int, y as int).visited != old(level)@.visited_state && old(level)@.at(
            x as int,
            y as int,
        ).element == Element::Life ==> final(level)@ == if live_neighbours(
            old(level)@,
            x as int,
            y as int,
        ) < 2 || live_neighbours(old(level)@, x as int, y as int) > 3 {
            old(level)@.with_cell(
                x as int,
                y as int,
                placed(old(level)@, x as int, y as int, Element::Air, false),
            )
        } else {
            stamped(old(level)@, x as int, y as int)
        },
        old(level)@.at(x as int, y as int).visited != old(level)@.visited_state && old(level)@.at(
            x as int,
            y as int,
        ).element == Element::Sand && sand_sinks_into(old(level)@.at(x as int, y as int + 1).element)
            ==> final(level)@ == old(level)@.swapped(x as int, y as int, x as int, y as int + 1),
        old(level)@.at(x as int, y as int).visited != old(level)@.visited_state && old(level)@.at(
            x as int,
            y as int,
        ).element == Element::Sand && y + 2 == old(level)@.height ==> final(level)@ == stamped(
            old(level)@,
            x as int,
            y as int,
        ),
        old(level)@.at(x as int, y as int).visited != old(level)@.visited_state && source_of(
            old(level)@.at(x as int, y as int).element,
        ) is Some ==> ({
            let k = source_of(old(level)@.at(x as int, y as int).element)->0;
            let below = old(level)@.at(x as int, y as int + 1).element;
            &&& below == k ==> final(level)@ == stamped(old(level)@, x as int, y as int)
            &&& below != k && below != Element::Indestructible ==> final(level)@.at(
                x as int,
                y as int + 1,
            ).element == k
        }),
        water_world(old(level)@) ==> water_world(final(level)@) && water_count(final(level)@.cells)
            == water_count(old(level)@.cells),
        old(level)@.at(x as int, y as int).visited != old(level)@.visited_state ==> exists|
            after: SandBoxView,
            r: bool,
        |
            #[trigger] rule_outcome(old(level)@, x as int, y as int, after, r) && final(level)@
                == if r {
                after
            } else {
                stamped(after, x as int, y as int)
            },
{
    let cell = *level.get(x, y);
    if cell.visited == level.is_visited_state() {
        return;
    }
    let marked_as_visited = match cell.element {
        Element::Air => update_air(x, y, level),
        Element::Sand => update_sand(x, y, level),
        Element::Water => update_water(x, y, level),
        Element::Acid => update_acid(x, y, level),
        Element::Oil => update_oil(x, y, level),
        Element::Drain => update_drain(x, y, level),
        Element::Fire => update_fire(x, y, level),
        Element::Ash => update_ash(x, y, level),
        Element::Lava => update_lava(x, y, level),
        Element::Smoke => update_smoke(x, y, level),
        Element::Life => update_life(x, y, level),
        Element::Iron => update_iron(x, y, level),
        Element::Rust => update_sand(x, y, level),
        Element::Plant => update_plant(x, y, level),
        Element::Wood => false,
        Element::Rock => false,
        Element::Indestructible => false,
        Element::WaterSource => update_source(x, y, Element::Water, level),
        Element::AcidSource => update_source(x, y, Element::Acid, level),
        Element::OilSource => update_source(x, y, Element::Oil, level),
        Element::LavaSource => update_source(x, y, Element::Lava, level),
        Element::FireSource => update_source(x, y, Element::Fire, level),
    };
    let ghost mid = level@;
    assert(rule_outcome(old(level)@, x as int, y as int, mid, marked_as_visited));
    if !marked_as_visited {
        level.set_visited(x, y);
    }
    proof {
        let v = old(level)@;
        if water_world(v) {
            assert(v.at(x as int, y as int) == v.at(x as int, y as int));
            if cell.element == Element::Water {
                let d = choose|d: int|
                    0 <= d < 60 && water_outcome(v, x as int, y as int, d, mid, marked_as_visited);
                lemma_water_outcome_in_water_world(v, x as int, y as int, d, mid, marked_as_visited);
            } else {
                lemma_no_life(v, x as int, y as int);
            }
            if !marked_as_visited {
                lemma_stamp_keeps_water(mid, x as int, y as int);
            }
        }
    }
}

/// One step of a sweep at `(x, y)`: a cell already handled this tick stays as it is;
/// otherwise its rule runs, and the cell is stamped unless the rule took care of that.
pub open spec fn cell_step(v: SandBoxView, x: int, y: int, after: SandBoxView) -> bool {
    if v.at(x, y).visited == v.visited_state {
        after == v
    } else {
        exists|mid: SandBoxView, r: bool|
            #[trigger] rule_outcome(v, x, y, mid, r) && after == if r {
                mid
            } else {
                stamped(mid, x, y)
            }
    }
}

/// The interior positions of row `y` of a grid `w` wide, left to right when `forward`,
/// else right to left.
pub open spec fn row_order(w: int, y: int, forward: bool) -> Seq<(int, int)> {
    Seq::new(
        (w - 2) as nat,
        |i: int|
            if forward {
                (1 + i, y)
            } else {
                (w - 2 - i, y)
            },
    )
}

/// The interior positions of rows `h - 2` down to `y` of a `w` by `h` grid, in sweep
/// order.
pub open spec fn rows_order(w: int, h: int, y: int, forward: bool) -> Seq<(int, int)>
    decreases h - y,
{
    if y > h - 2 {
        Seq::empty()
    } else {
        rows_order(w, h, y + 1, forward) + row_order(w, y, forward)
    }
}

/// `states` runs from `v` to `after`, each state following from the one before by
/// handling the next position of `order`.
pub open spec fn chain_states(
    v: SandBoxView,
    order: Seq<(int, int)>,
    states: Seq<SandBoxView>,
    after: SandBoxView,
) -> bool {
    &&& states.len() == order.len() + 1
    &&& states[0] == v
    &&& states.last() == after
    &&& forall|i: int|
        0 <= i < order.len() ==> #[trigger] cell_step(states[i], order[i].0, order[i].1, states[i + 1])
}

/// Handling the positions of `order` one after the other takes `v` to `after`.
pub open spec fn sweep_chain(v: SandBoxView, order: Seq<(int, int)>, after: SandBoxView) -> bool {
    exists|states: Seq<SandBoxView>| #[trigger] chain_states(v, order, states, after)
}

/// An empty sweep leaves the grid as it is.
proof fn lemma_sweep_chain_empty(v: SandBoxView, order: Seq<(int, int)>)
    requires
        order.len() == 0,
    ensures
        sweep_chain(v, order, v),
{
    assert(chain_states(v, order, seq![v], v));
}

/// A sweep chain grows by one position of a row.
proof fn lemma_sweep_chain_push(
    s0: SandBoxView,
    done_rows: Seq<(int, int)>,
    row: Seq<(int, int)>,
    k: int,
    v: SandBoxView,
    v2: SandBoxView,
)
    requires
        0 <= k < row.len(),
        sweep_chain(s0, done_rows + row.take(k), v),
        cell_step(v, row[k].0, row[k].1, v2),
    ensures
        sweep_chain(s0, done_rows + row.take(k + 1), v2),
{
    let shorter = done_rows + row.take(k);
    let longer = done_rows + row.take(k + 1);
    let states = choose|states: Seq<SandBoxView>| chain_states(s0, shorter, states, v);
    let more = states.push(v2);
    assert(longer =~= shorter.push(row[k]));
    assert forall|i: int| 0 <= i < longer.len() implies #[trigger] cell_step(
        more[i],
        longer[i].0,
        longer[i].1,
        more[i + 1],
    ) by {
        if i < shorter.len() {
            assert(cell_step(states[i], shorter[i].0, shorter[i].1, states[i + 1]));
        }
    }
    assert(chain_states(s0, longer, more, v2));
}

/// One tick: when running or when a single step was asked for, consumes the step
/// request, flips the parity and hands every interior cell to `update_cell`, rows
/// bottom-up, left to right under the new parity and right to left otherwise. The
/// border is never touched. A lone grain of sand on a settled grid falls one row per
/// tick until it lies on the floor, and a grid of water and air keeps its water.
pub fn level_updater(level: &mut SandBox, simulation: &mut Simulation)
    requires
        old(level).wf(),
    ensures
        final(level).wf(),
        final(level)@.width == old(level)@.width,
        final(level)@.height == old(level)@.height,
        old(level)@.border_kept(final(level)@),
        old(simulation).running || old(simulation).step ==> sweep_chain(
            SandBoxView { visited_state: !old(level)@.visited_state, ..old(level)@ },
            rows_order(
                old(level)@.width as int,
                old(level)@.height as int,
                1,
                !old(level)@.visited_state,
            ),
            final(level)@,
        ),
        final(simulation).running == old(simulation).running,
        final(simulation).frame_time_ms == old(simulation).frame_time_ms,
        !final(simulation).step,
        old(simulation).running || old(simulation).step ==> final(level)@.visited_state == !old(
            level,
        )@.visited_state,
        !(old(simulation).running || old(simulation).step) ==> final(level)@ == old(level)@,
        old(simulation).running || old(simulation).step ==> forall|sx: int, sy: int|
            #[trigger] lone_sand(old(level)@, sx, sy) ==> lone_sand(
                final(level)@,
                sx,
                sand_row_after_tick(sy, old(level)@.height as int),
            ),
        water_world(old(level)@) ==> water_world(final(level)@) && water_count(final(level)@.cells)
            == water_count(old(level)@.cells),
{
    if simulation.running || simulation.step {
        simulation.step = false;
        let ghost before = level@;
        let visited = level.toggle_visited_state();
        let ghost s0 = level@;
        let ghost quiet = exists|sx: int, sy: int| lone_sand(before, sx, sy);
        let ghost (sx, sy) = if quiet {
            choose|sx: int, sy: int| lone_sand(before, sx, sy)
        } else {
            (1int, 1int)
        };
        let ghost ty = sand_row_after_tick(sy, s0.height as int);
        let ghost wet = water_world(before);
        proof {
            if wet {
                assert forall|a: int, b: int| #![trigger s0.at(a, b)] s0.is_interior(a, b) implies s0.at(
                    a,
                    b,
                ).element == Element::Air || s0.at(a, b).element == Element::Water by {
                    assert(before.at(a, b) == s0.at(a, b));
                }
            }
            if quiet {
                assert forall|a: int, b: int| #![trigger s0.at(a, b)] s0.is_interior(a, b) implies s0.at(
                    a,
                    b,
                ).visited != s0.visited_state && s0.at(a, b).element == if a == sx && b == sy {
                    Element::Sand
                } else {
                    Element::Air
                } by {
                    assert(before.at(a, b) == s0.at(a, b));
                }
            }
        }
        let width = level.width() - 1;
        let height = level.height() - 1;
        proof {
            lemma_sweep_chain_empty(s0, rows_order(width + 1, height + 1, height as int, visited));
        }
        let mut y: usize = height;
        while y > 1
            invariant
                1 <= y <= height,
                level.wf(),
                level@.same_frame(s0),
                s0.border_kept(level@),
                s0.width == width + 1,
                s0.height == height + 1,
                s0.visited_state == visited,
                quiet ==> lone_sand_at(s0, sx, sy),
                quiet ==> forall|a: int, b: int|
                    #![trigger s0.at(a, b)]
                    s0.is_interior(a, b) ==> s0.at(a, b).visited != s0.visited_state,
                quiet ==> ty == sand_row_after_tick(sy, s0.height as int),
                wet ==> water_world(level@),
                wet ==> water_count(level@.cells) == water_count(before.cells),
                quiet ==> sand_sweep(s0, level@, sx, sy, ty, |a: int, b: int| b >= y),
                sweep_chain(s0, rows_order(width + 1, height + 1, y as int, visited), level@),
            decreases y,
        {
            y = y - 1;
            proof {
                let row = row_order(width + 1, y as int, visited);
                assert(rows_order(width + 1, height + 1, y + 1, visited) + row.take(0)
                    =~= rows_order(width + 1, height + 1, y + 1, visited));
            }
            if visited {
                let mut x: usize = 1;
                while x < width
                    invariant
                        visited,
                        1 <= x <= width,
                        1 <= y < height,
                        level.wf(),
                        level@.same_frame(s0),
                        s0.border_kept(level@),
                        s0.width == width + 1,
                        s0.height == height + 1,
                        s0.visited_state == visited,
                        quiet ==> lone_sand_at(s0, sx, sy),
                        quiet ==> forall|a: int, b: int|
                            #![trigger s0.at(a, b)]
                            s0.is_interior(a, b) ==> s0.at(a, b).visited != s0.visited_state,
                        quiet ==> ty == sand_row_after_tick(sy, s0.height as int),
                        wet ==> water_world(level@),
                        wet ==> water_count(level@.cells) == water_count(before.cells),
                        sweep_chain(
                            s0,
                            rows_order(width + 1, height + 1, y + 1, visited) + row_order(
                                width + 1,
                                y as int,
                                visited,
                            ).take(x - 1),
                            level@,
                        ),
                        quiet ==> sand_sweep(
                            s0,
                            level@,
                            sx,
                            sy,
                            ty,
                            |a: int, b: int| b > y || (b == y && a < x),
                        ),
                    decreases width - x,
                {
                    let ghost v = level@;
                    let ghost done = |a: int, b: int| b > y || (b == y && a < x);
                    let ghost done2 = |a: int, b: int| b > y || (b == y && a < x + 1);
                    proof {
                        if quiet {
                            lemma_sand_sweep_ready(s0, v, sx, sy, ty, x as int, y as int, done);
                        }
                    }
                    update_cell(x, y, level);
                    proof {
                        assert(row_order(width + 1, y as int, visited)[x - 1] == (
                            x as int,
                            y as int,
                        ));
                        assert(cell_step(v, x as int, y as int, level@));
                        lemma_sweep_chain_push(
                            s0,
                            rows_order(width + 1, height + 1, y + 1, visited),
                            row_order(width + 1, y as int, visited),
                            x - 1,
                            v,
                            level@,
                        );
                        if quiet {
                            lemma_sand_sweep_step(
                                s0,
                                v,
                                level@,
                                sx,
                                sy,
                                ty,
                                x as int,
                                y as int,
                                done,
                                done2,
                            );
                        }
                    }
                    x = x + 1;
                }
            } else {
                let mut x: usize = width;
                while x > 1
                    invariant
                        !visited,
                        1 <= x <= width,
                        1 <= y < height,
                        level.wf(),
                        level@.same_frame(s0),
                        s0.border_kept(level@),
                        s0.width == width + 1,
                        s0.height == height + 1,
                        s0.visited_state == visited,
                        quiet ==> lone_sand_at(s0, sx, sy),
                        quiet ==> forall|a: int, b: int|
                            #![trigger s0.at(a, b)]
                            s0.is_interior(a, b) ==> s0.at(a, b).visited != s0.visited_state,
                        quiet ==> ty == sand_row_after_tick(sy, s0.height as int),
                        wet ==> water_world(level@),
                        wet ==> water_count(level@.cells) == water_count(before.cells),
                        sweep_chain(
                            s0,
                            rows_order(width + 1, height + 1, y + 1, visited) + row_order(
                                width + 1,
                                y as int,
                                visited,
                            ).take(width - x),
                            level@,
                        ),
                        quiet ==> sand_sweep(
                            s0,
                            level@,
                            sx,
                            sy,
                            ty,
                            |a: int, b: int| b > y || (b == y && a >= x),
                        ),
                    decreases x,
                {
                    x = x - 1;
                    let ghost v = level@;
                    let ghost done = |a: int, b: int| b > y || (b == y && a >= x + 1);
                    let ghost done2 = |a: int, b: int| b > y || (b == y && a >= x);
                    proof {
                        if quiet {
                            lemma_sand_sweep_ready(s0, v, sx, sy, ty, x as int, y as int, done);
                        }
                    }
                    update_cell(x, y, level);
                    proof {
                        assert(row_order(width + 1, y as int, visited)[width - 1 - x] == (
                            x as int,
                            y as int,
                        ));
                        assert(cell_step(v, x as int, y as int, level@));
                        lemma_sweep_chain_push(
                            s0,
                            rows_order(width + 1, height + 1, y + 1, visited),
                            row_order(width + 1, y as int, visited),
                            width - 1 - x,
                            v,
                            level@,
                        );
                        if quiet {
                            lemma_sand_sweep_step(
                                s0,
                                v,
                                level@,
                                sx,
                                sy,
                                ty,
                                x as int,
                                y as int,
                                done,
                                done2,
                            );
                        }
                    }
                }
            }
            proof {
                let row = row_order(width + 1, y as int, visited);
                assert(row.take(width - 1) =~= row);
                assert(rows_order(width + 1, height + 1, y as int, visited) == rows_order(
                    width + 1,
                    height + 1,
                    y + 1,
                    visited,
                ) + row);
            }
        }
        proof {
            if quiet {
                let fin = level@;
                assert forall|sx2: int, sy2: int| #[trigger] lone_sand(before, sx2, sy2) implies lone_sand(
                    fin,
                    sx2,
                    sand_row_after_tick(sy2, before.height as int),
                ) by {
                    assert(before.at(sx2, sy2).element == Element::Sand);
                    assert(sx2 == sx && sy2 == sy);
                    assert forall|a: int, b: int| #![trigger fin.at(a, b)] fin.is_interior(a, b) implies fin.at(
                        a,
                        b,
                    ).visited == fin.visited_state && fin.at(a, b).element == if a == sx && b == ty {
                        Element::Sand
                    } else {
                        Element::Air
                    } by {
                        assert(s0.is_interior(a, b));
                    }
                }
            }
        }
    }
}

} // verus!
