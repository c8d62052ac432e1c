use vstd::prelude::*;

use crate::cell::Cell;
use crate::element::Element;
use crate::sandbox::{lemma_pos_in_range, lemma_with_cell_at, SandBoxView};
use crate::simulation::{
    lateral_column, life_at, live_neighbours, sand_sinks_into, stamped, water_fall_column,
    water_outcome, water_spread, water_touch,
};

verus! {

// Facts about whole sweeps over grids of a simple make-up: what one tick does to a lone
// grain of sand, and that a world of water and air keeps its water.
/// How many cells of `s` hold water.
pub open spec fn water_count(s: Seq<Cell>) -> nat
    decreases s.len(),
{
    if s.len() == 0 {
        0
    } else {
        water_count(s.drop_last()) + if s.last().element == Element::Water {
            1nat
        } else {
            0nat
        }
    }
}

/// 1 for a water cell, else 0.
pub open spec fn water_unit(c: Cell) -> nat {
    if c.element == Element::Water {
        1
    } else {
        0
    }
}

/// Replacing one cell changes the water count by what leaves and what comes in.
pub proof fn lemma_water_count_update(s: Seq<Cell>, i: int, c: Cell)
    requires
        0 <= i < s.len(),
    ensures
        water_count(s.update(i, c)) + water_unit(s[i]) == water_count(s) + water_unit(c),
    decreases s.len(),
{
    if i == s.len() - 1 {
        assert(s.update(i, c).drop_last() =~= s.drop_last());
    } else {
        lemma_water_count_update(s.drop_last(), i, c);
        assert(s.update(i, c).drop_last() =~= s.drop_last().update(i, c));
    }
}

/// Inside the border of `v` there is only air and water.
pub open spec fn water_world(v: SandBoxView) -> bool {
    forall|a: int, b: int|
        #![trigger v.at(a, b)]
        v.is_interior(a, b) ==> v.at(a, b).element == Element::Air || v.at(a, b).element
            == Element::Water
}

/// Stamping a cell changes neither what the cells hold nor the water count.
pub proof fn lemma_stamp_keeps_water(v: SandBoxView, x: int, y: int)
    requires
        v.wf(),
        v.is_interior(x, y),
        water_world(v),
    ensures
        water_world(stamped(v, x, y)),
        water_count(stamped(v, x, y).cells) == water_count(v.cells),
{
    let c = Cell { visited: v.visited_state, ..v.at(x, y) };
    lemma_pos_in_range(v.width as int, v.height as int, x, y);
    lemma_water_count_update(v.cells, v.pos(x, y), c);
    let n = stamped(v, x, y);
    assert forall|a: int, b: int| #![trigger n.at(a, b)] n.is_interior(a, b) implies n.at(a, b).element
        == Element::Air || n.at(a, b).element == Element::Water by {
        lemma_with_cell_at(v, x, y, c, a, b);
        assert(v.at(a, b) == v.at(a, b));
    }
}

/// Water trading places with air keeps a water world and its water count.
pub proof fn lemma_swap_keeps_water(v: SandBoxView, x: int, y: int, c: int, d: int)
    requires
        v.wf(),
        v.is_interior(x, y),
        v.in_bounds(c, d),
        water_world(v),
        v.at(x, y).element == Element::Water,
        v.at(c, d).element == Element::Air,
    ensures
        water_world(v.swapped(x, y, c, d)),
        water_count(v.swapped(x, y, c, d).cells) == water_count(v.cells),
{
    let a0 = v.at(x, y);
    let b0 = v.at(c, d);
    let c1 = Cell { visited: v.visited_state, ..b0 };
    let c2 = Cell { visited: v.visited_state, ..a0 };
    let mid = v.with_cell(x, y, c1);
    lemma_pos_in_range(v.width as int, v.height as int, x, y);
    lemma_pos_in_range(v.width as int, v.height as int, c, d);
    lemma_water_count_update(v.cells, v.pos(x, y), c1);
    lemma_with_cell_at(v, x, y, c1, c, d);
    lemma_water_count_update(mid.cells, mid.pos(c, d), c2);
    let n = v.swapped(x, y, c, d);
    assert forall|a: int, b: int| #![trigger n.at(a, b)] n.is_interior(a, b) implies n.at(a, b).element
        == Element::Air || n.at(a, b).element == Element::Water by {
        lemma_with_cell_at(v, x, y, c1, a, b);
        lemma_with_cell_at(mid, c, d, c2, a, b);
        assert(v.at(a, b) == v.at(a, b));
    }
}

/// In a water world, water touching a cell either trades places with air or does
/// nothing.
pub proof fn lemma_water_touch_in_water_world(
    v: SandBoxView,
    x: int,
    y: int,
    c: int,
    d: int,
    random: int,
    sv: u8,
)
    requires
        v.wf(),
        v.is_interior(x, y),
        v.in_bounds(c, d),
        water_world(v),
    ensures
        water_touch(v, x, y, c, d, random, sv) is Some ==> v.at(c, d).element == Element::Air
            && water_touch(v, x, y, c, d, random, sv) == Some((v.swapped(x, y, c, d), true)),
{
    if !v.is_interior(c, d) {
        assert(v.on_border(c, d));
    } else {
        assert(v.at(c, d) == v.at(c, d));
    }
}

/// In a water world, water spreading sideways either trades places with air somewhere
/// in its row or leaves the grid as it is.
pub proof fn lemma_water_spread_in_water_world(
    v: SandBoxView,
    x: int,
    y: int,
    random: int,
    n: int,
    after: SandBoxView,
    r: bool,
)
    requires
        v.wf(),
        v.is_interior(x, y),
        water_world(v),
        v.at(x, y).element == Element::Water,
        1 <= n,
        water_spread(v, x, y, random, n, after, r),
    ensures
        (!r && after == v) || (r && water_world(after) && water_count(after.cells) == water_count(
            v.cells,
        )),
    decreases 17 - n,
{
    if n <= 16 {
        match lateral_column(x, n, random < 30, v.width as int) {
            None => {
                lemma_water_spread_in_water_world(v, x, y, random, n + 1, after, r);
            },
            Some(cx) => {
                lemma_water_touch_in_water_world(v, x, y, cx, y, random, after.at(cx, y).variant);
                if water_touch(v, x, y, cx, y, random, after.at(cx, y).variant) is Some {
                    lemma_swap_keeps_water(v, x, y, cx, y);
                } else if v.at(cx, y).element == Element::Water {
                    lemma_water_spread_in_water_world(v, x, y, random, n + 1, after, r);
                }
            },
        }
    }
}

/// In a water world, the water rule either trades a water cell with an air cell or
/// leaves the grid as it is.
pub proof fn lemma_water_outcome_in_water_world(
    v: SandBoxView,
    x: int,
    y: int,
    d: int,
    after: SandBoxView,
    r: bool,
)
    requires
        v.wf(),
        v.is_interior(x, y),
        water_world(v),
        v.at(x, y).element == Element::Water,
        0 <= d < 60,
        water_outcome(v, x, y, d, after, r),
    ensures
        (!r && after == v) || (r && water_world(after) && water_count(after.cells) == water_count(
            v.cells,
        )),
{
    let cx = water_fall_column(x, d);
    lemma_water_touch_in_water_world(v, x, y, cx, y + 1, d, after.at(cx, y + 1).variant);
    if water_touch(v, x, y, cx, y + 1, d, after.at(cx, y + 1).variant) is Some {
        lemma_swap_keeps_water(v, x, y, cx, y + 1);
    } else {
        lemma_water_spread_in_water_world(v, x, y, d, 1, after, r);
    }
}

/// Every interior cell carries the current parity, as a finished sweep leaves them.
pub open spec fn settled(v: SandBoxView) -> bool {
    forall|a: int, b: int|
        #![trigger v.at(a, b)]
        v.is_interior(a, b) ==> v.at(a, b).visited == v.visited_state
}

/// Inside the border of `v`, the cell at `(sx, sy)` holds sand and every other one air.
pub open spec fn lone_sand_at(v: SandBoxView, sx: int, sy: int) -> bool {
    &&& v.is_interior(sx, sy)
    &&& forall|a: int, b: int|
        #![trigger v.at(a, b)]
        v.is_interior(a, b) ==> v.at(a, b).element == if a == sx && b == sy {
            Element::Sand
        } else {
            Element::Air
        }
}

/// A settled, well-formed grid whose only content is one grain of sand at `(sx, sy)`.
pub open spec fn lone_sand(v: SandBoxView, sx: int, sy: int) -> bool {
    v.wf() && settled(v) && lone_sand_at(v, sx, sy)
}

/// Where a lone grain of sand at row `sy` is after one tick on a grid `h` high: one row
/// lower, unless it already lies on the floor.
pub open spec fn sand_row_after_tick(sy: int, h: int) -> int {
    if sy + 2 < h {
        sy + 1
    } else {
        sy
    }
}

/// Part way through a sweep that started at `s0` with a lone grain at `(sx, sy)`: the
/// cells in `done` were handled and hold air stamped with the parity, but for the grain,
/// which lies stamped at `(sx, ty)` once its own cell was handled; the others are as
/// they were.
pub open spec fn sand_sweep(
    s0: SandBoxView,
    v: SandBoxView,
    sx: int,
    sy: int,
    ty: int,
    done: spec_fn(int, int) -> bool,
) -> bool {
    &&& v.wf()
    &&& v.same_frame(s0)
    &&& forall|a: int, b: int|
        #![trigger v.at(a, b)]
        s0.is_interior(a, b) ==> if done(a, b) {
            &&& v.at(a, b).visited == s0.visited_state
            &&& v.at(a, b).element == if a == sx && b == ty && done(sx, sy) {
                Element::Sand
            } else {
                Element::Air
            }
        } else {
            v.at(a, b) == s0.at(a, b)
        }
}

/// With no life on the grid, no cell has living neighbours.
pub proof fn lemma_no_life(v: SandBoxView, x: int, y: int)
    requires
        v.wf(),
        v.is_interior(x, y),
        forall|a: int, b: int|
            #![trigger v.at(a, b)]
            v.is_interior(a, b) ==> v.at(a, b).element != Element::Life,
    ensures
        live_neighbours(v, x, y) == 0,
{
    assert forall|a: int, b: int| x - 1 <= a <= x + 1 && y - 1 <= b <= y + 1 implies life_at(v, a, b)
        == 0 by {
        if !v.is_interior(a, b) {
            assert(v.on_border(a, b));
            assert(v.at(a, b).element == Element::Indestructible);
        } else {
            assert(v.at(a, b).element != Element::Life);
        }
    }
}

/// Handling one more cell `(x, y)` of a lone-grain sweep keeps the sweep's description.
pub proof fn lemma_sand_sweep_step(
    s0: SandBoxView,
    v: SandBoxView,
    v2: SandBoxView,
    sx: int,
    sy: int,
    ty: int,
    x: int,
    y: int,
    done: spec_fn(int, int) -> bool,
    done2: spec_fn(int, int) -> bool,
)
    requires
        sand_sweep(s0, v, sx, sy, ty, done),
        s0.is_interior(x, y),
        lone_sand_at(s0, sx, sy),
        ty == sand_row_after_tick(sy, s0.height as int),
        !done(x, y),
        forall|a: int, b: int| #[trigger] done2(a, b) == (done(a, b) || (a == x && b == y)),
        forall|a: int| #[trigger] done(a, y + 1) || !s0.is_interior(a, y + 1),
        forall|a: int, b: int| #[trigger] done(a, b) ==> b >= y,
        x == sx && y == sy && sy + 2 < s0.height ==> v2 == v.swapped(x, y, x, y + 1),
        !(x == sx && y == sy && sy + 2 < s0.height) ==> v2 == stamped(v, x, y),
        v2.wf(),
        v2.same_frame(v),
    ensures
        sand_sweep(s0, v2, sx, sy, ty, done2),
{
    assert forall|a: int, b: int| #![trigger v2.at(a, b)] s0.is_interior(a, b) implies if done2(a, b) {
        &&& v2.at(a, b).visited == s0.visited_state
        &&& v2.at(a, b).element == if a == sx && b == ty && done2(sx, sy) {
            Element::Sand
        } else {
            Element::Air
        }
    } else {
        v2.at(a, b) == s0.at(a, b)
    } by {
        assert(done2(a, b) == (done(a, b) || (a == x && b == y)));
        assert(done2(sx, sy) == (done(sx, sy) || (sx == x && sy == y)));
        if x == sx && y == sy && sy + 2 < s0.height {
            let c1 = Cell { visited: v.visited_state, ..v.at(x, y + 1) };
            let c2 = Cell { visited: v.visited_state, ..v.at(x, y) };
            let mid = v.with_cell(x, y, c1);
            lemma_pos_in_range(v.width as int, v.height as int, x, y);
            lemma_with_cell_at(v, x, y, c1, a, b);
            lemma_with_cell_at(v, x, y, c1, x, y + 1);
            lemma_with_cell_at(mid, x, y + 1, c2, a, b);
            assert(s0.is_interior(x, y + 1));
            assert(done(x, y + 1));
            assert(ty == y + 1);
            assert(v.at(x, y + 1).visited == s0.visited_state);
            assert(v.at(x, y + 1).element == Element::Air);
            assert(s0.at(x, y).element == Element::Sand);
            assert(v.at(x, y).element == Element::Sand);
            if a == x && b == y + 1 {
                assert(v2.at(a, b) == c2);
                assert(c2.element == Element::Sand);
            } else if a == x && b == y {
                assert(v2.at(a, b) == c1);
            } else {
                assert(v2.at(a, b) == v.at(a, b));
            }
        } else {
            let c = Cell { visited: v.visited_state, ..v.at(x, y) };
            lemma_with_cell_at(v, x, y, c, a, b);
            if a == x && b == y {
                assert(v2.at(a, b) == c);
                assert(v.at(x, y) == s0.at(x, y));
                if x == sx && y == sy {
                    assert(ty == sy);
                }
            } else {
                assert(v2.at(a, b) == v.at(a, b));
            }
        }
    }
}

/// Before handling `(x, y)` in a lone-grain sweep, the cell is unhandled and either air
/// with no living neighbours or the grain itself, which sinks into air below unless it
/// lies on the floor.
pub proof fn lemma_sand_sweep_ready(
    s0: SandBoxView,
    v: SandBoxView,
    sx: int,
    sy: int,
    ty: int,
    x: int,
    y: int,
    done: spec_fn(int, int) -> bool,
)
    requires
        sand_sweep(s0, v, sx, sy, ty, done),
        lone_sand_at(s0, sx, sy),
        forall|a: int, b: int|
            #![trigger s0.at(a, b)]
            s0.is_interior(a, b) ==> s0.at(a, b).visited != s0.visited_state,
        s0.is_interior(x, y),
        ty == sand_row_after_tick(sy, s0.height as int),
        !done(x, y),
        forall|a: int| #[trigger] done(a, y + 1) || !s0.is_interior(a, y + 1),
        forall|a: int, b: int| #[trigger] done(a, b) ==> b >= y,
    ensures
        v.at(x, y).visited != v.visited_state,
        !(x == sx && y == sy) ==> v.at(x, y).element == Element::Air && live_neighbours(v, x, y) == 0,
        x == sx && y == sy ==> v.at(x, y).element == Element::Sand,
        x == sx && y == sy && sy + 2 < s0.height ==> sand_sinks_into(v.at(x, y + 1).element),
{
    assert(v.at(x, y) == s0.at(x, y));
    assert forall|a: int, b: int| #![trigger v.at(a, b)] v.is_interior(a, b) implies v.at(a, b).element
        == Element::Air || v.at(a, b).element == Element::Sand by {
        assert(s0.at(a, b) == s0.at(a, b));
    }
    lemma_no_life(v, x, y);
    if x == sx && y == sy && sy + 2 < s0.height {
        assert(done(x, y + 1));
        assert(v.at(x, y + 1).element == Element::Air);
    }
}

} // verus!
