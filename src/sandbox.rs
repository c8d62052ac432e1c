use vstd::prelude::*;

use rand::Rng;
use rand_xoshiro::rand_core::SeedableRng;
use rand_xoshiro::Xoshiro256Plus;

use crate::cell::Cell;
use crate::element::Element;

verus! {

#[verifier::external_type_specification]
#[verifier::external_body]
pub struct ExXoshiro256Plus(Xoshiro256Plus);

/// Relies on `SeedableRng::seed_from_u64` of `Xoshiro256Plus`: a generator whose
/// stream depends on the seed alone.
#[verifier::external_body]
fn seeded_generator(seed: u64) -> Xoshiro256Plus {
    Xoshiro256Plus::seed_from_u64(seed)
}

/// Relies on `SeedableRng::from_entropy` of `Xoshiro256Plus`: a generator seeded by the
/// operating system.
#[verifier::external_body]
fn entropy_generator() -> Xoshiro256Plus {
    Xoshiro256Plus::from_entropy()
}

/// Relies on `Rng::gen_range` over `0..bound`: a value below `bound`, which must be
/// positive for the range not to be empty.
#[verifier::external_body]
fn draw_below(generator: &mut Xoshiro256Plus, bound: usize) -> (r: usize)
    requires
        bound > 0,
    ensures
        r < bound,
{
    generator.gen_range(0..bound)
}

/// Relies on `Rng::gen` for `u8`: any byte.
#[verifier::external_body]
fn draw_byte(generator: &mut Xoshiro256Plus) -> u8 {
    generator.gen()
}

/// The abstract state of a grid.
pub struct SandBoxView {
    pub width: nat,
    pub height: nat,
    /// Row-major cells, `width * height` of them.
    pub cells: Seq<Cell>,
    /// The parity of the current sweep.
    pub visited_state: bool,
}

impl SandBoxView {
    /// Where position `(x, y)` lies in `cells`.
    pub open spec fn pos(self, x: int, y: int) -> int {
        x + y * self.width
    }

    pub open spec fn in_bounds(self, x: int, y: int) -> bool {
        0 <= x < self.width && 0 <= y < self.height
    }

    pub open spec fn on_border(self, x: int, y: int) -> bool {
        &&& self.in_bounds(x, y)
        &&& (x == 0 || y == 0 || x == self.width - 1 || y == self.height - 1)
    }

    /// Interior positions have all eight neighbours inside the grid.
    pub open spec fn is_interior(self, x: int, y: int) -> bool {
        1 <= x < self.width - 1 && 1 <= y < self.height - 1
    }

    pub open spec fn at(self, x: int, y: int) -> Cell {
        self.cells[self.pos(x, y)]
    }

    /// At least two cells each way, one cell per position, and an indestructible border.
    pub open spec fn wf(self) -> bool {
        &&& self.width >= 2
        &&& self.height >= 2
        &&& self.cells.len() == self.width * self.height
        &&& self.width * self.height <= usize::MAX
        &&& self.width < usize::MAX
        &&& self.height < usize::MAX
        &&& forall|x: int, y: int|
            #![trigger self.at(x, y)]
            self.on_border(x, y) ==> self.at(x, y).element == Element::Indestructible
    }

    /// Same size and parity; only cells may differ.
    pub open spec fn same_frame(self, other: SandBoxView) -> bool {
        &&& self.width == other.width
        &&& self.height == other.height
        &&& self.visited_state == other.visited_state
    }

    /// Every border cell of `other` equals that of `self`, in all its fields.
    pub open spec fn border_kept(self, other: SandBoxView) -> bool {
        forall|a: int, b: int|
            #![trigger other.at(a, b)]
            self.on_border(a, b) ==> other.at(a, b) == self.at(a, b)
    }

    /// The cells of `self` with the one at `(x, y)` replaced by `c`.
    pub open spec fn with_cell(self, x: int, y: int, c: Cell) -> SandBoxView {
        SandBoxView { cells: self.cells.update(self.pos(x, y), c), ..self }
    }

    /// The cells at `(x, y)` and `(x2, y2)` exchanged, both stamped with the parity.
    pub open spec fn swapped(self, x: int, y: int, x2: int, y2: int) -> SandBoxView {
        let a = self.at(x, y);
        let b = self.at(x2, y2);
        self.with_cell(x, y, Cell { visited: self.visited_state, ..b }).with_cell(
            x2,
            y2,
            Cell { visited: self.visited_state, ..a },
        )
    }
}

/// Two in-bounds positions with the same place in `cells` are the same position.
pub proof fn lemma_pos_injective(w: int, x1: int, y1: int, x2: int, y2: int)
    requires
        0 <= x1 < w,
        0 <= x2 < w,
        0 <= y1,
        0 <= y2,
        x1 + y1 * w == x2 + y2 * w,
    ensures
        x1 == x2,
        y1 == y2,
{
    if y1 < y2 {
        assert(y1 * w + w <= y2 * w) by (nonlinear_arith)
            requires
                y1 < y2,
                0 < w,
        ;
    } else if y2 < y1 {
        assert(y2 * w + w <= y1 * w) by (nonlinear_arith)
            requires
                y2 < y1,
                0 < w,
        ;
    }
}

/// An in-bounds position has a place in `cells`.
pub proof fn lemma_pos_in_range(w: int, h: int, x: int, y: int)
    requires
        0 <= x < w,
        0 <= y < h,
    ensures
        0 <= x + y * w < w * h,
{
    assert(0 <= y * w && y * w + w <= h * w) by (nonlinear_arith)
        requires
            0 <= y < h,
            0 < w,
    ;
}

/// Reading back a grid after one write.
pub proof fn lemma_with_cell_at(v: SandBoxView, x: int, y: int, c: Cell, x2: int, y2: int)
    requires
        v.cells.len() == v.width * v.height,
        v.in_bounds(x, y),
        v.in_bounds(x2, y2),
    ensures
        v.with_cell(x, y, c).at(x2, y2) == if x == x2 && y == y2 {
            c
        } else {
            v.at(x2, y2)
        },
{
    lemma_pos_in_range(v.width as int, v.height as int, x, y);
    lemma_pos_in_range(v.width as int, v.height as int, x2, y2);
    if v.pos(x, y) == v.pos(x2, y2) {
        lemma_pos_injective(v.width as int, x, y, x2, y2);
    }
}

/// A second write to the same position overrides the first.
pub proof fn lemma_with_cell_twice(v: SandBoxView, x: int, y: int, a: Cell, b: Cell)
    requires
        v.cells.len() == v.width * v.height,
        v.in_bounds(x, y),
    ensures
        v.with_cell(x, y, a).with_cell(x, y, b) == v.with_cell(x, y, b),
{
    lemma_pos_in_range(v.width as int, v.height as int, x, y);
    assert(v.with_cell(x, y, a).with_cell(x, y, b).cells =~= v.with_cell(x, y, b).cells);
}

/// A write off the border leaves every border cell as it was.
pub proof fn lemma_write_keeps_border(v: SandBoxView, x: int, y: int, c: Cell)
    requires
        v.cells.len() == v.width * v.height,
        v.in_bounds(x, y),
        !v.on_border(x, y),
    ensures
        v.border_kept(v.with_cell(x, y, c)),
{
    assert forall|a: int, b: int| v.on_border(a, b) implies #[trigger] v.with_cell(x, y, c).at(a, b)
        == v.at(a, b) by {
        lemma_with_cell_at(v, x, y, c, a, b);
    }
}

/// A write that keeps the border indestructible keeps the grid well formed: it lands off
/// the border, on a cell that is not indestructible, or keeps the cell's element.
pub proof fn lemma_write_keeps_wf(v: SandBoxView, x: int, y: int, c: Cell)
    requires
        v.wf(),
        v.in_bounds(x, y),
        v.at(x, y).element != Element::Indestructible || c.element == v.at(x, y).element
            || !v.on_border(x, y),
    ensures
        v.with_cell(x, y, c).wf(),
{
    lemma_pos_in_range(v.width as int, v.height as int, x, y);
    let n = v.with_cell(x, y, c);
    assert forall|x2: int, y2: int| n.on_border(x2, y2) implies #[trigger] n.at(x2, y2).element
        == Element::Indestructible by {
        lemma_pos_in_range(v.width as int, v.height as int, x2, y2);
        assert(v.at(x2, y2).element == Element::Indestructible);
        if v.pos(x2, y2) == v.pos(x, y) {
            lemma_pos_injective(v.width as int, x2, y2, x, y);
        }
    }
}

/// A grid of cells with an indestructible border, a sweep parity and its own
/// random source.
pub struct SandBox {
    width: usize,
    height: usize,
    cells: Vec<Cell>,
    visited_state: bool,
    random: Xoshiro256Plus,
}

impl View for SandBox {
    type V = SandBoxView;

    closed spec fn view(&self) -> SandBoxView {
        SandBoxView {
            width: self.width as nat,
            height: self.height as nat,
            cells: self.cells@,
            visited_state: self.visited_state,
        }
    }
}

/// The strength a cell has after one call of `reduce_strength`.
pub open spec fn reduced_strength(s: int) -> int {
    if s > 1 {
        s - 1
    } else {
        s
    }
}

/// The strength after `n` calls of `reduce_strength` on a cell of strength `k`.
pub open spec fn strength_after(k: int, n: nat) -> int
    decreases n,
{
    if n == 0 {
        k
    } else {
        reduced_strength(strength_after(k, (n - 1) as nat))
    }
}

/// A run of `reduce_strength` calls on a cell of strength `k >= 1` counts down to 1 and
/// stays there: after `n` calls the strength is `max(k - n, 1)`, it never grows, and the
/// call after those `n` returns true exactly when `n < k - 1`.
pub proof fn lemma_reduce_strength_run(k: int, n: nat)
    requires
        k >= 1,
    ensures
        strength_after(k, n) == if k - n >= 1 {
            k - n
        } else {
            1
        },
        strength_after(k, n + 1) <= strength_after(k, n),
        (strength_after(k, n) > 1) == (n < k - 1),
    decreases n,
{
    if n > 0 {
        lemma_reduce_strength_run(k, (n - 1) as nat);
    }
    assert(strength_after(k, n + 1) == reduced_strength(strength_after(k, n)));
}

/// A fresh border cell.
pub open spec fn border_cell() -> Cell {
    Cell { element: Element::Indestructible, variant: 0, strength: 0, visited: false, source: false }
}

/// A fresh interior cell.
pub open spec fn air_cell() -> Cell {
    Cell { element: Element::Air, variant: 0, strength: 0, visited: false, source: false }
}

/// The cell that a new grid holds at `(x, y)`.
pub open spec fn fresh_cell(w: nat, h: nat, x: int, y: int) -> Cell {
    if x == 0 || y == 0 || x == w - 1 || y == h - 1 {
        border_cell()
    } else {
        air_cell()
    }
}

/// The cell that `set_element` puts down on a grid in state `v`, with variant `variant`.
pub open spec fn placed_with(v: SandBoxView, element: Element, source: bool, variant: u8) -> Cell {
    Cell { element, variant, strength: element.strength(), visited: v.visited_state, source }
}

/// The cell that `set_element` puts at `(x, y)` for an element whose colour does not vary.
pub open spec fn placed(v: SandBoxView, x: int, y: int, element: Element, source: bool) -> Cell {
    placed_with(v, element, source, v.at(x, y).variant)
}

impl SandBox {
    pub open spec fn wf(&self) -> bool {
        self@.wf()
    }

    /// A grid whose random source is seeded by the operating system.
    pub fn new(width: usize, height: usize) -> (r: SandBox)
        requires
            width >= 2,
            height >= 2,
            width * height <= usize::MAX,
        ensures
            r.wf(),
            r@.width == width,
            r@.height == height,
            !r@.visited_state,
            forall|x: int, y: int|
                #![trigger r@.at(x, y)]
                r@.in_bounds(x, y) ==> r@.at(x, y) == fresh_cell(width as nat, height as nat, x, y),
            forall|x: int, y: int|
                #![trigger r@.at(x, y)]
                r@.on_border(x, y) ==> r@.at(x, y).element == Element::Indestructible,
            forall|x: int, y: int|
                #![trigger r@.at(x, y)]
                r@.is_interior(x, y) ==> r@.at(x, y).element == Element::Air && !r@.at(x, y).source,
    {
        SandBox::with_generator(width, height, entropy_generator())
    }

    /// A grid whose random source is seeded with `seed`, so that runs repeat.
    pub fn with_seed(width: usize, height: usize, seed: u64) -> (r: SandBox)
        requires
            width >= 2,
            height >= 2,
            width * height <= usize::MAX,
        ensures
            r.wf(),
            r@.width == width,
            r@.height == height,
            !r@.visited_state,
            forall|x: int, y: int|
                #![trigger r@.at(x, y)]
                r@.in_bounds(x, y) ==> r@.at(x, y) == fresh_cell(width as nat, height as nat, x, y),
            forall|x: int, y: int|
                #![trigger r@.at(x, y)]
                r@.on_border(x, y) ==> r@.at(x, y).element == Element::Indestructible,
            forall|x: int, y: int|
                #![trigger r@.at(x, y)]
                r@.is_interior(x, y) ==> r@.at(x, y).element == Element::Air && !r@.at(x, y).source,
    {
        SandBox::with_generator(width, height, seeded_generator(seed))
    }

    fn index(&self, x: usize, y: usize) -> (r: usize)
        requires
            self.wf(),
            self@.in_bounds(x as int, y as int),
        ensures
            r == self@.pos(x as int, y as int),
            r < self@.cells.len(),
    {
        let n = self.cells.len();
        proof {
            lemma_pos_in_range(self.width as int, self.height as int, x as int, y as int);
            assert(0 <= y * self.width) by (nonlinear_arith);
        }
        x + y * self.width
    }

    /// The cell at `(x, y)`.
    pub fn get(&self, x: usize, y: usize) -> (r: &Cell)
        requires
            self.wf(),
            self@.in_bounds(x as int, y as int),
        ensures
            *r == self@.at(x as int, y as int),
    {
        let index = self.index(x, y);
        &self.cells[index]
    }

    /// Direct access to the cell at `(x, y)`; whatever is written there lands in the grid.
    pub fn get_mut(&mut self, x: usize, y: usize) -> (r: &mut Cell)
        requires
            old(self).wf(),
            old(self)@.in_bounds(x as int, y as int),
        ensures
            *r == old(self)@.at(x as int, y as int),
            final(self)@ == old(self)@.with_cell(x as int, y as int, *final(r)),
    {
        let index = self.index(x, y);
        &mut self.cells[index]
    }

    /// Takes one unit of strength from the cell at `(x, y)` while it has more than one;
    /// returns whether it did.
    pub fn reduce_strength(&mut self, x: usize, y: usize) -> (r: bool)
        requires
            old(self).wf(),
            old(self)@.in_bounds(x as int, y as int),
        ensures
            final(self).wf(),
            r == (old(self)@.at(x as int, y as int).strength > 1),
            r ==> final(self)@ == old(self)@.with_cell(
                x as int,
                y as int,
                (Cell {
                    strength: (old(self)@.at(x as int, y as int).strength - 1) as u8,
                    ..old(self)@.at(x as int, y as int)
                }),
            ),
            !r ==> final(self)@ == old(self)@,
            final(self)@.at(x as int, y as int).element == old(self)@.at(x as int, y as int).element,
            !old(self)@.on_border(x as int, y as int) ==> old(self)@.border_kept(final(self)@),
            final(self)@.at(x as int, y as int).strength == reduced_strength(
                old(self)@.at(x as int, y as int).strength as int,
            ),
    {
        let index = self.index(x, y);
        let ghost before = self@;
        proof {
            lemma_pos_in_range(before.width as int, before.height as int, x as int, y as int);
        }
        if self.cells[index].strength > 1 {
            let mut cell = self.cells[index];
            cell.strength = cell.strength - 1;
            self.cells.set(index, cell);
            proof {
                lemma_write_keeps_wf(before, x as int, y as int, cell);
                if !before.on_border(x as int, y as int) {
                    lemma_write_keeps_border(before, x as int, y as int, cell);
                }
            }
            true
        } else {
            false
        }
    }

    /// Puts Air at `(x, y)`, as `set_element` does.
    pub fn clear_cell(&mut self, x: usize, y: usize)
        requires
            old(self).wf(),
            old(self)@.in_bounds(x as int, y as int),
        ensures
            final(self).wf(),
            old(self)@.border_kept(final(self)@),
            old(self)@.at(x as int, y as int).element == Element::Indestructible ==> final(self)@
                == old(self)@,
            old(self)@.at(x as int, y as int).element != Element::Indestructible ==> final(self)@
                == old(self)@.with_cell(
                x as int,
                y as int,
                placed(old(self)@, x as int, y as int, Element::Air, false),
            ),
    {
        self.set_element(x, y, Element::Air, false);
    }

    /// Places a fresh cell of `element` at `(x, y)`, stamped with the current parity;
    /// an indestructible cell stays as it is.
    pub fn set_element(&mut self, x: usize, y: usize, element: Element, source: bool)
        requires
            old(self).wf(),
            old(self)@.in_bounds(x as int, y as int),
        ensures
            final(self).wf(),
            final(self)@.same_frame(old(self)@),
            old(self)@.border_kept(final(self)@),
            old(self)@.at(x as int, y as int).element == Element::Indestructible ==> final(self)@
                == old(self)@,
            old(self)@.at(x as int, y as int).element != Element::Indestructible ==> final(self)@
                == old(self)@.with_cell(
                x as int,
                y as int,
                placed_with(old(self)@, element, source, final(self)@.at(x as int, y as int).variant),
            ),
            old(self)@.at(x as int, y as int).element != Element::Indestructible ==> final(self)@.at(
                x as int,
                y as int,
            ) == placed_with(old(self)@, element, source, final(self)@.at(x as int, y as int).variant),
            element.color_variance() == 0 ==> final(self)@.at(x as int, y as int).variant == old(
                self,
            )@.at(x as int, y as int).variant,
    {
        let index = self.index(x, y);
        let ghost before = self@;
        let mut cell = self.cells[index];
        if cell.element == Element::Indestructible {
            return;
        }
        cell.element = element;
        cell.visited = self.visited_state;
        cell.strength = element.strength();
        cell.source = source;
        if element.color_variance() > 0 {
            cell.variant = draw_byte(&mut self.random);
        }
        self.cells.set(index, cell);
        proof {
            lemma_write_keeps_wf(before, x as int, y as int, cell);
            lemma_write_keeps_border(before, x as int, y as int, cell);
            lemma_pos_in_range(before.width as int, before.height as int, x as int, y as int);
            assert(self@.at(x as int, y as int) == cell);
        }
    }

    /// Exchanges the cells at `(x, y)` and `(x2, y2)` and stamps both with the current
    /// parity, unless either is indestructible.
    pub fn swap(&mut self, x: usize, y: usize, x2: usize, y2: usize)
        requires
            old(self).wf(),
            old(self)@.in_bounds(x as int, y as int),
            old(self)@.in_bounds(x2 as int, y2 as int),
        ensures
            final(self).wf(),
            old(self)@.border_kept(final(self)@),
            old(self)@.at(x as int, y as int).element == Element::Indestructible || old(self)@.at(
                x2 as int,
                y2 as int,
            ).element == Element::Indestructible ==> final(self)@ == old(self)@,
            old(self)@.at(x as int, y as int).element != Element::Indestructible && old(self)@.at(
                x2 as int,
                y2 as int,
            ).element != Element::Indestructible ==> final(self)@ == old(self)@.swapped(
                x as int,
                y as int,
                x2 as int,
                y2 as int,
            ),
    {
        let index1 = self.index(x, y);
        let index2 = self.index(x2, y2);
        let ghost before = self@;
        let mut cell = self.cells[index1];
        let mut cell2 = self.cells[index2];
        if cell.element == Element::Indestructible || cell2.element == Element::Indestructible {
            return;
        }
        cell.visited = self.visited_state;
        cell2.visited = self.visited_state;
        self.cells.set(index1, cell2);
        proof {
            lemma_write_keeps_wf(before, x as int, y as int, cell2);
            lemma_write_keeps_border(before, x as int, y as int, cell2);
        }
        let ghost middle = self@;
        self.cells.set(index2, cell);
        proof {
            lemma_pos_in_range(before.width as int, before.height as int, x as int, y as int);
            lemma_pos_in_range(before.width as int, before.height as int, x2 as int, y2 as int);
            if index1 == index2 {
                assert(middle.at(x2 as int, y2 as int).element == cell2.element);
                assert(cell2.element == cell.element);
            }
            lemma_write_keeps_wf(middle, x2 as int, y2 as int, cell);
            lemma_write_keeps_border(middle, x2 as int, y2 as int, cell);
            assert(self@ == before.swapped(x as int, y as int, x2 as int, y2 as int));
        }
    }

    /// Stamps the cell at `(x, y)` with the current parity.
    pub fn set_visited(&mut self, x: usize, y: usize)
        requires
            old(self).wf(),
            old(self)@.in_bounds(x as int, y as int),
        ensures
            final(self).wf(),
            final(self)@ == old(self)@.with_cell(
                x as int,
                y as int,
                (Cell { visited: old(self)@.visited_state, ..old(self)@.at(x as int, y as int) }),
            ),
            !old(self)@.on_border(x as int, y as int) ==> old(self)@.border_kept(final(self)@),
    {
        let index = self.index(x, y);
        let ghost before = self@;
        let mut cell = self.cells[index];
        cell.visited = self.visited_state;
        self.cells.set(index, cell);
        proof {
            lemma_write_keeps_wf(before, x as int, y as int, cell);
            if !before.on_border(x as int, y as int) {
                lemma_write_keeps_border(before, x as int, y as int, cell);
            }
        }
    }

    pub fn width(&self) -> (r: usize)
        ensures
            r == self@.width,
    {
        self.width
    }

    pub fn height(&self) -> (r: usize)
        ensures
            r == self@.height,
    {
        self.height
    }

    /// Flips the sweep parity and returns its new value.
    pub fn toggle_visited_state(&mut self) -> (r: bool)
        requires
            old(self).wf(),
        ensures
            final(self).wf(),
            r == !old(self)@.visited_state,
            final(self)@ == (SandBoxView { visited_state: r, ..old(self)@ }),
    {
        let ghost before = self@;
        self.visited_state = !self.visited_state;
        assert forall|x: int, y: int| self@.on_border(x, y) implies #[trigger] self@.at(x, y).element
            == Element::Indestructible by {
            assert(before.at(x, y) == self@.at(x, y));
        }
        self.visited_state
    }

    pub fn is_visited_state(&self) -> (r: bool)
        ensures
            r == self@.visited_state,
    {
        self.visited_state
    }

    /// The column to the left or to the right of `x`, chosen at random.
    pub fn random_neighbour_x(&mut self, x: usize) -> (r: usize)
        requires
            1 <= x < usize::MAX,
        ensures
            r == x + 1 || r == x - 1,
            final(self)@ == old(self)@,
    {
        if draw_below(&mut self.random, 1000) % 2 == 0 {
            x + 1
        } else {
            x - 1
        }
    }

    /// A random value below `max`.
    pub fn random(&mut self, max: usize) -> (r: usize)
        requires
            0 < max <= usize::MAX / 1000,
        ensures
            r < max,
            final(self)@ == old(self)@,
    {
        draw_below(&mut self.random, 1000 * max) % max
    }

    /// Turns every interior cell into Air stamped with the current parity; the border
    /// and the other fields of each cell stay.
    pub fn clear(&mut self)
        requires
            old(self).wf(),
        ensures
            final(self).wf(),
            final(self)@.same_frame(old(self)@),
            forall|x: int, y: int|
                #![trigger final(self)@.at(x, y)]
                old(self)@.is_interior(x, y) ==> final(self)@.at(x, y) == (Cell {
                    element: Element::Air,
                    visited: old(self)@.visited_state,
                    ..old(self)@.at(x, y)
                }),
            forall|x: int, y: int|
                #![trigger final(self)@.at(x, y)]
                old(self)@.in_bounds(x, y) && !old(self)@.is_interior(x, y) ==> final(self)@.at(x, y)
                    == old(self)@.at(x, y),
    {
        let ghost before = self@;
        let mut y: usize = 1;
        while y < self.height - 1
            invariant
                1 <= y <= self.height - 1,
                self.wf(),
                self@.same_frame(before),
                forall|xx: int, yy: int|
                    #![trigger self@.at(xx, yy)]
                    before.is_interior(xx, yy) && yy < y ==> self@.at(xx, yy) == (Cell {
                        element: Element::Air,
                        visited: before.visited_state,
                        ..before.at(xx, yy)
                    }),
                forall|xx: int, yy: int|
                    #![trigger self@.at(xx, yy)]
                    before.in_bounds(xx, yy) && !(before.is_interior(xx, yy) && yy < y) ==> self@.at(
                        xx,
                        yy,
                    ) == before.at(xx, yy),
            decreases self.height - y,
        {
            let mut x: usize = 1;
            while x < self.width - 1
                invariant
                    1 <= y < self.height - 1,
                    1 <= x <= self.width - 1,
                    self.wf(),
                    self@.same_frame(before),
                    forall|xx: int, yy: int|
                        #![trigger self@.at(xx, yy)]
                        before.is_interior(xx, yy) && (yy < y || (yy == y && xx < x))
                            ==> self@.at(xx, yy) == (Cell {
                            element: Element::Air,
                            visited: before.visited_state,
                            ..before.at(xx, yy)
                        }),
                    forall|xx: int, yy: int|
                        #![trigger self@.at(xx, yy)]
                        before.in_bounds(xx, yy) && !(before.is_interior(xx, yy) && (yy < y || (yy
                            == y && xx < x))) ==> self@.at(xx, yy) == before.at(xx, yy),
                decreases self.width - x,
            {
                let index = self.index(x, y);
                let ghost prev = self@;
                let mut cell = self.cells[index];
                cell.element = Element::Air;
                cell.visited = self.visited_state;
                self.cells.set(index, cell);
                proof {
                    assert(prev.at(x as int, y as int) == before.at(x as int, y as int));
                    lemma_pos_in_range(before.width as int, before.height as int, x as int, y as int);
                    lemma_write_keeps_wf(prev, x as int, y as int, cell);
                    assert forall|xx: int, yy: int| before.in_bounds(xx, yy) && (xx != x || yy != y)
                        implies #[trigger] self@.at(xx, yy) == prev.at(xx, yy) by {
                        lemma_pos_in_range(before.width as int, before.height as int, xx, yy);
                        if self@.pos(xx, yy) == self@.pos(x as int, y as int) {
                            lemma_pos_injective(before.width as int, xx, yy, x as int, y as int);
                        }
                    }
                }
                x = x + 1;
            }
            y = y + 1;
        }
    }

    fn with_generator(width: usize, height: usize, random: Xoshiro256Plus) -> (r: SandBox)
        requires
            width >= 2,
            height >= 2,
            width * height <= usize::MAX,
        ensures
            r.wf(),
            r@.width == width,
            r@.height == height,
            !r@.visited_state,
            forall|x: int, y: int|
                #![trigger r@.at(x, y)]
                r@.in_bounds(x, y) ==> r@.at(x, y) == fresh_cell(width as nat, height as nat, x, y),
            forall|x: int, y: int|
                #![trigger r@.at(x, y)]
                r@.on_border(x, y) ==> r@.at(x, y).element == Element::Indestructible,
            forall|x: int, y: int|
                #![trigger r@.at(x, y)]
                r@.is_interior(x, y) ==> r@.at(x, y).element == Element::Air && !r@.at(x, y).source,
    {
        let ghost w = width as int;
        let ghost h = height as int;
        let mut cells: Vec<Cell> = Vec::new();
        let mut y: usize = 0;
        while y < height
            invariant
                y <= height,
                cells@.len() == y * w,
                w * h <= usize::MAX,
                w == width,
                h == height,
                w >= 2,
                forall|xx: int, yy: int|
                    #![trigger fresh_cell(w as nat, h as nat, xx, yy)]
                    0 <= xx < w && 0 <= yy < y ==> cells@[xx + yy * w] == fresh_cell(
                        w as nat,
                        h as nat,
                        xx,
                        yy,
                    ),
            decreases height - y,
        {
            let mut x: usize = 0;
            assert(y * w + w <= w * h) by (nonlinear_arith)
                requires
                    0 <= y < h,
                    0 <= w,
            ;
            while x < width
                invariant
                    y < height,
                    x <= width,
                    cells@.len() == y * w + x,
                    y * w + w <= w * h,
                    w * h <= usize::MAX,
                    w == width,
                    h == height,
                    w >= 2,
                    forall|xx: int, yy: int|
                        #![trigger fresh_cell(w as nat, h as nat, xx, yy)]
                        (0 <= xx < w && 0 <= yy < y) || (yy == y && 0 <= xx < x) ==> cells@[xx
                            + yy * w] == fresh_cell(w as nat, h as nat, xx, yy),
                decreases width - x,
            {
                let c = if x == 0 || y == 0 || x == width - 1 || y == height - 1 {
                    Cell {
                        element: Element::Indestructible,
                        variant: 0,
                        strength: 0,
                        visited: false,
                        source: false,
                    }
                } else {
                    Cell {
                        element: Element::Air,
                        variant: 0,
                        strength: 0,
                        visited: false,
                        source: false,
                    }
                };
                let ghost before = cells@;
                cells.push(c);
                assert forall|xx: int, yy: int|
                    (0 <= xx < w && 0 <= yy < y) || (yy == y && 0 <= xx <= x) implies cells@[xx
                    + yy * w] == #[trigger] fresh_cell(w as nat, h as nat, xx, yy) by {
                    if yy < y {
                        assert(xx + yy * w < y * w) by (nonlinear_arith)
                            requires
                                0 <= xx < w,
                                0 <= yy < y,
                        ;
                    }
                }
                x = x + 1;
            }
            assert(y * w + w == (y + 1) * w) by (nonlinear_arith);
            y = y + 1;
        }
        let r = SandBox { width, height, cells, visited_state: false, random };
        assert(w * h == h * w) by (nonlinear_arith);
        assert(w < usize::MAX && h < usize::MAX) by (nonlinear_arith)
            requires
                w >= 2,
                h >= 2,
                w * h <= usize::MAX,
        ;
        assert forall|x: int, y: int| #![trigger r@.at(x, y)] r@.in_bounds(x, y) implies r@.at(x, y)
            == fresh_cell(width as nat, height as nat, x, y) by {
            assert(fresh_cell(w as nat, h as nat, x, y) == fresh_cell(
                width as nat,
                height as nat,
                x,
                y,
            ));
        }
        r
    }
}

impl Default for SandBox {
    /// A 512 by 512 grid.
    fn default() -> (r: SandBox)
        ensures
            r.wf(),
            r@.width == 512,
            r@.height == 512,
            !r@.visited_state,
            forall|x: int, y: int|
                #![trigger r@.at(x, y)]
                r@.in_bounds(x, y) ==> r@.at(x, y) == fresh_cell(512, 512, x, y),
    {
        SandBox::new(512, 512)
    }
}

} // verus!
