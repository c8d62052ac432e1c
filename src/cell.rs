use vstd::prelude::*;

use crate::element::Element;

verus! {

/// The full state of one position of the grid.
#[derive(Clone, Copy, Debug, PartialEq, Eq, Structural)]
pub struct Cell {
    pub element: Element,
    /// Colour variation, used only for display.
    pub variant: u8,
    /// Countdown used for decay, corrosion and cooling.
    pub strength: u8,
    /// Compared with the grid's parity to tell whether the cell was handled this tick.
    pub visited: bool,
    /// Whether the cell was placed as a spawner.
    pub source: bool,
}

/// The cell `c` after one call of `dissolve_to(element)`.
pub open spec fn dissolved(c: Cell, element: Element) -> Cell {
    if c.strength <= 1 {
        Cell { element, strength: element.strength(), ..c }
    } else {
        Cell { strength: (c.strength - 1) as u8, ..c }
    }
}

impl Cell {
    /// Wears the cell down by one unit of strength; once none is left to lose,
    /// the cell turns into `element` with that element's fresh strength.
    /// Returns whether the cell turned.
    pub fn dissolve_to(&mut self, element: Element) -> (r: bool)
        ensures
            r == (old(self).strength <= 1),
            *final(self) == dissolved(*old(self), element),
    {
        if self.strength > 1 {
            self.strength = self.strength - 1;
            false
        } else {
            self.element = element;
            self.strength = element.strength();
            true
        }
    }
}

} // verus!
