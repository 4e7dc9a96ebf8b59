//! The two states a grid position can be in.

use vstd::prelude::*;
use vstd::string::StringExecFns;

verus! {

/// The state of one position of the grid.
#[derive(Clone, Copy, PartialEq, Eq, Structural, Debug)]
pub enum Cell {
    Alive,
    Dead,
}

impl Cell {
    /// The character a cell is drawn with: a purple square for a living cell,
    /// a black square for a dead one.
    pub open spec fn glyph(self) -> char {
        match self {
            Cell::Alive => '\u{1F7EA}',
            Cell::Dead => '\u{2B1B}',
        }
    }

    /// The state a cell with `living_neighbors` living neighbours has in the
    /// next generation: birth on three, survival on two or three, death
    /// otherwise.
    pub open spec fn successor(self, living_neighbors: nat) -> Cell {
        if living_neighbors == 3 || (self == Cell::Alive && living_neighbors == 2) {
            Cell::Alive
        } else {
            Cell::Dead
        }
    }

    /// The cell as text: its glyph and nothing else.
    pub fn to_string(&self) -> (text: String)
        ensures
            text@ == seq![self.glyph()],
    {
        let token = match self {
            Cell::Alive => "\u{1F7EA}",
            Cell::Dead => "\u{2B1B}",
        };
        proof {
            reveal_strlit("\u{1F7EA}");
            reveal_strlit("\u{2B1B}");
        }
        String::from_str(token)
    }
}

} // verus!
