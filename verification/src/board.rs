//! The board: a fixed-size toroidal grid of cells that can be read, written
//! and advanced by one generation.

use vstd::prelude::*;
use vstd::string::StringExecFns;
use crate::cell::Cell;
use crate::grid::{alive_count, moore_offsets, Grid};
use crate::torus::{wrap, lemma_wrap_negative, lemma_wrap_sum};
use vstd::arithmetic::div_mod::lemma_fundamental_div_mod_converse;

verus! {

/// How many of the eight neighbours come before the one that lies `column`
/// steps right and `row` steps down of the top left corner of the
/// three-by-three block around a cell.
spec fn neighbors_before(column: int, row: int) -> int {
    let place = 3 * column + row;
    if place > 4 {
        place - 1
    } else {
        place
    }
}

/// What `Board::new` answers when the board would have more cells than can
/// be indexed.
pub const SIZE_OVERFLOW: &'static str =
    "Board size is too big (width * height should fit in usize)";

/// A grid of `width * height` cells, kept row by row.
pub struct Board {
    width: usize,
    height: usize,
    cells: Vec<Cell>,
}

impl View for Board {
    type V = Grid;

    closed spec fn view(&self) -> Grid {
        Grid { width: self.width as nat, height: self.height as nat, cells: self.cells@ }
    }
}

impl Board {
    #[verifier::type_invariant]
    spec fn one_cell_per_position(&self) -> bool {
        self.cells.len() == self.width * self.height
    }

    /// Makes a board of the given size on which nothing lives, unless it
    /// would have more cells than `usize` can count.
    pub fn new(width: usize, height: usize) -> (made: Result<Self, &'static str>)
        ensures
            match made {
                Ok(board) => width * height <= usize::MAX && board@ == Grid::dead(
                    width as nat,
                    height as nat,
                ),
                Err(message) => width * height > usize::MAX && message@ == SIZE_OVERFLOW@,
            },
    {
        match width.checked_mul(height) {
            Some(array_size) => {
                let board = Board { width, height, cells: vec![Cell::Dead; array_size] };
                assert(board@.cells =~= Grid::dead(width as nat, height as nat).cells);
                Ok(board)
            },
            None => Err(SIZE_OVERFLOW),
        }
    }

    /// Wraps a signed coordinate onto an axis of `max` positions.
    pub fn wrap_coordinate(&self, coord: isize, max: usize) -> (wrapped: usize)
        requires
            max > 0,
        ensures
            wrapped == wrap(coord as int, max as nat),
            wrapped < max,
    {
        if coord >= 0 {
            (coord as usize) % max
        } else {
            let below = (-(coord + 1)) as usize;
            proof {
                lemma_wrap_negative(below as int, max as nat);
            }
            max - 1 - below % max
        }
    }

    /// Wraps a signed column onto the board.
    pub fn wrap_x(&self, x: isize) -> (wrapped: usize)
        requires
            self@.width > 0,
        ensures
            wrapped == wrap(x as int, self@.width),
            wrapped < self@.width,
    {
        self.wrap_coordinate(x, self.width)
    }

    /// Wraps a signed row onto the board.
    pub fn wrap_y(&self, y: isize) -> (wrapped: usize)
        requires
            self@.height > 0,
        ensures
            wrapped == wrap(y as int, self@.height),
            wrapped < self@.height,
    {
        self.wrap_coordinate(y, self.height)
    }

    /// Place of the cell that `(x, y)` lands on once both axes wrap around.
    pub fn index_from_signed(&self, x: isize, y: isize) -> (index: usize)
        requires
            self@.width > 0,
            self@.height > 0,
        ensures
            self@.wf(),
            index == self@.index_from_signed(x as int, y as int),
            index < self@.cells.len(),
    {
        let bounded_x = self.wrap_x(x);
        let bounded_y = self.wrap_y(y);
        proof {
            use_type_invariant(self);
            self@.lemma_index_in_bounds(bounded_x as int, bounded_y as int);
        }
        bounded_y.checked_mul(self.width).unwrap().checked_add(bounded_x).unwrap()
    }

    /// Place of the cell in column `x` of row `y`.
    pub fn index(&self, x: usize, y: usize) -> (index: usize)
        requires
            self@.contains(x as int, y as int),
        ensures
            self@.wf(),
            index == self@.index(x as int, y as int),
            index < self@.cells.len(),
    {
        proof {
            use_type_invariant(self);
            self@.lemma_index_in_bounds(x as int, y as int);
        }
        y.checked_mul(self.width).unwrap().checked_add(x).unwrap()
    }

    /// Reads the cell that `(x, y)` lands on once both axes wrap around.
    pub fn get_from_signed(&self, x: isize, y: isize) -> (found: Result<Cell, &'static str>)
        requires
            self@.width > 0,
            self@.height > 0,
        ensures
            found == Ok::<Cell, &'static str>(self@.get_from_signed(x as int, y as int)),
    {
        let idx = self.index_from_signed(x, y);
        Ok(self.cells[idx])
    }

    /// Reads the cell in column `x` of row `y`.
    pub fn get(&self, x: usize, y: usize) -> (cell: Cell)
        requires
            self@.contains(x as int, y as int),
        ensures
            cell == self@.get(x as int, y as int),
    {
        self.cells[self.index(x, y)]
    }

    /// Writes `cell` where `(x, y)` lands once both axes wrap around.
    pub fn set(&mut self, x: isize, y: isize, cell: Cell)
        requires
            old(self)@.width > 0,
            old(self)@.height > 0,
        ensures
            final(self)@ == old(self)@.set(x as int, y as int, cell),
    {
        proof {
            use_type_invariant(&*self);
        }
        let index = self.index_from_signed(x, y);
        self.cells[index] = cell;
    }

    /// The position `step` places on from `coord` along an axis of `max`
    /// positions that wraps around.
    pub fn neighbor_coordinate(&self, coord: usize, step: isize, max: usize) -> (wrapped: usize)
        requires
            max > 0,
        ensures
            wrapped == wrap(coord + step, max as nat),
            wrapped < max,
    {
        let from = coord % max;
        let by = self.wrap_coordinate(step, max);
        proof {
            lemma_wrap_sum(coord as int, step as int, max as nat);
        }
        if from >= max - by {
            from - (max - by)
        } else {
            from + by
        }
    }

    /// The eight cells that touch the cell in column `x` of row `y`, column
    /// by column from the left, each from the top down.
    pub fn get_neighbors(&self, x: usize, y: usize) -> (neighbors: Vec<Cell>)
        requires
            self@.width > 0,
            self@.height > 0,
        ensures
            neighbors@ == self@.neighbors(x as int, y as int),
    {
        let mut neighbors: Vec<Cell> = Vec::new();
        let neighboring_range: [isize; 3] = [-1, 0, 1];
        let ghost around = self@.neighbors(x as int, y as int);
        for i in 0..3usize
            invariant
                self@.width > 0,
                self@.height > 0,
                neighboring_range@ == seq![-1isize, 0, 1],
                around == self@.neighbors(x as int, y as int),
                neighbors@ == around.take(neighbors_before(i as int, 0)),
        {
            for j in 0..3usize
                invariant
                    self@.width > 0,
                    self@.height > 0,
                    i < 3,
                    neighboring_range@ == seq![-1isize, 0, 1],
                    around == self@.neighbors(x as int, y as int),
                    neighbors@ == around.take(neighbors_before(i as int, j as int)),
            {
                let dx = neighboring_range[i];
                let dy = neighboring_range[j];
                if !(dx == 0 && dy == 0) {
                    let neighbor_x = self.neighbor_coordinate(x, dx, self.width);
                    let neighbor_y = self.neighbor_coordinate(y, dy, self.height);
                    let neighbor = self.get(neighbor_x, neighbor_y);
                    neighbors.push(neighbor);
                    proof {
                        let before = neighbors_before(i as int, j as int);
                        assert(moore_offsets()[before] == (dx as int, dy as int));
                        assert(around[before] == neighbor);
                        assert(neighbors@ =~= around.take(before + 1));
                    }
                }
            }
        }
        assert(around.take(8) =~= around);
        neighbors
    }

    /// How many of the eight cells that touch the cell in column `x` of row
    /// `y` are alive.
    pub fn count_living_neighbors(&self, x: usize, y: usize) -> (count: u8)
        requires
            self@.width > 0,
            self@.height > 0,
        ensures
            count == self@.count_living_neighbors(x as int, y as int),
            count <= 8,
    {
        let mut count: u8 = 0;
        let neighbors = self.get_neighbors(x, y);
        for i in 0..neighbors.len()
            invariant
                neighbors@.len() == 8,
                count == alive_count(neighbors@.take(i as int)),
                count <= i,
        {
            assert(neighbors@.take(i + 1).drop_last() =~= neighbors@.take(i as int));
            if neighbors[i] == Cell::Alive {
                count += 1
            }
        }
        assert(neighbors@.take(8) =~= neighbors@);
        count
    }

    /// Advances the board by one generation. Every cell is replaced at once:
    /// a cell with three living neighbours lives, a living cell with two
    /// stays alive, every other cell is dead.
    pub fn get_next_state(&mut self)
        ensures
            final(self)@ == old(self)@.next_state(),
    {
        proof {
            use_type_invariant(&*self);
        }
        let ghost next = self@.next_state();
        let mut new_cells = self.cells.clone();
        assert(0 * self.width == 0);
        for y in 0..self.height
            invariant
                *self == *old(self),
                self@.wf(),
                next == self@.next_state(),
                new_cells.len() == self.cells.len(),
                forall|i: int| 0 <= i < y * self.width ==> new_cells@[i] == next.cells[i],
        {
            for x in 0..self.width
                invariant
                    *self == *old(self),
                    self@.wf(),
                    y < self.height,
                    next == self@.next_state(),
                    new_cells.len() == self.cells.len(),
                    forall|i: int| 0 <= i < y * self.width + x ==> new_cells@[i] == next.cells[i],
            {
                let cell = self.get(x, y);
                let living_neighbors = self.count_living_neighbors(x, y);
                let new_cell = match (cell, living_neighbors) {
                    (Cell::Alive, 2) | (_, 3) => Cell::Alive,
                    _ => Cell::Dead,
                };
                let index = self.index(x, y);
                proof {
                    self@.lemma_index_in_bounds(x as int, y as int);
                }
                new_cells[index] = new_cell;
            }
            assert(y * self.width + self.width == (y + 1) * self.width) by (nonlinear_arith);
        }
        assert(self.height * self.width == self.width * self.height) by (nonlinear_arith);
        assert(new_cells@ =~= next.cells);
        self.cells = new_cells
    }

    /// The board as text: one line per row, each made of the glyphs of the
    /// row's cells and closed by a line feed.
    pub fn to_string(&self) -> (text: String)
        ensures
            text@ == self@.text(),
    {
        proof {
            use_type_invariant(self);
        }
        let mut text = String::new();
        let ghost whole = self@.text();
        let ghost line = self.width + 1;
        assert(text@ =~= whole.take(0 * line));
        for y in 0..self.height
            invariant
                self@.wf(),
                whole == self@.text(),
                line == self.width + 1,
                text@ == whole.take(y * line),
        {
            for x in 0..self.width
                invariant
                    self@.wf(),
                    y < self.height,
                    whole == self@.text(),
                    line == self.width + 1,
                    text@ == whole.take(y * line + x),
            {
                let glyph = self.get(x, y).to_string();
                text.append(glyph.as_str());
                proof {
                    let at = y * line + x;
                    assert(0 <= at && at + line - x <= line * self.height) by (nonlinear_arith)
                        requires
                            at == y * line + x,
                            0 <= y < self.height,
                            0 <= x < line,
                    ;
                    assert(y * line == line * y) by (nonlinear_arith);
                    lemma_fundamental_div_mod_converse(at, line, y as int, x as int);
                    assert(text@ =~= whole.take(at + 1));
                }
            }
            text.append("\n");
            proof {
                let at = y * line + self.width;
                reveal_strlit("\n");
                assert(0 <= at && at + 1 <= line * self.height) by (nonlinear_arith)
                    requires
                        at == y * line + self.width,
                        0 <= y < self.height,
                        line == self.width + 1,
                ;
                assert(y * line == line * y) by (nonlinear_arith);
                lemma_fundamental_div_mod_converse(at, line, y as int, self.width as int);
                assert(at + 1 == (y + 1) * line) by (nonlinear_arith)
                    requires
                        at == y * line + self.width,
                        line == self.width + 1,
                ;
                assert(text@ =~= whole.take(at + 1));
            }
        }
        assert(self.height * line == (self.width + 1) * self.height) by (nonlinear_arith)
            requires
                line == self.width + 1,
        ;
        assert(whole.take(whole.len() as int) =~= whole);
        text
    }
}

} // verus!
