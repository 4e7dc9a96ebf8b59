//! The mathematical model of a board: a rectangle of cells on a torus.

use vstd::prelude::*;
use vstd::arithmetic::div_mod::{lemma_fundamental_div_mod, lemma_fundamental_div_mod_converse};
use vstd::seq_lib::{seq_to_set_is_finite, to_multiset_len};
use vstd::set_lib::lemma_subset_equality;
use crate::cell::Cell;
use crate::torus::{wrap, lemma_wrap_in_range, lemma_wrap_in_range_is_identity, lemma_wrap_periodic};

verus! {

/// The eight steps that lead from a cell to the cells that touch it, column
/// step first.
pub open spec fn moore_offsets() -> Seq<(int, int)> {
    seq![(-1, -1), (-1, 0), (-1, 1), (0, -1), (0, 1), (1, -1), (1, 0), (1, 1)]
}

/// How many of `cells` are alive.
pub open spec fn alive_count(cells: Seq<Cell>) -> nat
    decreases cells.len(),
{
    if cells.len() == 0 {
        0
    } else {
        alive_count(cells.drop_last()) + if cells.last() == Cell::Alive {
            1nat
        } else {
            0nat
        }
    }
}

/// A rectangle of cells stored row by row, whose opposite edges are glued
/// together.
pub struct Grid {
    pub width: nat,
    pub height: nat,
    pub cells: Seq<Cell>,
}

impl Grid {
    /// There is exactly one cell for each position.
    pub open spec fn wf(self) -> bool {
        self.cells.len() == self.width * self.height
    }

    /// The grid of the given size on which nothing lives.
    pub open spec fn dead(width: nat, height: nat) -> Grid {
        Grid { width, height, cells: Seq::new(width * height, |i: int| Cell::Dead) }
    }

    /// Whether column `x` of row `y` is a position of the grid.
    pub open spec fn contains(self, x: int, y: int) -> bool {
        0 <= x < self.width && 0 <= y < self.height
    }

    /// Place within `cells` of the cell in column `x` of row `y`.
    pub open spec fn index(self, x: int, y: int) -> int {
        y * self.width + x
    }

    /// Place within `cells` of the cell that `(x, y)` lands on once both
    /// axes wrap around.
    pub open spec fn index_from_signed(self, x: int, y: int) -> int {
        self.index(wrap(x, self.width), wrap(y, self.height))
    }

    /// The cell in column `x` of row `y`.
    pub open spec fn get(self, x: int, y: int) -> Cell {
        self.cells[self.index(x, y)]
    }

    /// The cell that `(x, y)` lands on once both axes wrap around.
    pub open spec fn get_from_signed(self, x: int, y: int) -> Cell {
        self.cells[self.index_from_signed(x, y)]
    }

    /// The grid with the cell that `(x, y)` lands on replaced by `cell`.
    pub open spec fn set(self, x: int, y: int, cell: Cell) -> Grid {
        Grid { cells: self.cells.update(self.index_from_signed(x, y), cell), ..self }
    }

    /// The cells reached from `(x, y)` by each of `offsets` in turn.
    pub open spec fn cells_around(self, x: int, y: int, offsets: Seq<(int, int)>) -> Seq<Cell> {
        Seq::new(
            offsets.len(),
            |i: int| self.get_from_signed(x + offsets[i].0, y + offsets[i].1),
        )
    }

    /// The eight cells that touch `(x, y)`.
    pub open spec fn neighbors(self, x: int, y: int) -> Seq<Cell> {
        self.cells_around(x, y, moore_offsets())
    }

    /// How many of the eight cells that touch `(x, y)` are alive.
    pub open spec fn count_living_neighbors(self, x: int, y: int) -> nat {
        alive_count(self.neighbors(x, y))
    }

    /// The state of the cell in column `x` of row `y` one generation on.
    pub open spec fn next_cell(self, x: int, y: int) -> Cell {
        self.get(x, y).successor(self.count_living_neighbors(x, y))
    }

    /// The grid one generation on: every cell replaced at once by its
    /// successor in this grid.
    pub open spec fn next_state(self) -> Grid {
        Grid {
            cells: Seq::new(
                self.cells.len(),
                |i: int| self.next_cell(i % (self.width as int), i / (self.width as int)),
            ),
            ..self
        }
    }

    /// The grid as text: one line per row, each made of the glyphs of the
    /// row's cells and closed by a line feed.
    pub open spec fn text(self) -> Seq<char> {
        let line = self.width as int + 1;
        Seq::new(
            (self.width + 1) * self.height,
            |i: int|
                if i % line == self.width {
                    '\n'
                } else {
                    self.get(i % line, i / line).glyph()
                },
        )
    }

    /// Every position of the grid has a place within `cells`, and no two
    /// positions share one.
    pub proof fn lemma_index_in_bounds(self, x: int, y: int)
        requires
            self.wf(),
            self.contains(x, y),
        ensures
            0 <= self.index(x, y) < self.cells.len(),
            self.index(x, y) % (self.width as int) == x,
            self.index(x, y) / (self.width as int) == y,
    {
        let w = self.width as int;
        let h = self.height as int;
        assert(0 <= y * w && y * w + w <= w * h) by (nonlinear_arith)
            requires
                0 <= y < h,
                0 < w,
        ;
        assert(y * w == w * y) by (nonlinear_arith);
        lemma_fundamental_div_mod_converse(self.index(x, y), w, y, x);
    }

    /// Wrapped coordinates always name a position of the grid.
    pub proof fn lemma_index_from_signed_in_bounds(self, x: int, y: int)
        requires
            self.wf(),
            self.width > 0,
            self.height > 0,
        ensures
            self.contains(wrap(x, self.width), wrap(y, self.height)),
            0 <= self.index_from_signed(x, y) < self.cells.len(),
    {
        lemma_wrap_in_range(x, self.width);
        lemma_wrap_in_range(y, self.height);
        self.lemma_index_in_bounds(wrap(x, self.width), wrap(y, self.height));
    }

    /// On a position of the grid, wrapping changes nothing: the wrapped
    /// index is the plain index, and the wrapped read is the plain read.
    pub proof fn lemma_index_from_signed_in_range(self, x: int, y: int)
        requires
            self.contains(x, y),
        ensures
            self.index_from_signed(x, y) == self.index(x, y),
            self.get_from_signed(x, y) == self.get(x, y),
    {
        lemma_wrap_in_range_is_identity(x, self.width);
        lemma_wrap_in_range_is_identity(y, self.height);
    }

    /// The grid repeats itself every `width` columns and every `height`
    /// rows.
    pub proof fn lemma_index_from_signed_periodic(self, x: int, y: int)
        ensures
            self.index_from_signed(x + self.width, y) == self.index_from_signed(x, y),
            self.index_from_signed(x, y + self.height) == self.index_from_signed(x, y),
    {
        lemma_wrap_periodic(x, self.width);
        lemma_wrap_periodic(y, self.height);
    }

    /// A cell has at most eight living neighbours.
    pub proof fn lemma_count_living_neighbors_at_most_eight(self, x: int, y: int)
        ensures
            self.count_living_neighbors(x, y) <= 8,
    {
        lemma_alive_count_at_most_len(self.neighbors(x, y));
    }

    /// The number of living neighbours does not depend on the order in which
    /// the neighbours are looked at: whatever order visits each of the eight
    /// neighbours once gives the same count.
    pub proof fn lemma_count_living_neighbors_any_order(
        self,
        x: int,
        y: int,
        order: Seq<(int, int)>,
    )
        requires
            visits_each_neighbor_once(order),
        ensures
            alive_count(self.cells_around(x, y, order)) == self.count_living_neighbors(x, y),
    {
        lemma_orders_are_rearrangements(order);
        self.lemma_alive_count_rearranged(x, y, order, moore_offsets());
    }

    /// Looking at the same offsets in another order finds as many living
    /// cells.
    proof fn lemma_alive_count_rearranged(
        self,
        x: int,
        y: int,
        one: Seq<(int, int)>,
        other: Seq<(int, int)>,
    )
        requires
            one.to_multiset() == other.to_multiset(),
        ensures
            alive_count(self.cells_around(x, y, one)) == alive_count(
                self.cells_around(x, y, other),
            ),
        decreases one.len(),
    {
        broadcast use vstd::seq_lib::group_to_multiset_ensures;

        if one.len() == 0 {
            to_multiset_len(one);
            to_multiset_len(other);
        } else {
            let last = one.last();
            assert(one.drop_last().push(last) =~= one);
            assert(other.to_multiset().count(last) > 0);
            assert(other.contains(last));
            let i = choose|i: int| 0 <= i < other.len() && other[i] == last;
            assert(one.drop_last().to_multiset() =~= other.remove(i).to_multiset());
            self.lemma_alive_count_rearranged(x, y, one.drop_last(), other.remove(i));
            assert(self.cells_around(x, y, one).drop_last() =~= self.cells_around(
                x,
                y,
                one.drop_last(),
            ));
            assert(self.cells_around(x, y, other).remove(i) =~= self.cells_around(
                x,
                y,
                other.remove(i),
            ));
            lemma_alive_count_remove(self.cells_around(x, y, other), i);
        }
    }

    /// Each cell of the next generation is the successor of the cell that
    /// stood in its place.
    pub proof fn lemma_next_state_get(self, x: int, y: int)
        requires
            self.wf(),
            self.contains(x, y),
        ensures
            self.next_state().wf(),
            self.next_state().get(x, y) == self.next_cell(x, y),
    {
        self.lemma_index_in_bounds(x, y);
    }

    /// A cell with exactly three living neighbours is alive in the next
    /// generation, whatever it was before.
    pub proof fn lemma_three_neighbors_give_life(self, x: int, y: int)
        requires
            self.wf(),
            self.contains(x, y),
            self.count_living_neighbors(x, y) == 3,
        ensures
            self.next_state().get(x, y) == Cell::Alive,
    {
        self.lemma_next_state_get(x, y);
    }

    /// A living cell with exactly two living neighbours stays alive.
    pub proof fn lemma_two_neighbors_keep_alive(self, x: int, y: int)
        requires
            self.wf(),
            self.contains(x, y),
            self.get(x, y) == Cell::Alive,
            self.count_living_neighbors(x, y) == 2,
        ensures
            self.next_state().get(x, y) == Cell::Alive,
    {
        self.lemma_next_state_get(x, y);
    }

    /// A dead cell stays dead unless it has exactly three living neighbours.
    pub proof fn lemma_dead_stays_dead(self, x: int, y: int)
        requires
            self.wf(),
            self.contains(x, y),
            self.get(x, y) == Cell::Dead,
            self.count_living_neighbors(x, y) != 3,
        ensures
            self.next_state().get(x, y) == Cell::Dead,
    {
        self.lemma_next_state_get(x, y);
    }

    /// A living cell dies unless it has two or three living neighbours.
    pub proof fn lemma_alive_dies(self, x: int, y: int)
        requires
            self.wf(),
            self.contains(x, y),
            self.get(x, y) == Cell::Alive,
            self.count_living_neighbors(x, y) != 2,
            self.count_living_neighbors(x, y) != 3,
        ensures
            self.next_state().get(x, y) == Cell::Dead,
    {
        self.lemma_next_state_get(x, y);
    }

    /// The next generation is decided by what the grid holds and by nothing
    /// else: two grids of one size that hold the same cell at every position
    /// have the same next generation.
    pub proof fn lemma_next_state_deterministic(self, other: Grid)
        requires
            self.wf(),
            other.wf(),
            self.width == other.width,
            self.height == other.height,
            forall|x: int, y: int| self.contains(x, y) ==> self.get(x, y) == other.get(x, y),
        ensures
            self == other,
            self.next_state() == other.next_state(),
    {
        let w = self.width as int;
        assert forall|i: int| 0 <= i < self.cells.len() implies self.cells[i] == other.cells[i] by {
            let x = i % w;
            let y = i / w;
            assert(w > 0 && 0 <= y < self.height) by (nonlinear_arith)
                requires
                    0 <= i < w * self.height,
                    y == i / w,
                    0 <= w,
                    0 <= self.height,
            ;
            lemma_fundamental_div_mod(i, w);
            assert(w * y == y * w) by (nonlinear_arith);
            assert(self.index(x, y) == i);
            assert(self.get(x, y) == other.get(x, y));
        }
        assert(self.cells =~= other.cells);
    }
}

/// Whether `offset` leads from a cell to one of the eight cells that touch it.
pub open spec fn is_moore_offset(offset: (int, int)) -> bool {
    -1 <= offset.0 <= 1 && -1 <= offset.1 <= 1 && offset != (0int, 0int)
}

/// Whether `order` names each of the eight neighbours of a cell, and each
/// only once.
pub open spec fn visits_each_neighbor_once(order: Seq<(int, int)>) -> bool {
    &&& order.len() == 8
    &&& forall|i: int| 0 <= i < order.len() ==> is_moore_offset(#[trigger] order[i])
    &&& order.no_duplicates()
}

/// The neighbours as this library lists them are each of the eight, once.
pub proof fn lemma_moore_offsets_visit_each_neighbor_once()
    ensures
        visits_each_neighbor_once(moore_offsets()),
        forall|offset: (int, int)|
            is_moore_offset(offset) <==> #[trigger] moore_offsets().contains(offset),
{
    let offsets = moore_offsets();
    assert forall|offset: (int, int)| is_moore_offset(offset) implies #[trigger] offsets.contains(
        offset,
    ) by {
        let place = 3 * (offset.0 + 1) + (offset.1 + 1);
        let i = if place > 4 {
            place - 1
        } else {
            place
        };
        assert(offsets[i] == offset);
    }
}

/// The offsets of `order` mirrored left to right.
pub open spec fn mirrored(order: Seq<(int, int)>) -> Seq<(int, int)> {
    Seq::new(order.len(), |i: int| (-order[i].0, order[i].1))
}

/// The offsets of `order` turned by a quarter of a circle.
pub open spec fn turned(order: Seq<(int, int)>) -> Seq<(int, int)> {
    Seq::new(order.len(), |i: int| (-order[i].1, order[i].0))
}

/// An order that visits each neighbour once still does so when it is read
/// backwards, mirrored, or turned by a quarter of a circle.
pub proof fn lemma_symmetric_orders_visit_each_neighbor_once(order: Seq<(int, int)>)
    requires
        visits_each_neighbor_once(order),
    ensures
        visits_each_neighbor_once(order.reverse()),
        visits_each_neighbor_once(mirrored(order)),
        visits_each_neighbor_once(turned(order)),
{
    assert forall|i: int, j: int|
        0 <= i < 8 && 0 <= j < 8 && i != j implies order.reverse()[i] != order.reverse()[j] by {
        assert(order[7 - i] != order[7 - j]);
    }
    assert forall|i: int, j: int| 0 <= i < 8 && 0 <= j < 8 && i != j implies mirrored(order)[i]
        != mirrored(order)[j] by {
        assert(order[i] != order[j]);
    }
    assert forall|i: int, j: int| 0 <= i < 8 && 0 <= j < 8 && i != j implies turned(order)[i]
        != turned(order)[j] by {
        assert(order[i] != order[j]);
    }
}

/// No more cells of a sequence are alive than it has cells.
pub proof fn lemma_alive_count_at_most_len(cells: Seq<Cell>)
    ensures
        alive_count(cells) <= cells.len(),
    decreases cells.len(),
{
    if cells.len() > 0 {
        lemma_alive_count_at_most_len(cells.drop_last());
    }
}

/// Taking one cell out of a sequence lowers its count of living cells by
/// one if that cell was alive, and leaves it otherwise.
proof fn lemma_alive_count_remove(cells: Seq<Cell>, i: int)
    requires
        0 <= i < cells.len(),
    ensures
        alive_count(cells) == alive_count(cells.remove(i)) + if cells[i] == Cell::Alive {
            1nat
        } else {
            0nat
        },
    decreases cells.len(),
{
    if i == cells.len() - 1 {
        assert(cells.remove(i) =~= cells.drop_last());
    } else {
        assert(cells.remove(i).drop_last() =~= cells.drop_last().remove(i));
        lemma_alive_count_remove(cells.drop_last(), i);
    }
}

/// Any order that visits each neighbour once holds the same offsets as this
/// library's own, each as often.
proof fn lemma_orders_are_rearrangements(order: Seq<(int, int)>)
    requires
        visits_each_neighbor_once(order),
    ensures
        order.to_multiset() == moore_offsets().to_multiset(),
{
    broadcast use vstd::seq_lib::group_to_multiset_ensures;

    let offsets = moore_offsets();
    lemma_moore_offsets_visit_each_neighbor_once();
    order.unique_seq_to_set();
    offsets.unique_seq_to_set();
    seq_to_set_is_finite(order);
    seq_to_set_is_finite(offsets);
    assert(order.to_set().subset_of(offsets.to_set())) by {
        assert forall|offset: (int, int)| order.to_set().contains(offset) implies offsets.to_set().contains(
            offset,
        ) by {
            let i = choose|i: int| 0 <= i < order.len() && order[i] == offset;
            assert(is_moore_offset(order[i]));
        }
    }
    lemma_subset_equality(order.to_set(), offsets.to_set());
    order.lemma_multiset_has_no_duplicates();
    offsets.lemma_multiset_has_no_duplicates();
    assert forall|offset: (int, int)|
        order.to_multiset().count(offset) == offsets.to_multiset().count(offset) by {
        assert(order.contains(offset) <==> order.to_set().contains(offset));
        assert(offsets.contains(offset) <==> offsets.to_set().contains(offset));
    }
    assert(order.to_multiset() =~= offsets.to_multiset());
}

} // verus!
