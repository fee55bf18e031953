use vstd::prelude::*;

use core::ops::Range;

use crate::config::Config;
use crate::ltl_engine::board as engine;
use crate::ltl_engine::board::{
    cell_steppable, down_state, is_chunking, next_cells, steppable, up_state, Cell,
};

verus! {

/// The board as the front end sees it: an engine board behind the
/// operations a user interface needs. The engine board inside is always
/// well formed.
#[derive(Debug, PartialEq)]
pub struct Board {
    board: engine::Board,
}

impl Board {
    /// The engine board inside is always well formed.
    #[verifier::type_invariant]
    spec fn inv(self) -> bool {
        self.board.wf()
    }

    /// The engine board inside.
    pub closed spec fn engine(&self) -> engine::Board {
        self.board
    }

    /// Takes the engine board out, leaving an empty board of the same rule
    /// in its place until it is put back.
    fn take_engine(&mut self) -> (board: engine::Board)
        ensures
            board == old(self).engine(),
            board.wf(),
    {
        proof {
            use_type_invariant(&*self);
        }
        let mut board = engine::Board::new(0, self.board.config(), 1);
        std::mem::swap(&mut board, &mut self.board);
        board
    }

    /// A new `size` by `size` board of dead cells under `config`, cut into
    /// chunks for `cores` workers.
    pub fn new(size: u64, config: &Config, cores: usize) -> (board: Board)
        requires
            size * size <= usize::MAX,
            cores > 0,
        ensures
            board.engine().wf(),
            board.engine().side() == size,
            board.engine().rule() == config@,
            board.engine().grid() == Seq::new((size * size) as nat, |i: int| 0u8),
            is_chunking(board.engine().chunking(), size * size, cores as int),
    {
        Board { board: engine::Board::new(size, config.config(), cores) }
    }

    /// Reset all cells to state 0.
    pub fn reset(&mut self)
        ensures
            final(self).engine().grid() == Seq::new(old(self).engine().grid().len(), |i: int| 0u8),
            final(self).engine().side() == old(self).engine().side(),
            final(self).engine().rule() == old(self).engine().rule(),
            final(self).engine().chunking() == old(self).engine().chunking(),
    {
        let mut board = self.take_engine();
        board.reset();
        self.board = board;
    }

    /// The state of the cell at row `x`, column `y`.
    pub fn get_cell(&self, x: usize, y: usize) -> (c: Cell)
        requires
            self.engine().in_range(x as int, y as int),
        ensures
            c == self.engine().cell(x as int, y as int),
    {
        self.board.get_cell(x, y)
    }

    /// Set the cell at row `x`, column `y` to `value`, one of the board's states.
    pub fn set_cell(&mut self, x: usize, y: usize, value: u8)
        requires
            old(self).engine().in_range(x as int, y as int),
            value < old(self).engine().states(),
        ensures
            final(self).engine().grid() == old(self).engine().grid().update(
                x * old(self).engine().side() + y,
                value,
            ),
            final(self).engine().side() == old(self).engine().side(),
            final(self).engine().rule() == old(self).engine().rule(),
            final(self).engine().chunking() == old(self).engine().chunking(),
    {
        let mut board = self.take_engine();
        board.set_cell(x, y, value);
        self.board = board;
    }

    /// Fill the board with states drawn at random from `0..state_count()`, one
    /// per cell in order.
    pub fn randomize(&mut self, draws: &Vec<Cell>)
        requires
            draws.len() == old(self).engine().grid().len(),
            forall|i: int| 0 <= i < draws.len() ==> #[trigger] draws@[i] < old(self).engine().states(),
        ensures
            final(self).engine().grid() == draws@,
            final(self).engine().side() == old(self).engine().side(),
            final(self).engine().rule() == old(self).engine().rule(),
            final(self).engine().chunking() == old(self).engine().chunking(),
    {
        let mut board = self.take_engine();
        board.randomize(draws);
        self.board = board;
    }

    /// Move the cell at row `x`, column `y` one state up, wrapping round.
    pub fn cell_up(&mut self, x: usize, y: usize)
        requires
            old(self).engine().in_range(x as int, y as int),
            old(self).engine().cell(x as int, y as int) < 255,
        ensures
            final(self).engine().grid() == old(self).engine().grid().update(
                x * old(self).engine().side() + y,
                up_state(old(self).engine().cell(x as int, y as int), old(self).engine().states()),
            ),
            final(self).engine().side() == old(self).engine().side(),
            final(self).engine().rule() == old(self).engine().rule(),
            final(self).engine().chunking() == old(self).engine().chunking(),
    {
        let mut board = self.take_engine();
        board.cell_up(x, y);
        self.board = board;
    }

    /// Move the cell at row `x`, column `y` one state down; state 0 stays.
    pub fn cell_down(&mut self, x: usize, y: usize)
        requires
            old(self).engine().in_range(x as int, y as int),
        ensures
            final(self).engine().grid() == old(self).engine().grid().update(
                x * old(self).engine().side() + y,
                down_state(old(self).engine().cell(x as int, y as int), old(self).engine().states()),
            ),
            final(self).engine().side() == old(self).engine().side(),
            final(self).engine().rule() == old(self).engine().rule(),
            final(self).engine().chunking() == old(self).engine().chunking(),
    {
        let mut board = self.take_engine();
        board.cell_down(x, y);
        self.board = board;
    }

    /// Step the automaton once.
    pub fn update(&mut self)
        requires
            steppable(old(self).engine().grid(), old(self).engine().rule()),
        ensures
            final(self).engine().grid() == next_cells(
                old(self).engine().grid(),
                old(self).engine().side(),
                old(self).engine().rule(),
            ),
            final(self).engine().side() == old(self).engine().side(),
            final(self).engine().rule() == old(self).engine().rule(),
            final(self).engine().chunking() == old(self).engine().chunking(),
    {
        let mut board = self.take_engine();
        board.update();
        self.board = board;
    }

    /// The cells `lo` up to (not including) `hi` one step on: one chunk of
    /// `update`'s work.
    pub fn update_range(&self, lo: usize, hi: usize) -> (part: Vec<Cell>)
        requires
            lo <= hi <= self.engine().grid().len(),
            forall|i: int|
                lo <= i < hi ==> #[trigger] cell_steppable(
                    self.engine().rule(),
                    self.engine().grid()[i],
                ),
        ensures
            part@ == next_cells(
                self.engine().grid(),
                self.engine().side(),
                self.engine().rule(),
            ).subrange(lo as int, hi as int),
    {
        proof {
            use_type_invariant(self);
        }
        self.board.update_range(lo, hi)
    }

    /// The chunks in which the board is stepped, in order.
    pub fn chunks(&self) -> (chunks: Vec<Range<usize>>)
        ensures
            chunks@ == self.engine().chunking(),
    {
        self.board.chunks()
    }

    /// Replace all cells by `cells`, which must be as many as the board holds.
    pub fn set_cells(&mut self, cells: Vec<Cell>)
        requires
            cells.len() == old(self).engine().grid().len(),
        ensures
            final(self).engine().grid() == cells@,
            final(self).engine().side() == old(self).engine().side(),
            final(self).engine().rule() == old(self).engine().rule(),
            final(self).engine().chunking() == old(self).engine().chunking(),
    {
        let mut board = self.take_engine();
        board.set_cells(cells);
        self.board = board;
    }

    /// The number of states a cell can take.
    pub fn state_count(&self) -> (n: u8)
        ensures
            n == self.engine().states(),
    {
        self.board.state_count()
    }

    /// The number of cells.
    pub fn cell_count(&self) -> (n: usize)
        ensures
            n == self.engine().grid().len(),
    {
        self.board.cell_count()
    }

    /// Whether row `x`, column `y` names a cell of the board.
    pub fn contains_cell(&self, x: usize, y: usize) -> (b: bool)
        ensures
            b == self.engine().in_range(x as int, y as int),
    {
        self.board.contains_cell(x, y)
    }

    /// Whether every cell can be stepped.
    pub fn is_steppable(&self) -> (b: bool)
        ensures
            b == steppable(self.engine().grid(), self.engine().rule()),
    {
        self.board.is_steppable()
    }
}

} // verus!
