use vstd::prelude::*;

use core::ops::Range;

use crate::ltl_engine::config::{state_count, Config};
use crate::ltl_engine::neighbourhood::Neighbourhood;

verus! {

/// How many chunks `len` cells are cut into for `cores` workers: one per
/// worker, but never more chunks than cells.
pub open spec fn chunk_count(len: int, cores: int) -> int {
    if len < cores {
        len
    } else {
        cores
    }
}

/// Where chunk `i` of `n` starts when `len` cells are cut into `n` chunks:
/// the first `len % n` chunks hold one cell more than the others.
pub open spec fn chunk_start(len: int, n: int, i: int) -> int {
    i * (len / n) + if i < len % n {
        i
    } else {
        len % n
    }
}

/// How many cells chunk `i` of `n` holds when `len` cells are cut into `n` chunks.
pub open spec fn chunk_len(len: int, n: int, i: int) -> int {
    len / n + if i < len % n {
        1int
    } else {
        0int
    }
}

/// `chunks` is the cut of `len` cells for `cores` workers: `chunk_count(len, cores)`
/// ranges, chunk `i` running from `chunk_start` for `chunk_len` cells.
pub open spec fn is_chunking(chunks: Seq<Range<usize>>, len: int, cores: int) -> bool {
    let n = chunk_count(len, cores);
    &&& chunks.len() == n
    &&& forall|i: int|
        #![trigger chunks[i]]
        0 <= i < n ==> chunks[i].start == chunk_start(len, n, i) && chunks[i].end == chunk_start(
            len,
            n,
            i,
        ) + chunk_len(len, n, i)
}

/// Each chunk ends where the next one starts.
proof fn lemma_chunk_step(len: int, n: int, i: int)
    requires
        n > 0,
        len >= 0,
        i >= 0,
    ensures
        chunk_start(len, n, i + 1) == chunk_start(len, n, i) + chunk_len(len, n, i),
{
    let q = len / n;
    assert((i + 1) * q == i * q + q) by (nonlinear_arith);
}

/// The chunks start at 0, never go backwards, and the last one ends at `len`.
proof fn lemma_chunk_bounds(len: int, n: int, i: int)
    requires
        n > 0,
        len >= 0,
        0 <= i <= n,
    ensures
        0 <= chunk_start(len, n, i) <= len,
        chunk_start(len, n, 0) == 0,
        chunk_start(len, n, n) == len,
        chunk_len(len, n, i) >= 0,
{
    let q = len / n;
    let m = len % n;
    vstd::arithmetic::div_mod::lemma_fundamental_div_mod(len, n);
    assert(len == n * q + m);
    assert(q >= 0) by {
        vstd::arithmetic::div_mod::lemma_div_pos_is_pos(len, n);
    }
    assert(0 <= i * q <= n * q) by (nonlinear_arith)
        requires
            0 <= i <= n,
            q >= 0,
    ;
    assert(0 * q == 0);
}

/// The chunks of `len < cores` cells: each cell is a chunk of its own.
proof fn lemma_chunk_singletons(len: int, i: int)
    requires
        0 < len,
        0 <= i,
    ensures
        chunk_start(len, len, i) == i,
        chunk_len(len, len, i) == 1,
{
    vstd::arithmetic::div_mod::lemma_div_by_self(len);
    vstd::arithmetic::div_mod::lemma_mod_self_0(len);
    assert(len / len == 1);
    assert(len % len == 0);
    assert(i * 1 == i);
}

/// Cutting `len` cells for `cores` workers gives chunks that lie one after the
/// other, start at 0, end at `len`, and differ in length by at most one:
/// together they hold every cell once, in order. There are as many chunks as
/// workers, or as cells when there are fewer cells; none is empty, and no
/// chunk is shorter than one after it.
pub proof fn lemma_chunking_partitions(chunks: Seq<Range<usize>>, len: int, cores: int)
    requires
        len >= 0,
        is_chunking(chunks, len, cores),
    ensures
        chunks.len() > 0 ==> chunks[0].start == 0 && chunks[chunks.len() - 1].end == len,
        chunks.len() == 0 ==> len == 0 || cores <= 0,
        forall|i: int| 0 <= i < chunks.len() - 1 ==> #[trigger] chunks[i].end == chunks[i + 1].start,
        forall|i: int| 0 <= i < chunks.len() ==> #[trigger] chunks[i].start <= chunks[i].end,
        forall|i: int| 0 <= i < chunks.len() ==> #[trigger] chunks[i].end <= len,
        forall|i: int, j: int|
            0 <= i < chunks.len() && 0 <= j < chunks.len() ==> #[trigger] (chunks[i].end
                - chunks[i].start) <= #[trigger] (chunks[j].end - chunks[j].start) + 1,
        chunks.len() == if len < cores {
            len
        } else {
            cores
        },
        forall|i: int| 0 <= i < chunks.len() ==> #[trigger] chunks[i].start < chunks[i].end,
        forall|i: int, j: int|
            0 <= i <= j < chunks.len() ==> #[trigger] (chunks[j].end - chunks[j].start) <= #[trigger] (
            chunks[i].end - chunks[i].start),
{
    let n = chunk_count(len, cores);
    if n > 0 {
        assert(len / n >= 1) by {
            if len < cores {
                vstd::arithmetic::div_mod::lemma_div_by_self(len);
            } else {
                vstd::arithmetic::div_mod::lemma_div_by_self(n);
                vstd::arithmetic::div_mod::lemma_div_is_ordered(n, len, n);
            }
        }
        lemma_chunk_bounds(len, n, 0);
        lemma_chunk_step(len, n, n - 1);
        lemma_chunk_bounds(len, n, n);
        assert(chunks[0].start == 0);
        assert(chunks[n - 1].end == len);
        assert forall|i: int| 0 <= i < chunks.len() - 1 implies #[trigger] chunks[i].end
            == chunks[i + 1].start by {
            lemma_chunk_step(len, n, i);
        }
        assert forall|i: int| 0 <= i < chunks.len() implies #[trigger] chunks[i].start
            <= chunks[i].end by {
            lemma_chunk_bounds(len, n, i);
        }
        assert forall|i: int| 0 <= i < chunks.len() implies #[trigger] chunks[i].end <= len by {
            lemma_chunk_step(len, n, i);
            lemma_chunk_bounds(len, n, i + 1);
        }
    }
}

/// The state of a cell.
pub type Cell = u8;

/// The cell at row `x`, column `y` of a board of side `size`.
pub open spec fn cell_at(cells: Seq<u8>, size: int, x: int, y: int) -> u8 {
    cells[x * size + y]
}

/// `chunks` lie one after the other, starting at 0 and ending at `len`.
pub open spec fn covers(chunks: Seq<Range<usize>>, len: int) -> bool {
    &&& chunks.len() == 0 ==> len == 0
    &&& chunks.len() > 0 ==> chunks[0].start == 0 && chunks[chunks.len() - 1].end == len
    &&& forall|i: int| 0 <= i < chunks.len() - 1 ==> #[trigger] chunks[i].end == chunks[i + 1].start
    &&& forall|i: int| 0 <= i < chunks.len() ==> #[trigger] chunks[i].start <= chunks[i].end
    &&& forall|i: int| 0 <= i < chunks.len() ==> #[trigger] chunks[i].end <= len
}

/// The cell at index `x * size + y` is the cell at row `x`, column `y`.
proof fn lemma_index_in_bounds(x: int, y: int, size: int)
    requires
        0 <= x < size,
        0 <= y < size,
    ensures
        0 <= x * size + y < size * size,
        0 <= x * size <= x * size + y,
{
    assert(0 <= x * size + y < size * size) by (nonlinear_arith)
        requires
            0 <= x < size,
            0 <= y < size,
    ;
}

/// Index `i` of a board of side `size` is row `i / size`, column `i % size`.
proof fn lemma_index_split(i: int, size: int)
    requires
        0 <= i < size * size,
        size > 0,
    ensures
        0 <= i / size < size,
        0 <= i % size < size,
        (i / size) * size + i % size == i,
{
    vstd::arithmetic::div_mod::lemma_fundamental_div_mod(i, size);
    vstd::arithmetic::div_mod::lemma_div_pos_is_pos(i, size);
    assert(i / size < size) by {
        vstd::arithmetic::div_mod::lemma_multiply_divide_lt(i, size, size);
    }
    assert((i / size) * size == size * (i / size)) by (nonlinear_arith);
}

/// A board: a `size` by `size` grid of cells, kept row after row in `cells`,
/// with the rule that steps it and the chunks in which it is stepped.
#[derive(Debug, Clone, PartialEq)]
pub struct Board {
    size: usize,
    chunks: Vec<Range<usize>>,
    config: Config,
    pub cells: Vec<Cell>,
}

impl Board {
    /// The side of the board.
    pub closed spec fn side(&self) -> int {
        self.size as int
    }

    /// The rule of the board.
    pub closed spec fn rule(&self) -> Config {
        self.config
    }

    /// The cells of the board, row after row.
    pub closed spec fn grid(&self) -> Seq<u8> {
        self.cells@
    }

    /// The chunks in which the board is stepped.
    pub closed spec fn chunking(&self) -> Seq<Range<usize>> {
        self.chunks@
    }

    /// The board's side is a length, the board holds `side * side` cells and
    /// its chunks cover them.
    pub open spec fn wf(&self) -> bool {
        &&& self.side() >= 0
        &&& self.grid().len() == self.side() * self.side()
        &&& covers(self.chunking(), self.grid().len() as int)
    }

    /// The number of states a cell of this board can take.
    pub open spec fn states(&self) -> u8 {
        state_count(self.rule())
    }

    /// The cell at row `x`, column `y`, read as the board reads it:
    /// at index `x * side + y`.
    pub open spec fn cell(&self, x: int, y: int) -> u8 {
        cell_at(self.grid(), self.side(), x, y)
    }

    /// `x * side + y` names a cell of the board.
    pub open spec fn in_range(&self, x: int, y: int) -> bool {
        0 <= x * self.side() + y < self.grid().len()
    }

    /// Create a new board of cells with the given size and configuration.
    ///
    /// The board is `size` by `size`, every cell in state 0, and its cells are
    /// cut into chunks for `cores` workers.
    pub fn new(size: u64, config: Config, cores: usize) -> (board: Self)
        requires
            size * size <= usize::MAX,
            cores > 0,
        ensures
            board.wf(),
            board.side() == size,
            board.rule() == config,
            board.grid() == Seq::new((size * size) as nat, |i: int| 0u8),
            is_chunking(board.chunking(), size * size, cores as int),
    {
        proof {
            if size > 0 {
                assert(size <= size * size) by (nonlinear_arith)
                    requires
                        size > 0,
                ;
            }
        }
        let side = size as usize;
        let len = (size * size) as usize;
        let chunks = Board::get_chunks(side, cores);
        proof {
            lemma_chunking_partitions(chunks@, len as int, cores as int);
        }
        let cells: Vec<Cell> = vec![0; len];
        let board = Board { size: side, chunks, config, cells };
        assert(board.grid() == Seq::new((size * size) as nat, |i: int| 0u8));
        board
    }

    /// Create a new board with the given configuration and cells.
    ///
    /// The number of cells must be a square: the board's side is its root.
    /// Its cells are cut into chunks for `cores` workers.
    pub fn from_cells(config: Config, cells: Vec<Cell>, cores: usize) -> (board: Self)
        requires
            exists|k: int| 0 <= k && #[trigger] (k * k) == cells.len(),
            cores > 0,
        ensures
            board.wf(),
            board.rule() == config,
            board.grid() == cells@,
            board.side() >= 0,
            board.side() * board.side() == cells.len(),
            is_chunking(board.chunking(), cells.len() as int, cores as int),
    {
        let ghost root = choose|k: int| 0 <= k && #[trigger] (k * k) == cells.len();
        let len = cells.len();
        proof {
            if root > 0 {
                assert(root <= root * root) by (nonlinear_arith)
                    requires
                        root > 0,
                ;
            }
        }
        let mut side: usize = 0;
        while side * side < len
            invariant
                0 <= root <= len,
                root * root == len,
                side <= root,
                side * side <= len,
            decreases root - side,
        {
            proof {
                if side == root {
                    assert(false);
                }
                assert((side + 1) * (side + 1) <= root * root) by (nonlinear_arith)
                    requires
                        0 <= side < root,
                ;
            }
            side = side + 1;
        }
        proof {
            if side < root {
                assert(side * side < root * root) by (nonlinear_arith)
                    requires
                        0 <= side < root,
                ;
            }
        }
        let chunks = Board::get_chunks(side, cores);
        proof {
            lemma_chunking_partitions(chunks@, len as int, cores as int);
        }
        Board { size: side, chunks, config, cells }
    }

    /// Cuts the `size * size` cells of a board into chunks for `cores` workers.
    ///
    /// With fewer cells than workers every cell is a chunk of its own; otherwise
    /// there is one chunk per worker, the first `len % cores` of them one cell
    /// longer than the rest.
    pub fn get_chunks(size: usize, cores: usize) -> (chunks: Vec<Range<usize>>)
        requires
            size * size <= usize::MAX,
        ensures
            is_chunking(chunks@, size * size, cores as int),
    {
        let len = size * size;
        if len < cores {
            let mut chunks: Vec<Range<usize>> = Vec::new();
            for start in 0..len
                invariant
                    len == size * size,
                    len < cores,
                    chunks.len() == start,
                    forall|j: int|
                        #![trigger chunks@[j]]
                        0 <= j < start ==> chunks@[j].start == j && chunks@[j].end == j + 1,
            {
                chunks.push(start..(start + 1));
            }
            proof {
                assert forall|i: int| 0 <= i < len implies chunks@[i].start == chunk_start(
                    len as int,
                    len as int,
                    i,
                ) && chunks@[i].end == chunk_start(len as int, len as int, i) + chunk_len(
                    len as int,
                    len as int,
                    i,
                ) by {
                    lemma_chunk_singletons(len as int, i);
                }
            }
            return chunks;
        }
        if cores == 0 {
            // No workers: nothing to hand out.
            return Vec::new();
        }
        let chunk_size_min = len / cores;
        proof {
            vstd::arithmetic::div_mod::lemma_fundamental_div_mod(len as int, cores as int);
            assert(len as int / cores as int <= len) by {
                vstd::arithmetic::div_mod::lemma_div_is_ordered_by_denominator(len as int, 1, cores as int);
            }
            if len % cores != 0 {
                assert(cores * (len as int / cores as int) >= len as int / cores as int) by (nonlinear_arith)
                    requires cores >= 1, len as int / cores as int >= 0;
            }
        }
        let chunk_size_max = if len % cores == 0 {
            chunk_size_min
        } else {
            chunk_size_min + 1
        };
        let ghost q = (len / cores) as int;
        let ghost m = (len % cores) as int;
        let ghost n = cores as int;
        proof {
            vstd::arithmetic::div_mod::lemma_fundamental_div_mod(len as int, n);
            lemma_chunk_bounds(len as int, n, 0);
        }
        let mut chunks: Vec<Range<usize>> = Vec::new();
        let mut cores_rem = cores;
        let mut start: usize = 0;
        while cores_rem > 0 && (len - start) % cores_rem != 0
            invariant
                len == size * size,
                0 < n == cores <= len,
                q == len as int / n,
                m == len as int % n,
                len == n * q + m,
                0 <= m < n,
                chunk_size_min == q,
                m > 0 ==> chunk_size_max == q + 1,
                cores_rem <= cores,
                cores - cores_rem <= m,
                start <= len,
                start == chunk_start(len as int, n, cores - cores_rem),
                chunks.len() == cores - cores_rem,
                forall|j: int|
                    #![trigger chunks@[j]]
                    0 <= j < chunks.len() ==> chunks@[j].start == chunk_start(len as int, n, j)
                        && chunks@[j].end == chunk_start(len as int, n, j) + chunk_len(len as int, n, j),
            decreases cores_rem,
        {
            let ghost k = (cores - cores_rem) as int;
            proof {
                lemma_chunk_bounds(len as int, n, k);
                assert(start == k * q + k);
                assert(len - start == (n - k) * q + (m - k)) by (nonlinear_arith)
                    requires
                        len == n * q + m,
                        start == k * q + k,
                ;
                if k == m {
                    assert(((n - k) * q) % (n - k) == 0) by {
                        vstd::arithmetic::div_mod::lemma_fundamental_div_mod_converse(
                            (n - k) * q,
                            n - k,
                            q,
                            0,
                        );
                    }
                    assert(false);
                }
                lemma_chunk_step(len as int, n, k);
                lemma_chunk_bounds(len as int, n, k + 1);
            }
            let end = start + chunk_size_max;
            chunks.push(start..end);
            start = end;
            cores_rem -= 1;
        }
        proof {
            let k = (cores - cores_rem) as int;
            if k < m {
                lemma_chunk_bounds(len as int, n, k);
                assert(start == k * q + k);
                assert(len - start == (n - k) * q + (m - k)) by (nonlinear_arith)
                    requires
                        len == n * q + m,
                        start == k * q + k,
                ;
                vstd::arithmetic::div_mod::lemma_fundamental_div_mod_converse(
                    len - start,
                    n - k,
                    q,
                    m - k,
                );
                assert(false);
            }
        }
        let mut done: usize = 0;
        while done < cores_rem
            invariant
                len == size * size,
                0 < n == cores <= len,
                q == len as int / n,
                m == len as int % n,
                0 <= m < n,
                chunk_size_min == q,
                cores - cores_rem == m,
                done <= cores_rem,
                start == chunk_start(len as int, n, m + done),
                chunks.len() == m + done,
                forall|j: int|
                    #![trigger chunks@[j]]
                    0 <= j < chunks.len() ==> chunks@[j].start == chunk_start(len as int, n, j)
                        && chunks@[j].end == chunk_start(len as int, n, j) + chunk_len(len as int, n, j),
            decreases cores_rem - done,
        {
            proof {
                lemma_chunk_step(len as int, n, m + done);
                lemma_chunk_bounds(len as int, n, m + done + 1);
            }
            let end = start + chunk_size_min;
            chunks.push(start..end);
            start = end;
            done += 1;
        }
        chunks
    }

    /// Reset all cells in the board to their initial state (0).
    pub fn reset(&mut self)
        ensures
            final(self).grid() == Seq::new(old(self).grid().len(), |i: int| 0u8),
            final(self).side() == old(self).side(),
            final(self).rule() == old(self).rule(),
            final(self).chunking() == old(self).chunking(),
    {
        let len = self.cells.len();
        let ghost before = self.cells@;
        for i in 0..len
            invariant
                len == self.cells@.len(),
                len == before.len(),
                forall|j: int| 0 <= j < i ==> self.cells@[j] == 0,
                self.size == old(self).size,
                self.config == old(self).config,
                self.chunks@ == old(self).chunks@,
        {
            self.cells.set(i, 0);
        }
        assert(self.cells@ == Seq::new(before.len(), |i: int| 0u8));
    }

    /// The index in `cells` of the cell at row `x`, column `y`.
    fn get_index(&self, x: usize, y: usize) -> (i: usize)
        requires
            self.in_range(x as int, y as int),
        ensures
            i == x * self.side() + y,
    {
        let len = self.cells.len();
        proof {
            assert(0 <= x * self.side());
            assert(x * self.side() + y < len);
        }
        x * self.size + y
    }

    /// Get the value of the cell at the given coordinates.
    pub fn get_cell(&self, x: usize, y: usize) -> (c: Cell)
        requires
            self.in_range(x as int, y as int),
        ensures
            c == self.cell(x as int, y as int),
    {
        self.cells[self.get_index(x, y)]
    }

    /// Set the value of the cell at the given coordinates.
    ///
    /// The value must be one of the board's states.
    pub fn set_cell(&mut self, x: usize, y: usize, value: Cell)
        requires
            old(self).in_range(x as int, y as int),
            value < old(self).states(),
        ensures
            final(self).grid() == old(self).grid().update(x * old(self).side() + y, value),
            final(self).side() == old(self).side(),
            final(self).rule() == old(self).rule(),
            final(self).chunking() == old(self).chunking(),
    {
        let i = self.get_index(x, y);
        self.cells.set(i, value);
    }

    /// Whether `x * side + y` names a cell of the board, so that the cell at
    /// row `x`, column `y` can be read and written.
    pub fn contains_cell(&self, x: usize, y: usize) -> (b: bool)
        ensures
            b == self.in_range(x as int, y as int),
    {
        let len = self.cells.len();
        match x.checked_mul(self.size) {
            None => false,
            Some(p) => match p.checked_add(y) {
                None => false,
                Some(i) => i < len,
            },
        }
    }

    /// The rule of the board.
    pub fn config(&self) -> (c: Config)
        ensures
            c == self.rule(),
    {
        self.config
    }

    /// The chunks in which the board is stepped, in order.
    pub fn chunks(&self) -> (chunks: Vec<Range<usize>>)
        ensures
            chunks@ == self.chunking(),
    {
        let n = self.chunks.len();
        let mut chunks: Vec<Range<usize>> = Vec::new();
        for k in 0..n
            invariant
                n == self.chunks@.len(),
                chunks@.len() == k,
                forall|j: int| 0 <= j < k ==> #[trigger] chunks@[j] == self.chunks@[j],
        {
            chunks.push(self.chunks[k].start..self.chunks[k].end);
        }
        assert(chunks@ == self.chunks@);
        chunks
    }

    /// Replace all cells of the board by `cells`, row after row. The board
    /// stays well formed when `cells` has as many cells as before.
    pub fn set_cells(&mut self, cells: Vec<Cell>)
        ensures
            final(self).grid() == cells@,
            final(self).side() == old(self).side(),
            final(self).rule() == old(self).rule(),
            final(self).chunking() == old(self).chunking(),
    {
        self.cells = cells;
    }

    /// The number of cells of the board.
    pub fn cell_count(&self) -> (n: usize)
        ensures
            n == self.grid().len(),
    {
        self.cells.len()
    }

    /// Whether every cell of the board can be stepped (see `steppable`).
    pub fn is_steppable(&self) -> (b: bool)
        ensures
            b == steppable(self.grid(), self.rule()),
    {
        let len = self.cells.len();
        for i in 0..len
            invariant
                len == self.grid().len(),
                forall|j: int| 0 <= j < i ==> #[trigger] cell_steppable(self.rule(), self.grid()[j]),
        {
            let c = self.cells[i];
            if c >= 2 && (self.config.cc == 0 || c == 255) {
                assert(!cell_steppable(self.rule(), self.grid()[i as int]));
                return false;
            }
        }
        true
    }

    /// The number of states a cell can take.
    pub fn state_count(&self) -> (n: u8)
        ensures
            n == self.states(),
            n >= 2,
    {
        self.config.state_count()
    }

    /// Fill the board with the given states, drawn at random by the caller
    /// from `0..state_count()`, one per cell in order.
    pub fn randomize(&mut self, draws: &Vec<Cell>)
        requires
            draws.len() == old(self).grid().len(),
            forall|i: int| 0 <= i < draws.len() ==> #[trigger] draws@[i] < old(self).states(),
        ensures
            final(self).grid() == draws@,
            final(self).side() == old(self).side(),
            final(self).rule() == old(self).rule(),
            final(self).chunking() == old(self).chunking(),
    {
        let len = self.cells.len();
        for i in 0..len
            invariant
                len == self.cells@.len(),
                len == draws@.len(),
                forall|j: int| 0 <= j < i ==> self.cells@[j] == draws@[j],
                self.size == old(self).size,
                self.config == old(self).config,
                self.chunks@ == old(self).chunks@,
        {
            self.cells.set(i, draws[i]);
        }
        assert(self.cells@ == draws@);
    }

    /// Increment the state of the cell at the given coordinates by one,
    /// wrapping round to 0 after the last state.
    pub fn cell_up(&mut self, x: usize, y: usize)
        requires
            old(self).in_range(x as int, y as int),
            old(self).cell(x as int, y as int) < 255,
        ensures
            final(self).grid() == old(self).grid().update(
                x * old(self).side() + y,
                up_state(old(self).cell(x as int, y as int), old(self).states()),
            ),
            final(self).side() == old(self).side(),
            final(self).rule() == old(self).rule(),
            final(self).chunking() == old(self).chunking(),
    {
        let value = (self.get_cell(x, y) + 1) % self.state_count();
        self.set_cell(x, y, value);
    }

    /// Decrement the state of the cell at the given coordinates by one; a cell
    /// in state 0 stays there.
    pub fn cell_down(&mut self, x: usize, y: usize)
        requires
            old(self).in_range(x as int, y as int),
        ensures
            final(self).grid() == old(self).grid().update(
                x * old(self).side() + y,
                down_state(old(self).cell(x as int, y as int), old(self).states()),
            ),
            final(self).side() == old(self).side(),
            final(self).rule() == old(self).rule(),
            final(self).chunking() == old(self).chunking(),
    {
        if self.get_cell(x, y) == 0 {
            assert(old(self).grid().update(x * old(self).side() + y, 0) == old(self).grid());
            return ;
        }
        let value = (self.get_cell(x, y) - 1) % self.state_count();
        self.set_cell(x, y, value);
    }
}

/// The state a cell in state `s` moves up to on a board with `n` states.
pub open spec fn up_state(s: u8, n: u8) -> u8 {
    ((s + 1) % (n as int)) as u8
}

/// The state a cell in state `s` moves down to on a board with `n` states.
pub open spec fn down_state(s: u8, n: u8) -> u8 {
    if s == 0 {
        0
    } else {
        ((s - 1) % (n as int)) as u8
    }
}

/// Moving a cell up takes a state `s` below the number of states `n` to
/// `s + 1`, or to 0 from the last state `n - 1`; moving it down takes it to
/// `s - 1`, and leaves state 0 where it is.
pub proof fn lemma_up_down_steps(s: u8, n: u8)
    requires
        n >= 2,
        s < n,
    ensures
        s + 1 < n ==> up_state(s, n) == s + 1,
        s + 1 == n ==> up_state(s, n) == 0,
        s > 0 ==> down_state(s, n) == s - 1,
        s == 0 ==> down_state(s, n) == 0,
{
    lemma_up_down_inverse(s, n);
    if s + 1 < n {
        vstd::arithmetic::div_mod::lemma_small_mod((s + 1) as nat, n as nat);
    }
    if s > 0 {
        vstd::arithmetic::div_mod::lemma_small_mod((s - 1) as nat, n as nat);
    }
}

/// Moving a cell down undoes moving it up, for every state but the last
/// (which wraps round to 0); moving it up undoes moving it down, for every
/// state but 0.
pub proof fn lemma_up_down_inverse(s: u8, n: u8)
    requires
        n >= 2,
        s < n,
    ensures
        s + 1 < n ==> down_state(up_state(s, n), n) == s,
        s + 1 == n ==> up_state(s, n) == 0,
        0 < s ==> up_state(down_state(s, n), n) == s,
{
    if s + 1 < n {
        vstd::arithmetic::div_mod::lemma_small_mod((s + 1) as nat, n as nat);
    }
    vstd::arithmetic::div_mod::lemma_small_mod(s as nat, n as nat);
    if s > 0 {
        vstd::arithmetic::div_mod::lemma_small_mod((s - 1) as nat, n as nat);
    }
    vstd::arithmetic::div_mod::lemma_mod_self_0(n as int);
}

/// The distance between `a` and `b`.
pub open spec fn abs_diff(a: int, b: int) -> int {
    if a >= b {
        a - b
    } else {
        b - a
    }
}

/// The cell at row `xi`, column `yi` belongs to the neighbourhood of shape
/// `shape` around the cell at row `x`, column `y` of a board of side `size`:
/// it lies on the board, within `rr` rows and `rr` columns of the centre
/// (within Manhattan distance `rr` for a von Neumann neighbourhood), and it is
/// not the centre itself unless `mm` is non-zero.
pub open spec fn in_neighbourhood(
    config: Config,
    shape: Neighbourhood,
    size: int,
    x: int,
    y: int,
    xi: int,
    yi: int,
) -> bool {
    let r = config.rr as int;
    &&& 0 <= xi < size
    &&& 0 <= yi < size
    &&& abs_diff(xi, x) <= r
    &&& abs_diff(yi, y) <= r
    &&& !(config.mm == 0 && xi == x && yi == y)
    &&& shape == Neighbourhood::Neumann ==> abs_diff(xi, x) + abs_diff(yi, y) <= r
}

/// The first row (or column) of the window of radius `r` around `c`.
pub open spec fn window_lo(c: int, r: int) -> int {
    if r > c {
        0
    } else {
        c - r
    }
}

/// The last row (or column) of the window of radius `r` around `c` on a
/// board of side `size`.
pub open spec fn window_hi(c: int, r: int, size: int) -> int {
    if size - 1 - c < r {
        size - 1
    } else {
        c + r
    }
}

/// The neighbours of `(x, y)` in row `xi`, columns `lo` up to (not including)
/// `hi`, from left to right.
pub open spec fn row_neighbours(
    cells: Seq<u8>,
    size: int,
    config: Config,
    shape: Neighbourhood,
    x: int,
    y: int,
    xi: int,
    lo: int,
    hi: int,
) -> Seq<u8>
    decreases hi - lo,
{
    if hi <= lo {
        Seq::empty()
    } else {
        let before = row_neighbours(cells, size, config, shape, x, y, xi, lo, hi - 1);
        if in_neighbourhood(config, shape, size, x, y, xi, hi - 1) {
            before.push(cell_at(cells, size, xi, hi - 1))
        } else {
            before
        }
    }
}

/// The neighbours of `(x, y)` in rows `x_lo` up to (not including) `x_hi`
/// and columns `y_lo` up to (not including) `y_hi`, row after row.
pub open spec fn block_neighbours(
    cells: Seq<u8>,
    size: int,
    config: Config,
    shape: Neighbourhood,
    x: int,
    y: int,
    x_lo: int,
    x_hi: int,
    y_lo: int,
    y_hi: int,
) -> Seq<u8>
    decreases x_hi - x_lo,
{
    if x_hi <= x_lo {
        Seq::empty()
    } else {
        block_neighbours(cells, size, config, shape, x, y, x_lo, x_hi - 1, y_lo, y_hi)
            + row_neighbours(cells, size, config, shape, x, y, x_hi - 1, y_lo, y_hi)
    }
}

/// The states of the neighbours of the cell at row `x`, column `y`, for a
/// neighbourhood of shape `shape`: the window of radius `rr` around the
/// cell, cut to the board, read row after row and left to right, keeping the
/// cells that `in_neighbourhood` admits.
pub open spec fn neighbourhood(
    cells: Seq<u8>,
    size: int,
    config: Config,
    shape: Neighbourhood,
    x: int,
    y: int,
) -> Seq<u8> {
    let r = config.rr as int;
    block_neighbours(
        cells,
        size,
        config,
        shape,
        x,
        y,
        window_lo(x, r),
        window_hi(x, r, size) + 1,
        window_lo(y, r),
        window_hi(y, r, size) + 1,
    )
}

/// How many of `states` are live, that is, not 0.
pub open spec fn live_count(states: Seq<u8>) -> nat
    decreases states.len(),
{
    if states.len() == 0 {
        0
    } else {
        live_count(states.drop_last()) + if states.last() > 0 {
            1nat
        } else {
            0nat
        }
    }
}

/// The number of live neighbours of the cell at row `x`, column `y`, in the
/// board's own neighbourhood shape, kept to 16 bits as a `u16` keeps it.
pub open spec fn neighbourhood_count(cells: Seq<u8>, size: int, config: Config, x: int, y: int) -> u16 {
    (live_count(neighbourhood(cells, size, config, config.nn, x, y)) % 0x10000) as u16
}

/// A dead cell with `count` live neighbours comes alive.
pub open spec fn born(config: Config, count: u16) -> bool {
    config.bb.0 <= count <= config.bb.1
}

/// A live cell with `count` live neighbours stays alive.
pub open spec fn survives(config: Config, count: u16) -> bool {
    config.ss.0 <= count <= config.ss.1
}

/// The next state of a cell in state `state` with `count` live neighbours:
/// a dead cell (0) is born into state 1 or stays dead; a live cell (1) stays
/// alive, or dies, into state 2 when there are more than two states and
/// into 0 otherwise; a dying cell (2 and up) moves on to the next state,
/// wrapping round to 0 after state `cc - 1`.
pub open spec fn next_state(config: Config, state: u8, count: u16) -> u8 {
    if state == 0 {
        if born(config, count) {
            1
        } else {
            0
        }
    } else if state == 1 {
        if survives(config, count) {
            1
        } else if config.cc > 2 {
            2
        } else {
            0
        }
    } else {
        ((state + 1) % (config.cc as int)) as u8
    }
}

/// The cells of a board after one step of the automaton: every cell, at
/// once, takes the next state for its own state and its live neighbours.
pub open spec fn next_cells(cells: Seq<u8>, size: int, config: Config) -> Seq<u8> {
    Seq::new(
        cells.len(),
        |i: int|
            next_state(
                config,
                cells[i],
                neighbourhood_count(cells, size, config, i / size, i % size),
            ),
    )
}

/// A cell in state `state` can be stepped: in a dying state (2 and up) it
/// has a next state, which asks for some states (`cc > 0`) and a state below 255.
pub open spec fn cell_steppable(config: Config, state: u8) -> bool {
    state >= 2 ==> config.cc > 0 && state < 255
}

/// Every cell can be stepped.
pub open spec fn steppable(cells: Seq<u8>, config: Config) -> bool {
    forall|i: int| 0 <= i < cells.len() ==> #[trigger] cell_steppable(config, cells[i])
}

impl Board {
    /// Whether the cell at row `x_i`, column `y_i` is counted around `(x, y)`
    /// in a neighbourhood of shape `shape`, and if so, its state.
    fn neighbour_value(&self, shape: Neighbourhood, x: usize, y: usize, x_i: usize, y_i: usize) -> (v:
        Option<Cell>)
        requires
            self.wf(),
            x < self.side(),
            y < self.side(),
            x_i < self.side(),
            y_i < self.side(),
            abs_diff(x_i as int, x as int) <= self.rule().rr,
            abs_diff(y_i as int, y as int) <= self.rule().rr,
        ensures
            v == if in_neighbourhood(
                self.rule(),
                shape,
                self.side(),
                x as int,
                y as int,
                x_i as int,
                y_i as int,
            ) {
                Some(self.cell(x_i as int, y_i as int))
            } else {
                None::<Cell>
            },
    {
        proof {
            lemma_index_in_bounds(x_i as int, y_i as int, self.side());
        }
        if self.config.mm == 0 && x_i == x && y_i == y {
            return None;
        }
        match shape {
            Neighbourhood::Neumann => {
                let dx = if x_i >= x {
                    x_i - x
                } else {
                    x - x_i
                };
                let dy = if y_i >= y {
                    y_i - y
                } else {
                    y - y_i
                };
                if dx + dy <= self.config.rr as usize {
                    Some(self.get_cell(x_i, y_i))
                } else {
                    None
                }
            },
            Neighbourhood::Moore => Some(self.get_cell(x_i, y_i)),
        }
    }

    /// Returns the neighbourhood of shape `shape` of the cell at the given
    /// coordinates: the states of its neighbours, row after row.
    fn get_neighbourhood(&self, x: usize, y: usize, shape: Neighbourhood) -> (neighbours: Vec<Cell>)
        requires
            self.wf(),
            x < self.side(),
            y < self.side(),
        ensures
            neighbours@ == neighbourhood(
                self.grid(),
                self.side(),
                self.rule(),
                shape,
                x as int,
                y as int,
            ),
    {
        let r = self.config.rr as usize;
        let x_min = if r > x {
            0
        } else {
            x - r
        };
        let y_min = if r > y {
            0
        } else {
            y - r
        };
        let x_max = if self.size - 1 - x < r {
            self.size - 1
        } else {
            x + r
        };
        let y_max = if self.size - 1 - y < r {
            self.size - 1
        } else {
            y + r
        };
        let ghost cells = self.grid();
        let ghost size = self.side();
        let ghost config = self.rule();
        let mut neighbours: Vec<Cell> = Vec::new();
        let mut x_i = x_min;
        while x_i <= x_max
            invariant
                self.wf(),
                x < size,
                y < size,
                cells == self.grid(),
                size == self.side(),
                config == self.rule(),
                r == config.rr,
                x_min == window_lo(x as int, r as int),
                y_min == window_lo(y as int, r as int),
                x_max == window_hi(x as int, r as int, size),
                y_max == window_hi(y as int, r as int, size),
                x_min <= x_i <= x_max + 1,
                neighbours@ == block_neighbours(
                    cells,
                    size,
                    config,
                    shape,
                    x as int,
                    y as int,
                    x_min as int,
                    x_i as int,
                    y_min as int,
                    y_max + 1,
                ),
            decreases x_max + 1 - x_i,
        {
            let mut y_i = y_min;
            let ghost rows = neighbours@;
            while y_i <= y_max
                invariant
                    self.wf(),
                    x < size,
                    y < size,
                    cells == self.grid(),
                    size == self.side(),
                    config == self.rule(),
                    r == config.rr,
                    x_min == window_lo(x as int, r as int),
                    y_min == window_lo(y as int, r as int),
                    x_max == window_hi(x as int, r as int, size),
                    y_max == window_hi(y as int, r as int, size),
                    x_min <= x_i <= x_max,
                    y_min <= y_i <= y_max + 1,
                    rows == block_neighbours(
                        cells,
                        size,
                        config,
                        shape,
                        x as int,
                        y as int,
                        x_min as int,
                        x_i as int,
                        y_min as int,
                        y_max + 1,
                    ),
                    neighbours@ == rows + row_neighbours(
                        cells,
                        size,
                        config,
                        shape,
                        x as int,
                        y as int,
                        x_i as int,
                        y_min as int,
                        y_i as int,
                    ),
                decreases y_max + 1 - y_i,
            {
                let cell = self.neighbour_value(shape, x, y, x_i, y_i);
                if let Some(s) = cell {
                    neighbours.push(s);
                }
                y_i += 1;
            }
            x_i += 1;
        }
        neighbours
    }

    /// Returns the neighbourhood of the cell at the given coordinates, using
    /// the von Neumann neighbourhood.
    pub fn get_neighbourhood_neumann(&self, x: usize, y: usize) -> (neighbours: Vec<Cell>)
        requires
            self.wf(),
            x < self.side(),
            y < self.side(),
        ensures
            neighbours@ == neighbourhood(
                self.grid(),
                self.side(),
                self.rule(),
                Neighbourhood::Neumann,
                x as int,
                y as int,
            ),
    {
        self.get_neighbourhood(x, y, Neighbourhood::Neumann)
    }

    /// Returns the neighbourhood of the cell at the given coordinates, using
    /// the Moore neighbourhood.
    pub fn get_neighbourhood_moore(&self, x: usize, y: usize) -> (neighbours: Vec<Cell>)
        requires
            self.wf(),
            x < self.side(),
            y < self.side(),
        ensures
            neighbours@ == neighbourhood(
                self.grid(),
                self.side(),
                self.rule(),
                Neighbourhood::Moore,
                x as int,
                y as int,
            ),
    {
        self.get_neighbourhood(x, y, Neighbourhood::Moore)
    }

    /// Returns the number of live cells in the neighbourhood of the cell at
    /// the given coordinates, in the board's own neighbourhood shape.
    pub fn get_neighbourhood_count(&self, x: usize, y: usize) -> (count: u16)
        requires
            self.wf(),
            x < self.side(),
            y < self.side(),
        ensures
            count == neighbourhood_count(self.grid(), self.side(), self.rule(), x as int, y as int),
    {
        let neighbourhood = match self.config.nn {
            Neighbourhood::Neumann => self.get_neighbourhood_neumann(x, y),
            Neighbourhood::Moore => self.get_neighbourhood_moore(x, y),
        };
        let mut count: usize = 0;
        let len = neighbourhood.len();
        for i in 0..len
            invariant
                len == neighbourhood@.len(),
                count <= i,
                count == live_count(neighbourhood@.take(i as int)),
        {
            assert(neighbourhood@.take(i + 1).drop_last() == neighbourhood@.take(i as int));
            if neighbourhood[i] > 0 {
                count += 1;
            }
        }
        assert(neighbourhood@.take(len as int) == neighbourhood@);
        (count % 0x10000) as u16
    }

    /// Check if a cell satisfies the birth condition: `neighbourhood_count`
    /// lies within the configured birth range.
    fn check_birth(&self, neighbourhood_count: u16) -> (b: bool)
        ensures
            b == born(self.rule(), neighbourhood_count),
    {
        self.config.bb.0 <= neighbourhood_count && neighbourhood_count <= self.config.bb.1
    }

    /// Check if a cell satisfies the survival condition: `neighbourhood_count`
    /// lies within the configured survival range.
    fn check_survival(&self, neighbourhood_count: u16) -> (b: bool)
        ensures
            b == survives(self.rule(), neighbourhood_count),
    {
        self.config.ss.0 <= neighbourhood_count && neighbourhood_count <= self.config.ss.1
    }

    /// Return the updated state of the cell at the given coordinates.
    fn update_cell(&self, x: usize, y: usize) -> (c: Cell)
        requires
            self.wf(),
            x < self.side(),
            y < self.side(),
            cell_steppable(self.rule(), self.cell(x as int, y as int)),
        ensures
            c == next_state(
                self.rule(),
                self.cell(x as int, y as int),
                neighbourhood_count(self.grid(), self.side(), self.rule(), x as int, y as int),
            ),
            self.cell(x as int, y as int) < self.states() ==> c < self.states(),
    {
        proof {
            lemma_index_in_bounds(x as int, y as int, self.side());
        }
        let neighbourhood_count = self.get_neighbourhood_count(x, y);
        let state = self.get_cell(x, y);
        match state {
            0 => if self.check_birth(neighbourhood_count) {
                1
            } else {
                0
            },
            1 => {
                if self.check_survival(neighbourhood_count) {
                    1
                } else if self.config.cc > 2 {
                    2
                } else {
                    0
                }
            },
            _ => {
                proof {
                    if state < self.states() {
                        vstd::arithmetic::div_mod::lemma_mod_bound(
                            (state + 1) as int,
                            self.config.cc as int,
                        );
                    }
                }
                (state + 1) % self.config.cc
            },
        }
    }

    /// Updates the state of all cells on the board according to the rules of
    /// the automaton.
    pub fn update(&mut self)
        requires
            old(self).wf(),
            steppable(old(self).grid(), old(self).rule()),
        ensures
            final(self).wf(),
            final(self).grid() == next_cells(old(self).grid(), old(self).side(), old(self).rule()),
            final(self).side() == old(self).side(),
            final(self).rule() == old(self).rule(),
            final(self).chunking() == old(self).chunking(),
    {
        self.cells = self._update();
    }

    /// The cells `lo` up to (not including) `hi` of the board one step on.
    ///
    /// This is one chunk of `update`'s work: the chunks of a board can be
    /// stepped apart, in any order or at once, and put back together.
    pub fn update_range(&self, lo: usize, hi: usize) -> (part: Vec<Cell>)
        requires
            self.wf(),
            lo <= hi <= self.grid().len(),
            forall|i: int| lo <= i < hi ==> #[trigger] cell_steppable(self.rule(), self.grid()[i]),
        ensures
            part@ == next_cells(self.grid(), self.side(), self.rule()).subrange(lo as int, hi as int),
    {
        let ghost next = next_cells(self.grid(), self.side(), self.rule());
        let mut part: Vec<Cell> = Vec::new();
        for i in lo..hi
            invariant
                self.wf(),
                lo <= hi <= self.grid().len(),
                forall|j: int| lo <= j < hi ==> #[trigger] cell_steppable(self.rule(), self.grid()[j]),
                next == next_cells(self.grid(), self.side(), self.rule()),
                part@.len() == i - lo,
                forall|j: int| 0 <= j < part@.len() ==> #[trigger] part@[j] == next[lo + j],
        {
            proof {
                lemma_index_split(i as int, self.side());
                assert(cell_steppable(self.rule(), self.grid()[i as int]));
            }
            let x = i / self.size;
            let y = i % self.size;
            let c = self.update_cell(x, y);
            part.push(c);
        }
        assert(part@ == next.subrange(lo as int, hi as int));
        part
    }

    /// The cells of the board one step on, computed chunk after chunk.
    fn _update(&self) -> (results: Vec<Cell>)
        requires
            self.wf(),
            steppable(self.grid(), self.rule()),
        ensures
            results@ == next_cells(self.grid(), self.side(), self.rule()),
    {
        let ghost next = next_cells(self.grid(), self.side(), self.rule());
        let ghost len = self.grid().len() as int;
        let mut results: Vec<Cell> = Vec::new();
        let n = self.chunks.len();
        for k in 0..n
            invariant
                self.wf(),
                steppable(self.grid(), self.rule()),
                next == next_cells(self.grid(), self.side(), self.rule()),
                len == self.grid().len(),
                n == self.chunks@.len(),
                results@.len() == if k == 0 {
                    0
                } else {
                    self.chunks@[k - 1].end as int
                },
                forall|j: int| 0 <= j < results@.len() ==> #[trigger] results@[j] == next[j],
        {
            let lo = self.chunks[k].start;
            let hi = self.chunks[k].end;
            let mut part = self.update_range(lo, hi);
            let ghost before = results@;
            results.append(&mut part);
            assert forall|j: int| 0 <= j < results@.len() implies #[trigger] results@[j] == next[j] by {
                if j >= before.len() {
                    assert(results@[j] == next.subrange(lo as int, hi as int)[j - lo]);
                }
            }
        }
        assert(results@ == next);
        results
    }
}

} // verus!
