//! Properties of the automaton that span its operations.
use vstd::prelude::*;

use crate::ltl_engine::board::{
    abs_diff, block_neighbours, born, cell_at, in_neighbourhood, live_count, neighbourhood,
    neighbourhood_count, next_cells, row_neighbours, steppable, window_hi, window_lo, Board,
};
use crate::ltl_engine::config::{state_count, Config};
use crate::ltl_engine::neighbourhood::Neighbourhood;

verus! {

/// Counting the live states of two sequences one after the other is adding
/// their counts.
pub proof fn lemma_live_count_concat(a: Seq<u8>, b: Seq<u8>)
    ensures
        live_count(a + b) == live_count(a) + live_count(b),
    decreases b.len(),
{
    if b.len() == 0 {
        assert(a + b =~= a);
    } else {
        lemma_live_count_concat(a, b.drop_last());
        assert((a + b).drop_last() =~= a + b.drop_last());
        assert((a + b).last() == b.last());
    }
}

/// Appending a state adds one to the live count when the state is live.
proof fn lemma_live_count_push(s: Seq<u8>, v: u8)
    ensures
        live_count(s.push(v)) == live_count(s) + if v > 0 {
            1nat
        } else {
            0nat
        },
{
    assert(s.push(v).drop_last() =~= s);
}

/// Within one row of the window, the von Neumann shape keeps no more live
/// cells than the Moore shape.
proof fn lemma_row_neumann_within_moore(
    cells: Seq<u8>,
    size: int,
    config: Config,
    x: int,
    y: int,
    xi: int,
    lo: int,
    hi: int,
)
    ensures
        live_count(row_neighbours(cells, size, config, Neighbourhood::Neumann, x, y, xi, lo, hi))
            <= live_count(row_neighbours(cells, size, config, Neighbourhood::Moore, x, y, xi, lo, hi)),
    decreases hi - lo,
{
    if hi > lo {
        lemma_row_neumann_within_moore(cells, size, config, x, y, xi, lo, hi - 1);
        let c = cell_at(cells, size, xi, hi - 1);
        let vn = row_neighbours(cells, size, config, Neighbourhood::Neumann, x, y, xi, lo, hi - 1);
        let mo = row_neighbours(cells, size, config, Neighbourhood::Moore, x, y, xi, lo, hi - 1);
        lemma_live_count_push(vn, c);
        lemma_live_count_push(mo, c);
    }
}

/// Over rows `x_lo` to `x_hi` of the window, the von Neumann shape keeps no
/// more live cells than the Moore shape.
proof fn lemma_block_neumann_within_moore(
    cells: Seq<u8>,
    size: int,
    config: Config,
    x: int,
    y: int,
    x_lo: int,
    x_hi: int,
    y_lo: int,
    y_hi: int,
)
    ensures
        live_count(
            block_neighbours(cells, size, config, Neighbourhood::Neumann, x, y, x_lo, x_hi, y_lo, y_hi),
        ) <= live_count(
            block_neighbours(cells, size, config, Neighbourhood::Moore, x, y, x_lo, x_hi, y_lo, y_hi),
        ),
    decreases x_hi - x_lo,
{
    if x_hi > x_lo {
        lemma_block_neumann_within_moore(cells, size, config, x, y, x_lo, x_hi - 1, y_lo, y_hi);
        lemma_row_neumann_within_moore(cells, size, config, x, y, x_hi - 1, y_lo, y_hi);
        lemma_live_count_concat(
            block_neighbours(cells, size, config, Neighbourhood::Neumann, x, y, x_lo, x_hi - 1, y_lo, y_hi),
            row_neighbours(cells, size, config, Neighbourhood::Neumann, x, y, x_hi - 1, y_lo, y_hi),
        );
        lemma_live_count_concat(
            block_neighbours(cells, size, config, Neighbourhood::Moore, x, y, x_lo, x_hi - 1, y_lo, y_hi),
            row_neighbours(cells, size, config, Neighbourhood::Moore, x, y, x_hi - 1, y_lo, y_hi),
        );
    }
}

/// The von Neumann neighbourhood of a cell never holds more live cells than
/// its Moore neighbourhood of the same range: the diamond lies inside the
/// square.
pub proof fn lemma_neumann_within_moore(cells: Seq<u8>, size: int, config: Config, x: int, y: int)
    ensures
        live_count(neighbourhood(cells, size, config, Neighbourhood::Neumann, x, y)) <= live_count(
            neighbourhood(cells, size, config, Neighbourhood::Moore, x, y),
        ),
{
    let r = config.rr as int;
    lemma_block_neumann_within_moore(
        cells,
        size,
        config,
        x,
        y,
        window_lo(x, r),
        window_hi(x, r, size) + 1,
        window_lo(y, r),
        window_hi(y, r, size) + 1,
    );
}

/// Being neighbours is symmetric: a cell is in the neighbourhood of another
/// exactly when the other is in its own, for any two cells of the board.
pub proof fn lemma_neighbours_symmetric(
    config: Config,
    shape: Neighbourhood,
    size: int,
    x: int,
    y: int,
    xi: int,
    yi: int,
)
    requires
        0 <= x < size,
        0 <= y < size,
        0 <= xi < size,
        0 <= yi < size,
    ensures
        in_neighbourhood(config, shape, size, x, y, xi, yi) == in_neighbourhood(
            config,
            shape,
            size,
            xi,
            yi,
            x,
            y,
        ),
{
    assert(abs_diff(xi, x) == abs_diff(x, xi));
    assert(abs_diff(yi, y) == abs_diff(y, yi));
}

/// On a board of dead cells, a row of the window holds no live cell.
proof fn lemma_row_dead(
    cells: Seq<u8>,
    size: int,
    config: Config,
    shape: Neighbourhood,
    x: int,
    y: int,
    xi: int,
    lo: int,
    hi: int,
)
    requires
        cells.len() == size * size,
        forall|i: int| 0 <= i < cells.len() ==> #[trigger] cells[i] == 0,
    ensures
        live_count(row_neighbours(cells, size, config, shape, x, y, xi, lo, hi)) == 0,
    decreases hi - lo,
{
    if hi > lo {
        lemma_row_dead(cells, size, config, shape, x, y, xi, lo, hi - 1);
        let before = row_neighbours(cells, size, config, shape, x, y, xi, lo, hi - 1);
        if in_neighbourhood(config, shape, size, x, y, xi, hi - 1) {
            assert(0 <= xi * size + (hi - 1) < size * size) by (nonlinear_arith)
                requires
                    0 <= xi < size,
                    0 <= hi - 1 < size,
            ;
            lemma_live_count_push(before, cell_at(cells, size, xi, hi - 1));
        }
    }
}

/// On a board of dead cells, the window holds no live cell.
proof fn lemma_block_dead(
    cells: Seq<u8>,
    size: int,
    config: Config,
    shape: Neighbourhood,
    x: int,
    y: int,
    x_lo: int,
    x_hi: int,
    y_lo: int,
    y_hi: int,
)
    requires
        cells.len() == size * size,
        forall|i: int| 0 <= i < cells.len() ==> #[trigger] cells[i] == 0,
    ensures
        live_count(block_neighbours(cells, size, config, shape, x, y, x_lo, x_hi, y_lo, y_hi)) == 0,
    decreases x_hi - x_lo,
{
    if x_hi > x_lo {
        lemma_block_dead(cells, size, config, shape, x, y, x_lo, x_hi - 1, y_lo, y_hi);
        lemma_row_dead(cells, size, config, shape, x, y, x_hi - 1, y_lo, y_hi);
        lemma_live_count_concat(
            block_neighbours(cells, size, config, shape, x, y, x_lo, x_hi - 1, y_lo, y_hi),
            row_neighbours(cells, size, config, shape, x, y, x_hi - 1, y_lo, y_hi),
        );
    }
}

/// A board of dead cells steps, as a whole, to a board of live cells when a
/// dead cell with no live neighbour is born, and stays dead otherwise.
pub proof fn lemma_dead_board_step(cells: Seq<u8>, size: int, config: Config)
    requires
        cells.len() == size * size,
        forall|i: int| 0 <= i < cells.len() ==> #[trigger] cells[i] == 0,
    ensures
        next_cells(cells, size, config) == Seq::new(
            cells.len(),
            |i: int|
                if born(config, 0) {
                    1u8
                } else {
                    0u8
                },
        ),
{
    let r = config.rr as int;
    assert forall|i: int| 0 <= i < cells.len() implies #[trigger] neighbourhood_count(
        cells,
        size,
        config,
        i / size,
        i % size,
    ) == 0 by {
        lemma_block_dead(
            cells,
            size,
            config,
            config.nn,
            i / size,
            i % size,
            window_lo(i / size, r),
            window_hi(i / size, r, size) + 1,
            window_lo(i % size, r),
            window_hi(i % size, r, size) + 1,
        );
    }
    assert(next_cells(cells, size, config) =~= Seq::new(
        cells.len(),
        |i: int|
            if born(config, 0) {
                1u8
            } else {
                0u8
            },
    ));
}

/// A board whose cells all hold one of its states can be stepped, and after
/// the step its cells all hold one of its states again.
pub proof fn lemma_step_keeps_states(cells: Seq<u8>, size: int, config: Config)
    requires
        forall|i: int| 0 <= i < cells.len() ==> #[trigger] cells[i] < state_count(config),
    ensures
        steppable(cells, config),
        forall|i: int|
            0 <= i < cells.len() ==> #[trigger] next_cells(cells, size, config)[i] < state_count(
                config,
            ),
{
    assert forall|i: int| 0 <= i < cells.len() implies #[trigger] next_cells(cells, size, config)[i]
        < state_count(config) by {
        let s = cells[i];
        if s >= 2 {
            assert((s + 1) % (config.cc as int) < config.cc as int) by {
                vstd::arithmetic::div_mod::lemma_mod_bound((s + 1) as int, config.cc as int);
            }
        }
    }
}

/// Reading a cell after writing it gives the value written, and every other
/// cell keeps its state.
pub proof fn lemma_read_after_write(before: Board, after: Board, x: int, y: int, value: u8)
    requires
        before.in_range(x, y),
        after.side() == before.side(),
        after.grid() == before.grid().update(x * before.side() + y, value),
    ensures
        after.cell(x, y) == value,
        forall|x2: int, y2: int|
            before.in_range(x2, y2) && x2 * before.side() + y2 != x * before.side() + y
                ==> #[trigger] after.cell(x2, y2) == before.cell(x2, y2),
{
}


/// Whether the cell at row `xi`, column `yi` is a live neighbour of the cell
/// at row `x`, column `y` (1) or not (0).
pub open spec fn live_neighbour(
    cells: Seq<u8>,
    size: int,
    config: Config,
    shape: Neighbourhood,
    x: int,
    y: int,
) -> spec_fn(int, int) -> nat {
    |xi: int, yi: int|
        if in_neighbourhood(config, shape, size, x, y, xi, yi) && cell_at(cells, size, xi, yi) > 0 {
            1nat
        } else {
            0nat
        }
}

/// The sum of `f(x, yi)` over columns `lo` up to (not including) `hi`.
pub open spec fn row_sum(f: spec_fn(int, int) -> nat, x: int, lo: int, hi: int) -> nat
    decreases hi - lo,
{
    if hi <= lo {
        0
    } else {
        row_sum(f, x, lo, hi - 1) + f(x, hi - 1)
    }
}

/// The sum of `f(xi, yi)` over rows `x_lo..x_hi` and columns `y_lo..y_hi`.
pub open spec fn rect_sum(f: spec_fn(int, int) -> nat, x_lo: int, x_hi: int, y_lo: int, y_hi: int) -> nat
    decreases x_hi - x_lo,
{
    if x_hi <= x_lo {
        0
    } else {
        rect_sum(f, x_lo, x_hi - 1, y_lo, y_hi) + row_sum(f, x_hi - 1, y_lo, y_hi)
    }
}

/// The sum of `f(yi, x)` over `yi` in `lo` up to (not including) `hi`.
spec fn col_sum(f: spec_fn(int, int) -> nat, lo: int, hi: int, x: int) -> nat
    decreases hi - lo,
{
    if hi <= lo {
        0
    } else {
        col_sum(f, lo, hi - 1, x) + f(hi - 1, x)
    }
}

/// `f` with its two arguments swapped.
pub open spec fn swap_args(f: spec_fn(int, int) -> nat) -> spec_fn(int, int) -> nat {
    |a: int, b: int| f(b, a)
}

/// The live count of a row of the window is the sum of its live neighbours.
proof fn lemma_row_live_sum(
    cells: Seq<u8>,
    size: int,
    config: Config,
    shape: Neighbourhood,
    x: int,
    y: int,
    xi: int,
    lo: int,
    hi: int,
)
    ensures
        live_count(row_neighbours(cells, size, config, shape, x, y, xi, lo, hi)) == row_sum(
            live_neighbour(cells, size, config, shape, x, y),
            xi,
            lo,
            hi,
        ),
    decreases hi - lo,
{
    if hi > lo {
        lemma_row_live_sum(cells, size, config, shape, x, y, xi, lo, hi - 1);
        let before = row_neighbours(cells, size, config, shape, x, y, xi, lo, hi - 1);
        if in_neighbourhood(config, shape, size, x, y, xi, hi - 1) {
            lemma_live_count_push(before, cell_at(cells, size, xi, hi - 1));
        }
    }
}

/// The live count of a block of the window is the sum of its live neighbours.
proof fn lemma_block_live_sum(
    cells: Seq<u8>,
    size: int,
    config: Config,
    shape: Neighbourhood,
    x: int,
    y: int,
    x_lo: int,
    x_hi: int,
    y_lo: int,
    y_hi: int,
)
    ensures
        live_count(block_neighbours(cells, size, config, shape, x, y, x_lo, x_hi, y_lo, y_hi))
            == rect_sum(live_neighbour(cells, size, config, shape, x, y), x_lo, x_hi, y_lo, y_hi),
    decreases x_hi - x_lo,
{
    if x_hi > x_lo {
        lemma_block_live_sum(cells, size, config, shape, x, y, x_lo, x_hi - 1, y_lo, y_hi);
        lemma_row_live_sum(cells, size, config, shape, x, y, x_hi - 1, y_lo, y_hi);
        lemma_live_count_concat(
            block_neighbours(cells, size, config, shape, x, y, x_lo, x_hi - 1, y_lo, y_hi),
            row_neighbours(cells, size, config, shape, x, y, x_hi - 1, y_lo, y_hi),
        );
    }
}

/// The live count of a neighbourhood is the sum of live neighbours over its window.
proof fn lemma_neighbourhood_live_sum(
    cells: Seq<u8>,
    size: int,
    config: Config,
    shape: Neighbourhood,
    x: int,
    y: int,
)
    ensures
        live_count(neighbourhood(cells, size, config, shape, x, y)) == rect_sum(
            live_neighbour(cells, size, config, shape, x, y),
            window_lo(x, config.rr as int),
            window_hi(x, config.rr as int, size) + 1,
            window_lo(y, config.rr as int),
            window_hi(y, config.rr as int, size) + 1,
        ),
{
    let r = config.rr as int;
    lemma_block_live_sum(
        cells,
        size,
        config,
        shape,
        x,
        y,
        window_lo(x, r),
        window_hi(x, r, size) + 1,
        window_lo(y, r),
        window_hi(y, r, size) + 1,
    );
}

/// A sum over no rows at all is 0, whatever the columns.
proof fn lemma_rect_sum_no_columns(f: spec_fn(int, int) -> nat, x_lo: int, x_hi: int, y_lo: int, y_hi: int)
    requires
        y_hi <= y_lo,
    ensures
        rect_sum(f, x_lo, x_hi, y_lo, y_hi) == 0,
    decreases x_hi - x_lo,
{
    if x_hi > x_lo {
        lemma_rect_sum_no_columns(f, x_lo, x_hi - 1, y_lo, y_hi);
    }
}

/// Splitting off the last column of a rectangle.
proof fn lemma_rect_sum_last_column(f: spec_fn(int, int) -> nat, x_lo: int, x_hi: int, y_lo: int, y_hi: int)
    requires
        y_hi > y_lo,
    ensures
        rect_sum(f, x_lo, x_hi, y_lo, y_hi) == rect_sum(f, x_lo, x_hi, y_lo, y_hi - 1) + col_sum(
            f,
            x_lo,
            x_hi,
            y_hi - 1,
        ),
    decreases x_hi - x_lo,
{
    if x_hi > x_lo {
        lemma_rect_sum_last_column(f, x_lo, x_hi - 1, y_lo, y_hi);
    }
}

/// Summing a function with swapped arguments down a column is summing the
/// function along the matching row.
proof fn lemma_col_sum_swapped(f: spec_fn(int, int) -> nat, lo: int, hi: int, x: int)
    ensures
        col_sum(swap_args(f), lo, hi, x) == row_sum(f, x, lo, hi),
    decreases hi - lo,
{
    if hi > lo {
        lemma_col_sum_swapped(f, lo, hi - 1, x);
    }
}

/// A sum over a rectangle can be taken row by row or column by column.
pub proof fn lemma_rect_sum_transpose(f: spec_fn(int, int) -> nat, x_lo: int, x_hi: int, y_lo: int, y_hi: int)
    ensures
        rect_sum(f, x_lo, x_hi, y_lo, y_hi) == rect_sum(swap_args(f), y_lo, y_hi, x_lo, x_hi),
    decreases x_hi - x_lo,
{
    if x_hi <= x_lo {
        lemma_rect_sum_no_columns(swap_args(f), y_lo, y_hi, x_lo, x_hi);
    } else {
        lemma_rect_sum_transpose(f, x_lo, x_hi - 1, y_lo, y_hi);
        lemma_rect_sum_last_column(swap_args(f), y_lo, y_hi, x_lo, x_hi);
        lemma_col_sum_swapped(f, y_lo, y_hi, x_hi - 1);
    }
}

/// Cell `i * size + j` of a board of side `size` is row `i`, column `j`.
proof fn lemma_row_column(i: int, j: int, size: int)
    requires
        0 <= i < size,
        0 <= j < size,
    ensures
        0 <= i * size + j < size * size,
        (i * size + j) / size == i,
        (i * size + j) % size == j,
{
    assert(0 <= i * size + j < size * size) by (nonlinear_arith)
        requires
            0 <= i < size,
            0 <= j < size,
    ;
    vstd::arithmetic::div_mod::lemma_fundamental_div_mod_converse(i * size + j, size, i, j);
}

/// Only whether a cell is live matters to the count of live neighbours: two
/// boards whose cells are live at the same places give every cell the same
/// count, whatever the states of their live cells.
pub proof fn lemma_count_sees_only_liveness(
    a: Seq<u8>,
    b: Seq<u8>,
    size: int,
    config: Config,
    x: int,
    y: int,
)
    requires
        a.len() == size * size,
        b.len() == size * size,
        forall|i: int| 0 <= i < a.len() ==> (#[trigger] a[i] > 0) == (b[i] > 0),
    ensures
        neighbourhood_count(a, size, config, x, y) == neighbourhood_count(b, size, config, x, y),
{
    let shape = config.nn;
    assert forall|xi: int, yi: int| #[trigger]
        live_neighbour(a, size, config, shape, x, y)(xi, yi) == live_neighbour(
            b,
            size,
            config,
            shape,
            x,
            y,
        )(xi, yi) by {
        if in_neighbourhood(config, shape, size, x, y, xi, yi) {
            lemma_row_column(xi, yi, size);
        }
    }
    assert(live_neighbour(a, size, config, shape, x, y) =~= live_neighbour(b, size, config, shape, x, y));
    lemma_neighbourhood_live_sum(a, size, config, shape, x, y);
    lemma_neighbourhood_live_sum(b, size, config, shape, x, y);
}

/// Stepping commutes with transposing the board: the step of the transposed
/// board is the transposed step of the board. Both neighbourhood shapes are
/// symmetric in rows and columns.
pub proof fn lemma_update_commutes_with_transpose(b: Seq<u8>, t: Seq<u8>, size: int, config: Config)
    requires
        b.len() == size * size,
        t.len() == size * size,
        forall|i: int, j: int|
            0 <= i < size && 0 <= j < size ==> #[trigger] t[i * size + j] == b[j * size + i],
    ensures
        forall|i: int, j: int|
            0 <= i < size && 0 <= j < size ==> #[trigger] next_cells(t, size, config)[i * size + j]
                == next_cells(b, size, config)[j * size + i],
{
    let shape = config.nn;
    let r = config.rr as int;
    assert forall|i: int, j: int|
        0 <= i < size && 0 <= j < size implies #[trigger] next_cells(t, size, config)[i * size + j]
        == next_cells(b, size, config)[j * size + i] by {
        lemma_row_column(i, j, size);
        lemma_row_column(j, i, size);
        let ft = live_neighbour(t, size, config, shape, i, j);
        let fb = live_neighbour(b, size, config, shape, j, i);
        assert forall|xi: int, yi: int| #[trigger] ft(xi, yi) == swap_args(fb)(xi, yi) by {
            assert(in_neighbourhood(config, shape, size, i, j, xi, yi) == in_neighbourhood(
                config,
                shape,
                size,
                j,
                i,
                yi,
                xi,
            ));
            if in_neighbourhood(config, shape, size, i, j, xi, yi) {
                assert(t[xi * size + yi] == b[yi * size + xi]);
            }
        }
        assert(ft =~= swap_args(fb));
        lemma_neighbourhood_live_sum(t, size, config, shape, i, j);
        lemma_neighbourhood_live_sum(b, size, config, shape, j, i);
        lemma_rect_sum_transpose(
            fb,
            window_lo(j, r),
            window_hi(j, r, size) + 1,
            window_lo(i, r),
            window_hi(i, r, size) + 1,
        );
    }
}


/// Stepping a board commutes with transposing it: for two well-formed boards
/// of the same side and rule, where one holds the other's cells transposed,
/// the step of the one is the transposed step of the other.
pub proof fn lemma_board_update_commutes_with_transpose(b: Board, t: Board)
    requires
        b.wf(),
        t.wf(),
        t.side() == b.side(),
        t.rule() == b.rule(),
        forall|i: int, j: int|
            0 <= i < b.side() && 0 <= j < b.side() ==> #[trigger] t.cell(i, j) == b.cell(j, i),
    ensures
        forall|i: int, j: int|
            0 <= i < b.side() && 0 <= j < b.side() ==> #[trigger] next_cells(
                t.grid(),
                t.side(),
                t.rule(),
            )[i * b.side() + j] == next_cells(b.grid(), b.side(), b.rule())[j * b.side() + i],
{
    let size = b.side();
    assert forall|i: int, j: int|
        0 <= i < size && 0 <= j < size implies #[trigger] t.grid()[i * size + j] == b.grid()[j
        * size + i] by {
        assert(t.cell(i, j) == b.cell(j, i));
    }
    lemma_update_commutes_with_transpose(b.grid(), t.grid(), size, b.rule());
}


/// A dead cell is born into state 1 exactly when its number of live
/// neighbours `c` lies in the closed birth range: `bb.0 <= c` and `c <= bb.1`,
/// both ends included. With any other count it stays dead (state 0).
pub proof fn lemma_birth(cells: Seq<u8>, size: int, config: Config, i: int)
    requires
        0 <= i < cells.len(),
        cells[i] == 0,
    ensures
        ({
            let c = neighbourhood_count(cells, size, config, i / size, i % size);
            &&& config.bb.0 <= c && c <= config.bb.1 ==> next_cells(cells, size, config)[i] == 1
            &&& !(config.bb.0 <= c && c <= config.bb.1) ==> next_cells(cells, size, config)[i] == 0
        }),
{
}

/// A live cell (state 1) stays alive exactly when its number of live
/// neighbours `c` lies in the closed survival range `ss.0..=ss.1`, both ends
/// included. Otherwise it dies: into state 2 when the rule has more than two
/// states, into state 0 when it has two or fewer.
pub proof fn lemma_survival(cells: Seq<u8>, size: int, config: Config, i: int)
    requires
        0 <= i < cells.len(),
        cells[i] == 1,
    ensures
        ({
            let c = neighbourhood_count(cells, size, config, i / size, i % size);
            &&& config.ss.0 <= c && c <= config.ss.1 ==> next_cells(cells, size, config)[i] == 1
            &&& !(config.ss.0 <= c && c <= config.ss.1) && config.cc > 2 ==> next_cells(
                cells,
                size,
                config,
            )[i] == 2
            &&& !(config.ss.0 <= c && c <= config.ss.1) && config.cc <= 2 ==> next_cells(
                cells,
                size,
                config,
            )[i] == 0
        }),
{
}

/// A dying cell (state 2 and up) moves on one state whatever its neighbours:
/// from a state `s` below `cc` to `s + 1`, or to 0 from the last state
/// `cc - 1`. From a state at or above `cc` it moves to the state below `cc`
/// that `s + 1` leaves after taking away whole multiples of `cc`.
pub proof fn lemma_aging(cells: Seq<u8>, size: int, config: Config, i: int)
    requires
        0 <= i < cells.len(),
        cells[i] >= 2,
        config.cc > 0,
    ensures
        cells[i] < config.cc && cells[i] + 1 < config.cc ==> next_cells(cells, size, config)[i]
            == cells[i] + 1,
        cells[i] < config.cc && cells[i] + 1 == config.cc ==> next_cells(cells, size, config)[i]
            == 0,
        next_cells(cells, size, config)[i] < config.cc,
        exists|q: int|
            0 <= q && cells[i] + 1 == #[trigger] (q * config.cc) + next_cells(cells, size, config)[i],
{
    let s = cells[i] as int;
    let n = config.cc as int;
    vstd::arithmetic::div_mod::lemma_fundamental_div_mod(s + 1, n);
    vstd::arithmetic::div_mod::lemma_mod_bound(s + 1, n);
    vstd::arithmetic::div_mod::lemma_div_pos_is_pos(s + 1, n);
    if s + 1 < n {
        vstd::arithmetic::div_mod::lemma_small_mod((s + 1) as nat, n as nat);
    }
    if s + 1 == n {
        vstd::arithmetic::div_mod::lemma_mod_self_0(n);
    }
    let q = (s + 1) / n;
    assert((s + 1) == q * n + (s + 1) % n) by (nonlinear_arith)
        requires
            s + 1 == n * ((s + 1) / n) + (s + 1) % n,
            q == (s + 1) / n,
    ;
    assert(cells[i] + 1 == q * config.cc + next_cells(cells, size, config)[i]);
}


/// Raising `f` by one at the single point `(px, py)` raises its sum along a
/// row by one when the point lies on that stretch of the row.
proof fn lemma_row_sum_bump(
    f: spec_fn(int, int) -> nat,
    g: spec_fn(int, int) -> nat,
    x: int,
    lo: int,
    hi: int,
    px: int,
    py: int,
)
    requires
        forall|a: int, b: int| !(a == px && b == py) ==> #[trigger] g(a, b) == f(a, b),
        g(px, py) == f(px, py) + 1,
    ensures
        row_sum(g, x, lo, hi) == row_sum(f, x, lo, hi) + if x == px && lo <= py < hi {
            1nat
        } else {
            0nat
        },
    decreases hi - lo,
{
    if hi > lo {
        lemma_row_sum_bump(f, g, x, lo, hi - 1, px, py);
        assert(g(x, hi - 1) == f(x, hi - 1) + if x == px && hi - 1 == py {
            1nat
        } else {
            0nat
        });
    }
}

/// Raising `f` by one at the single point `(px, py)` raises its sum over a
/// rectangle by one when the point lies in the rectangle.
proof fn lemma_rect_sum_bump(
    f: spec_fn(int, int) -> nat,
    g: spec_fn(int, int) -> nat,
    x_lo: int,
    x_hi: int,
    y_lo: int,
    y_hi: int,
    px: int,
    py: int,
)
    requires
        forall|a: int, b: int| !(a == px && b == py) ==> #[trigger] g(a, b) == f(a, b),
        g(px, py) == f(px, py) + 1,
    ensures
        rect_sum(g, x_lo, x_hi, y_lo, y_hi) == rect_sum(f, x_lo, x_hi, y_lo, y_hi) + if x_lo <= px
            < x_hi && y_lo <= py < y_hi {
            1nat
        } else {
            0nat
        },
    decreases x_hi - x_lo,
{
    if x_hi > x_lo {
        lemma_rect_sum_bump(f, g, x_lo, x_hi - 1, y_lo, y_hi, px, py);
        lemma_row_sum_bump(f, g, x_hi - 1, y_lo, y_hi, px, py);
    }
}

/// Bringing one dead cell at row `px`, column `py` to life adds one live
/// neighbour to exactly the cells it neighbours, and leaves every other
/// count as it was. The cell at `(px, py)` neighbours the cell at `(x, y)`
/// when it lies within `rr` rows and `rr` columns of it (within Manhattan
/// distance `rr` for the von Neumann shape) and is not that cell itself, or
/// is that cell and `mm` is non-zero.
pub proof fn lemma_new_live_neighbour(
    a: Seq<u8>,
    size: int,
    config: Config,
    shape: Neighbourhood,
    x: int,
    y: int,
    px: int,
    py: int,
    v: u8,
)
    requires
        a.len() == size * size,
        0 <= x < size,
        0 <= y < size,
        0 <= px < size,
        0 <= py < size,
        a[px * size + py] == 0,
        v > 0,
    ensures
        ({
            let r = config.rr as int;
            let dx = if px >= x {
                px - x
            } else {
                x - px
            };
            let dy = if py >= y {
                py - y
            } else {
                y - py
            };
            let near = dx <= r && dy <= r && (config.mm != 0 || px != x || py != y) && (shape
                == Neighbourhood::Neumann ==> dx + dy <= r);
            live_count(neighbourhood(a.update(px * size + py, v), size, config, shape, x, y))
                == live_count(neighbourhood(a, size, config, shape, x, y)) + if near {
                1nat
            } else {
                0nat
            }
        }),
{
    let r = config.rr as int;
    let k = px * size + py;
    let b = a.update(k, v);
    lemma_row_column(px, py, size);
    let fa = live_neighbour(a, size, config, shape, x, y);
    let fb = live_neighbour(b, size, config, shape, x, y);
    assert forall|xi: int, yi: int| !(xi == px && yi == py) implies #[trigger] fb(xi, yi) == fa(
        xi,
        yi,
    ) by {
        if in_neighbourhood(config, shape, size, x, y, xi, yi) {
            lemma_row_column(xi, yi, size);
            assert(xi * size + yi != k);
        }
    }
    lemma_neighbourhood_live_sum(a, size, config, shape, x, y);
    lemma_neighbourhood_live_sum(b, size, config, shape, x, y);
    if in_neighbourhood(config, shape, size, x, y, px, py) {
        assert(fb(px, py) == fa(px, py) + 1);
        lemma_rect_sum_bump(
            fa,
            fb,
            window_lo(x, r),
            window_hi(x, r, size) + 1,
            window_lo(y, r),
            window_hi(y, r, size) + 1,
            px,
            py,
        );
    } else {
        assert(fb =~= fa);
    }
}


/// The count of live neighbours is their number kept to 16 bits, as a `u16`
/// keeps it: the number itself below 65536, and otherwise what is left of it
/// after taking away whole multiples of 65536.
pub proof fn lemma_count_in_sixteen_bits(cells: Seq<u8>, size: int, config: Config, x: int, y: int)
    ensures
        live_count(neighbourhood(cells, size, config, config.nn, x, y)) < 65536 ==> neighbourhood_count(
            cells,
            size,
            config,
            x,
            y,
        ) == live_count(neighbourhood(cells, size, config, config.nn, x, y)),
        exists|q: int|
            0 <= q && live_count(neighbourhood(cells, size, config, config.nn, x, y)) == #[trigger] (q
                * 65536) + neighbourhood_count(cells, size, config, x, y),
{
    let n = live_count(neighbourhood(cells, size, config, config.nn, x, y)) as int;
    vstd::arithmetic::div_mod::lemma_fundamental_div_mod(n, 65536);
    vstd::arithmetic::div_mod::lemma_mod_bound(n, 65536);
    vstd::arithmetic::div_mod::lemma_div_pos_is_pos(n, 65536);
    if n < 65536 {
        vstd::arithmetic::div_mod::lemma_small_mod(n as nat, 65536);
    }
    let q = n / 65536;
    assert(n == q * 65536 + n % 65536);
    assert(n == q * 65536 + neighbourhood_count(cells, size, config, x, y));
}

} // verus!
