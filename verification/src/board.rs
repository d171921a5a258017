//! The board as a sequence of cells: how a direction cuts it into lines,
//! what a shift and a spawn make of it, and when no move is left.

use crate::command::{Operation, TurnError, TurnOutcome};
use crate::line::{
    lemma_full_line_with_pair_moves, lemma_gap_before_tile_moves, lemma_mixed_line_has_edge,
    lemma_reversed_saturated, lemma_reversed_total, lemma_saturated_line_fixed,
    lemma_slide_keeps_total, reversed, saturated, slide, total,
};
use vstd::prelude::*;

verus! {

/// Index in the board of cell `j` of line `k`, where cell 0 of a line lies
/// at the edge that the tiles slide toward. Lines are rows for `LEFT` and
/// `RIGHT`, columns for `UP` and `DOWN`.
pub open spec fn line_cell(n: int, op: Operation, k: int, j: int) -> int {
    match op {
        Operation::LEFT => k * n + j,
        Operation::RIGHT => k * n + (n - 1 - j),
        Operation::UP => j * n + k,
        Operation::DOWN => (n - 1 - j) * n + k,
        Operation::INVALID => k * n + j,
    }
}

/// Line `k` of the board, read from the edge that the tiles slide toward.
pub open spec fn line_of(cells: Seq<int>, n: int, op: Operation, k: int) -> Seq<int> {
    Seq::new(n as nat, |j: int| cells[line_cell(n, op, k, j)])
}

/// The line that board index `i` belongs to.
pub open spec fn line_no(n: int, op: Operation, i: int) -> int {
    match op {
        Operation::LEFT | Operation::RIGHT | Operation::INVALID => i / n,
        Operation::UP | Operation::DOWN => i % n,
    }
}

/// The place of board index `i` within its line, counted from the edge that
/// the tiles slide toward.
pub open spec fn line_pos(n: int, op: Operation, i: int) -> int {
    match op {
        Operation::LEFT | Operation::INVALID => i % n,
        Operation::RIGHT => n - 1 - i % n,
        Operation::UP => i / n,
        Operation::DOWN => n - 1 - i / n,
    }
}

/// The board after every line slid toward the edge that `op` names. A
/// command that names no direction moves nothing.
pub open spec fn shifted(cells: Seq<int>, n: int, op: Operation) -> Seq<int> {
    if op == Operation::INVALID {
        cells
    } else {
        Seq::new(
            cells.len(),
            |i: int| slide(line_of(cells, n, op, line_no(n, op, i)))[line_pos(n, op, i)],
        )
    }
}

/// The board after the spawner ran with the given draws: an empty cell whose
/// draw is a hit holds a 2, every other cell is as before.
pub open spec fn spawned(cells: Seq<int>, hits: Seq<bool>) -> Seq<int> {
    Seq::new(
        cells.len(),
        |i: int|
            if cells[i] == 0 && hits[i] {
                2
            } else {
                cells[i]
            },
    )
}

/// What holds of a board after the spawner ran, whatever was drawn: tiles
/// stay as they were, and a cell that was empty is empty or holds a 2.
pub open spec fn spawn_outcome(before: Seq<int>, after: Seq<int>) -> bool {
    &&& after.len() == before.len()
    &&& forall|i: int|
        0 <= i < before.len() ==> if before[i] != 0 {
            #[trigger] after[i] == before[i]
        } else {
            after[i] == 0 || after[i] == 2
        }
}

/// Cell `i` holds a tile that differs from the tile to its right and from
/// the tile below it, where there is one.
pub open spec fn blocked_at(cells: Seq<int>, n: int, i: int) -> bool {
    &&& cells[i] != 0
    &&& (i % n + 1 < n ==> cells[i] != cells[i + 1])
    &&& (i + n < cells.len() ==> cells[i] != cells[i + n])
}

/// No move is left: the board is full and no two cells that touch along a
/// row or a column hold the same value.
pub open spec fn terminal(cells: Seq<int>, n: int) -> bool {
    forall|i: int| 0 <= i < cells.len() ==> #[trigger] blocked_at(cells, n, i)
}

/// What a turn reports, from the state it met and the board it left.
pub open spec fn turn_result(over: bool, op: Operation, ended: bool) -> Result<
    TurnOutcome,
    TurnError,
> {
    if over {
        Err(TurnError::TurnAfterGameOver)
    } else if op == Operation::INVALID {
        Err(TurnError::InvalidDirection)
    } else if ended {
        Ok(TurnOutcome::GameOver)
    } else {
        Ok(TurnOutcome::Continued)
    }
}

/// A cell of an `n` by `n` board lies within it.
pub proof fn lemma_cell_index(n: int, r: int, c: int)
    requires
        0 <= r < n,
        0 <= c < n,
    ensures
        0 <= r * n + c < n * n,
        0 <= r * n <= n * n,
{
    assert(0 <= r * n && r * n + n <= n * n) by (nonlinear_arith)
        requires
            0 <= r < n,
    ;
}

/// A board index splits into a row and a column of the board.
pub proof fn lemma_split_index(n: int, i: int)
    requires
        0 < n,
        0 <= i < n * n,
    ensures
        0 <= i / n < n,
        0 <= i % n < n,
{
    assert(0 <= i / n < n && 0 <= i % n < n) by (nonlinear_arith)
        requires
            0 < n,
            0 <= i < n * n,
    ;
}

/// A cell that is not the last of its row has a right neighbour on the board.
pub proof fn lemma_right_neighbour(n: int, i: int)
    requires
        0 < n,
        0 <= i < n * n,
        i % n + 1 < n,
    ensures
        i + 1 < n * n,
{
    lemma_split_index(n, i);
    let r = i / n;
    assert(i == n * r + i % n) by {
        vstd::arithmetic::div_mod::lemma_fundamental_div_mod(i, n);
    }
    assert(n * r + n <= n * n) by (nonlinear_arith)
        requires
            0 <= r < n,
    ;
}

/// A new board from its draws: a 2 where the draw is a hit, else empty.
pub open spec fn seeded(hits: Seq<bool>) -> Seq<int> {
    Seq::new(
        hits.len(),
        |i: int|
            if hits[i] {
                2
            } else {
                0
            },
    )
}

/// The line and the place of a board index lead back to that index.
pub proof fn lemma_line_round_trip(n: int, op: Operation, i: int)
    requires
        0 < n,
        0 <= i < n * n,
    ensures
        0 <= line_no(n, op, i) < n,
        0 <= line_pos(n, op, i) < n,
        line_cell(n, op, line_no(n, op, i), line_pos(n, op, i)) == i,
{
    lemma_split_index(n, i);
    vstd::arithmetic::div_mod::lemma_fundamental_div_mod(i, n);
    assert(n * (i / n) == (i / n) * n) by (nonlinear_arith);
}

/// Cell `j` of line `k` lies on the board, in that line and at that place.
pub proof fn lemma_line_coordinates(n: int, op: Operation, k: int, j: int)
    requires
        0 <= k < n,
        0 <= j < n,
    ensures
        0 <= line_cell(n, op, k, j) < n * n,
        line_no(n, op, line_cell(n, op, k, j)) == k,
        line_pos(n, op, line_cell(n, op, k, j)) == j,
{
    let (r, c) = match op {
        Operation::LEFT | Operation::INVALID => (k, j),
        Operation::RIGHT => (k, n - 1 - j),
        Operation::UP => (j, k),
        Operation::DOWN => (n - 1 - j, k),
    };
    assert(line_cell(n, op, k, j) == r * n + c);
    lemma_cell_index(n, r, c);
    vstd::arithmetic::div_mod::lemma_fundamental_div_mod_converse(r * n + c, n, r, c);
}

/// A shift is a slide of every line: cell `j` of line `k` of the shifted
/// board is cell `j` of that line of the old board after its slide.
pub proof fn lemma_shift_by_lines(cells: Seq<int>, n: int, op: Operation, k: int, j: int)
    requires
        cells.len() == n * n,
        op != Operation::INVALID,
        0 <= k < n,
        0 <= j < n,
    ensures
        shifted(cells, n, op)[line_cell(n, op, k, j)] == slide(line_of(cells, n, op, k))[j],
{
    lemma_line_coordinates(n, op, k, j);
}

/// Every line of a board on which no move is left is saturated, whatever
/// the direction.
pub proof fn lemma_terminal_lines_saturated(cells: Seq<int>, n: int, op: Operation, k: int)
    requires
        cells.len() == n * n,
        terminal(cells, n),
        0 <= k < n,
    ensures
        saturated(line_of(cells, n, op, k)),
{
    let line = line_of(cells, n, op, k);
    assert forall|j: int| 0 <= j < line.len() implies (#[trigger] line[j]) != 0 by {
        lemma_line_coordinates(n, op, k, j);
        assert(blocked_at(cells, n, line_cell(n, op, k, j)));
    }
    assert forall|j: int| 0 <= j < line.len() - 1 implies (#[trigger] line[j]) != line[j
        + 1] by {
        lemma_line_coordinates(n, op, k, j);
        lemma_line_coordinates(n, op, k, j + 1);
        let a = line_cell(n, op, k, j);
        let b = line_cell(n, op, k, j + 1);
        assert(blocked_at(cells, n, a));
        assert(blocked_at(cells, n, b));
        match op {
            Operation::LEFT | Operation::INVALID => {
                assert(b == a + 1);
            },
            Operation::RIGHT => {
                assert(a == b + 1);
            },
            Operation::UP => {
                assert(b == a + n) by (nonlinear_arith)
                    requires
                        a == j * n + k,
                        b == (j + 1) * n + k,
                ;
            },
            Operation::DOWN => {
                assert(a == b + n) by (nonlinear_arith)
                    requires
                        a == (n - 1 - j) * n + k,
                        b == (n - 1 - (j + 1)) * n + k,
                ;
            },
        }
    }
}

/// On a board on which no move is left, a shift in any direction changes
/// nothing.
pub proof fn lemma_terminal_board_fixed(cells: Seq<int>, n: int, op: Operation)
    requires
        0 < n,
        cells.len() == n * n,
        terminal(cells, n),
    ensures
        shifted(cells, n, op) == cells,
{
    if op != Operation::INVALID {
        let after = shifted(cells, n, op);
        assert forall|i: int| 0 <= i < cells.len() implies after[i] == cells[i] by {
            lemma_line_round_trip(n, op, i);
            let k = line_no(n, op, i);
            lemma_terminal_lines_saturated(cells, n, op, k);
            lemma_saturated_line_fixed(line_of(cells, n, op, k));
        }
        assert(after == cells);
    }
}

/// The cell in row `r` and column `c` of a board of side `n`.
pub open spec fn cell(cells: Seq<int>, n: int, r: int, c: int) -> int {
    cells[r * n + c]
}

/// No move is left exactly when no cell is empty, no cell equals its right
/// neighbour and no cell equals the cell below it.
pub proof fn lemma_terminal_by_rows_and_columns(cells: Seq<int>, n: int)
    requires
        0 < n,
        cells.len() == n * n,
    ensures
        terminal(cells, n) <==> {
            &&& forall|r: int, c: int| 0 <= r < n && 0 <= c < n ==> #[trigger] cell(cells, n, r, c) != 0
            &&& forall|r: int, c: int|
                0 <= r < n && 0 <= c < n - 1 ==> #[trigger] cell(cells, n, r, c) != cell(
                    cells,
                    n,
                    r,
                    c + 1,
                )
            &&& forall|r: int, c: int|
                0 <= r < n - 1 && 0 <= c < n ==> #[trigger] cell(cells, n, r, c) != cell(
                    cells,
                    n,
                    r + 1,
                    c,
                )
        },
{
    let full = forall|r: int, c: int| 0 <= r < n && 0 <= c < n ==> #[trigger] cell(cells, n, r, c) != 0;
    let rows = forall|r: int, c: int|
        0 <= r < n && 0 <= c < n - 1 ==> #[trigger] cell(cells, n, r, c) != cell(cells, n, r, c + 1);
    let columns = forall|r: int, c: int|
        0 <= r < n - 1 && 0 <= c < n ==> #[trigger] cell(cells, n, r, c) != cell(cells, n, r + 1, c);
    if terminal(cells, n) {
        assert forall|r: int, c: int| 0 <= r < n && 0 <= c < n implies {
            &&& #[trigger] cell(cells, n, r, c) != 0
            &&& (c < n - 1 ==> cell(cells, n, r, c) != cell(cells, n, r, c + 1))
            &&& (r < n - 1 ==> cell(cells, n, r, c) != cell(cells, n, r + 1, c))
        } by {
            lemma_line_coordinates(n, Operation::LEFT, r, c);
            assert(blocked_at(cells, n, r * n + c));
            if r < n - 1 {
                lemma_cell_index(n, r + 1, c);
                assert((r + 1) * n + c == r * n + c + n) by (nonlinear_arith);
            }
        }
        assert(full && rows && columns);
    }
    if full && rows && columns {
        assert forall|i: int| 0 <= i < cells.len() implies #[trigger] blocked_at(cells, n, i) by {
            lemma_line_round_trip(n, Operation::LEFT, i);
            let r = i / n;
            let c = i % n;
            assert(i == r * n + c);
            assert(cell(cells, n, r, c) != 0);
            if c + 1 < n {
                assert(cell(cells, n, r, c) != cell(cells, n, r, c + 1));
            }
            if i + n < cells.len() {
                assert((r + 1) * n + c == r * n + c + n) by (nonlinear_arith);
                assert(r + 1 < n) by (nonlinear_arith)
                    requires
                        (r + 1) * n + c < n * n,
                        0 <= c,
                        0 < n,
                        0 <= r,
                ;
                assert(cell(cells, n, r, c) != cell(cells, n, r + 1, c));
            }
        }
    }
}

/// On a board with an empty cell the game has not ended.
pub proof fn lemma_empty_cell_goes_on(cells: Seq<int>, n: int, i: int)
    requires
        0 <= i < cells.len(),
        cells[i] == 0,
    ensures
        !terminal(cells, n),
{
    assert(!blocked_at(cells, n, i));
}

/// What the spawner makes of a board on given draws is one of the outcomes
/// that it may have on any draws.
pub proof fn lemma_spawned_is_outcome(cells: Seq<int>, hits: Seq<bool>)
    ensures
        spawn_outcome(cells, spawned(cells, hits)),
{
}

/// On a full board, a tile that equals its right neighbour can move: a
/// shift to the left changes the board.
pub proof fn lemma_equal_in_row_can_move(cells: Seq<int>, n: int, i: int)
    requires
        0 < n,
        cells.len() == n * n,
        forall|q: int| 0 <= q < cells.len() ==> (#[trigger] cells[q]) != 0,
        0 <= i < cells.len(),
        i % n + 1 < n,
        cells[i] == cells[i + 1],
    ensures
        shifted(cells, n, Operation::LEFT) != cells,
{
    let op = Operation::LEFT;
    lemma_line_round_trip(n, op, i);
    let k = i / n;
    let j = i % n;
    let line = line_of(cells, n, op, k);
    assert forall|q: int| 0 <= q < line.len() implies (#[trigger] line[q]) != 0 by {
        lemma_line_coordinates(n, op, k, q);
    }
    assert(line[j] == cells[i]);
    assert(line[j + 1] == cells[i + 1]);
    lemma_full_line_with_pair_moves(line, j);
    lemma_line_coordinates(n, op, k, n - 1);
    lemma_shift_by_lines(cells, n, op, k, n - 1);
    let last = line_cell(n, op, k, n - 1);
    assert(shifted(cells, n, op)[last] == 0);
    assert(cells[last] != 0);
}

/// On a full board, a tile that equals the tile below it can move: a shift
/// upward changes the board.
pub proof fn lemma_equal_in_column_can_move(cells: Seq<int>, n: int, i: int)
    requires
        0 < n,
        cells.len() == n * n,
        forall|q: int| 0 <= q < cells.len() ==> (#[trigger] cells[q]) != 0,
        0 <= i,
        i + n < cells.len(),
        cells[i] == cells[i + n],
    ensures
        shifted(cells, n, Operation::UP) != cells,
{
    let op = Operation::UP;
    lemma_line_round_trip(n, op, i);
    lemma_line_round_trip(n, op, i + n);
    let k = i % n;
    let j = i / n;
    assert(j + 1 < n) by (nonlinear_arith)
        requires
            i == j * n + k,
            0 <= k,
            0 < n,
            i + n < n * n,
    ;
    assert((j + 1) * n + k == i + n) by (nonlinear_arith)
        requires
            i == j * n + k,
    ;
    let line = line_of(cells, n, op, k);
    assert forall|q: int| 0 <= q < line.len() implies (#[trigger] line[q]) != 0 by {
        lemma_line_coordinates(n, op, k, q);
    }
    assert(line[j] == cells[i]);
    assert(line[j + 1] == cells[i + n]);
    lemma_full_line_with_pair_moves(line, j);
    lemma_line_coordinates(n, op, k, n - 1);
    lemma_shift_by_lines(cells, n, op, k, n - 1);
    let last = line_cell(n, op, k, n - 1);
    assert(shifted(cells, n, op)[last] == 0);
    assert(cells[last] != 0);
}

/// On a full board the game has ended exactly when no shift changes the
/// board.
pub proof fn lemma_full_board_ends_without_moves(cells: Seq<int>, n: int)
    requires
        0 < n,
        cells.len() == n * n,
        forall|q: int| 0 <= q < cells.len() ==> (#[trigger] cells[q]) != 0,
    ensures
        terminal(cells, n) <==> forall|op: Operation| #[trigger] shifted(cells, n, op) == cells,
{
    if terminal(cells, n) {
        assert forall|op: Operation| #[trigger] shifted(cells, n, op) == cells by {
            lemma_terminal_board_fixed(cells, n, op);
        }
    } else {
        let i = choose|i: int| 0 <= i < cells.len() && !blocked_at(cells, n, i);
        if i % n + 1 < n && cells[i] == cells[i + 1] {
            lemma_equal_in_row_can_move(cells, n, i);
        } else {
            lemma_equal_in_column_can_move(cells, n, i);
        }
    }
}

/// Where a line of the board holds an empty cell right in front of a tile,
/// the shift in that direction changes the board.
pub proof fn lemma_gap_in_line_can_move(cells: Seq<int>, n: int, op: Operation, k: int, j: int)
    requires
        cells.len() == n * n,
        op != Operation::INVALID,
        0 <= k < n,
        0 <= j < n - 1,
        line_of(cells, n, op, k)[j] == 0,
        line_of(cells, n, op, k)[j + 1] != 0,
    ensures
        shifted(cells, n, op) != cells,
{
    let line = line_of(cells, n, op, k);
    lemma_gap_before_tile_moves(line, j);
    if shifted(cells, n, op) == cells {
        assert forall|p: int| 0 <= p < n implies slide(line)[p] == line[p] by {
            lemma_shift_by_lines(cells, n, op, k, p);
        }
        assert(slide(line) == line);
    }
}

/// Where exactly one of two neighbours in a row is empty, a shift to the
/// left or to the right changes the board.
pub proof fn lemma_row_edge_can_move(cells: Seq<int>, n: int, r: int, c: int)
    requires
        cells.len() == n * n,
        0 <= r < n,
        0 <= c < n - 1,
        (cell(cells, n, r, c) == 0) != (cell(cells, n, r, c + 1) == 0),
    ensures
        shifted(cells, n, Operation::LEFT) != cells || shifted(cells, n, Operation::RIGHT)
            != cells,
{
    if cell(cells, n, r, c) == 0 {
        lemma_gap_in_line_can_move(cells, n, Operation::LEFT, r, c);
    } else {
        lemma_gap_in_line_can_move(cells, n, Operation::RIGHT, r, n - 2 - c);
    }
}

/// Where exactly one of two neighbours in a column is empty, a shift
/// upward or downward changes the board.
pub proof fn lemma_column_edge_can_move(cells: Seq<int>, n: int, r: int, c: int)
    requires
        cells.len() == n * n,
        0 <= r < n - 1,
        0 <= c < n,
        (cell(cells, n, r, c) == 0) != (cell(cells, n, r + 1, c) == 0),
    ensures
        shifted(cells, n, Operation::UP) != cells || shifted(cells, n, Operation::DOWN) != cells,
{
    if cell(cells, n, r, c) == 0 {
        lemma_gap_in_line_can_move(cells, n, Operation::UP, c, r);
    } else {
        lemma_gap_in_line_can_move(cells, n, Operation::DOWN, c, n - 2 - r);
    }
}

/// A board that holds an empty cell and a tile has a move: some shift
/// changes it.
pub proof fn lemma_open_board_can_move(cells: Seq<int>, n: int, a: int, b: int)
    requires
        0 < n,
        cells.len() == n * n,
        0 <= a < cells.len(),
        0 <= b < cells.len(),
        cells[a] == 0,
        cells[b] != 0,
    ensures
        exists|op: Operation| #[trigger] shifted(cells, n, op) != cells,
{
    let i = lemma_mixed_line_has_edge(cells, a, b);
    lemma_line_round_trip(n, Operation::LEFT, i);
    let r = i / n;
    let c = i % n;
    assert(i == r * n + c);
    if c + 1 < n {
        assert(cell(cells, n, r, c) == cells[i]);
        assert(cell(cells, n, r, c + 1) == cells[i + 1]);
        lemma_row_edge_can_move(cells, n, r, c);
    } else {
        assert((r + 1) * n == i + 1) by (nonlinear_arith)
            requires
                i == r * n + c,
                c == n - 1,
        ;
        assert(r + 1 < n) by (nonlinear_arith)
            requires
                (r + 1) * n < n * n,
                0 < n,
        ;
        assert(cell(cells, n, r + 1, 0) == cells[i + 1]);
        assert(cell(cells, n, r, n - 1) == cells[i]);
        if (cell(cells, n, r, 0) == 0) != (cell(cells, n, r + 1, 0) == 0) {
            lemma_column_edge_can_move(cells, n, r, 0);
        } else {
            let row = line_of(cells, n, Operation::LEFT, r);
            assert(row[0] == cell(cells, n, r, 0));
            assert(row[n - 1] == cell(cells, n, r, n - 1));
            let c2 = if row[0] == 0 {
                lemma_mixed_line_has_edge(row, 0, n - 1)
            } else {
                lemma_mixed_line_has_edge(row, n - 1, 0)
            };
            assert(row[c2] == cell(cells, n, r, c2));
            assert(row[c2 + 1] == cell(cells, n, r, c2 + 1));
            lemma_row_edge_can_move(cells, n, r, c2);
        }
    }
}

/// On a board that holds a tile, the game has ended exactly when no move is
/// left: when no shift changes the board.
pub proof fn lemma_game_over_means_no_move(cells: Seq<int>, n: int, b: int)
    requires
        0 < n,
        cells.len() == n * n,
        0 <= b < cells.len(),
        cells[b] != 0,
    ensures
        terminal(cells, n) <==> forall|op: Operation| #[trigger] shifted(cells, n, op) == cells,
{
    if forall|q: int| 0 <= q < cells.len() ==> (#[trigger] cells[q]) != 0 {
        lemma_full_board_ends_without_moves(cells, n);
    } else {
        let a = choose|q: int| 0 <= q < cells.len() && cells[q] == 0;
        lemma_empty_cell_goes_on(cells, n, a);
        lemma_open_board_can_move(cells, n, a, b);
    }
}

/// Row `r` of the board, from left to right.
pub open spec fn row(cells: Seq<int>, n: int, r: int) -> Seq<int> {
    Seq::new(n as nat, |c: int| cells[r * n + c])
}

/// Column `c` of the board, from top to bottom.
pub open spec fn column(cells: Seq<int>, n: int, c: int) -> Seq<int> {
    Seq::new(n as nat, |r: int| cells[r * n + c])
}

/// Each line of the shifted board is the slide of that line of the board
/// before.
pub proof fn lemma_shifted_line(cells: Seq<int>, n: int, op: Operation, k: int)
    requires
        cells.len() == n * n,
        op != Operation::INVALID,
        0 <= k < n,
    ensures
        line_of(shifted(cells, n, op), n, op, k) == slide(line_of(cells, n, op, k)),
{
    let after = line_of(shifted(cells, n, op), n, op, k);
    let slid = slide(line_of(cells, n, op, k));
    assert forall|j: int| 0 <= j < n implies after[j] == slid[j] by {
        lemma_shift_by_lines(cells, n, op, k, j);
    }
    assert(after == slid);
}

/// A shift leaves a saturated line of its direction as it is, whatever
/// happens in the other lines.
pub proof fn lemma_saturated_line_stays(cells: Seq<int>, n: int, op: Operation, k: int)
    requires
        cells.len() == n * n,
        op != Operation::INVALID,
        0 <= k < n,
        saturated(line_of(cells, n, op, k)),
    ensures
        line_of(shifted(cells, n, op), n, op, k) == line_of(cells, n, op, k),
{
    lemma_shifted_line(cells, n, op, k);
    lemma_saturated_line_fixed(line_of(cells, n, op, k));
}

/// A shift keeps the sum of every line of its direction: no value leaves
/// its line.
pub proof fn lemma_shift_keeps_line_total(cells: Seq<int>, n: int, op: Operation, k: int)
    requires
        cells.len() == n * n,
        op != Operation::INVALID,
        0 <= k < n,
    ensures
        total(line_of(shifted(cells, n, op), n, op, k)) == total(line_of(cells, n, op, k)),
{
    lemma_shifted_line(cells, n, op, k);
    lemma_slide_keeps_total(line_of(cells, n, op, k));
}

/// The lines of a direction are the rows or the columns of the board, read
/// from the edge that the tiles slide toward.
pub proof fn lemma_lines_are_rows_and_columns(cells: Seq<int>, n: int, op: Operation, k: int)
    requires
        0 <= k < n,
        op != Operation::INVALID,
    ensures
        op == Operation::LEFT ==> line_of(cells, n, op, k) == row(cells, n, k),
        op == Operation::RIGHT ==> line_of(cells, n, op, k) == reversed(row(cells, n, k)),
        op == Operation::UP ==> line_of(cells, n, op, k) == column(cells, n, k),
        op == Operation::DOWN ==> line_of(cells, n, op, k) == reversed(column(cells, n, k)),
{
    let line = line_of(cells, n, op, k);
    match op {
        Operation::LEFT => {
            assert(line =~= row(cells, n, k));
        },
        Operation::RIGHT => {
            assert(line =~= reversed(row(cells, n, k)));
        },
        Operation::UP => {
            assert(line =~= column(cells, n, k));
        },
        _ => {
            assert(line =~= reversed(column(cells, n, k)));
        },
    }
}

/// Two lines that agree when read from the far end agree.
pub proof fn lemma_reversed_equal(a: Seq<int>, b: Seq<int>)
    requires
        reversed(a) == reversed(b),
    ensures
        a == b,
{
    assert(a.len() == reversed(a).len());
    assert(b.len() == reversed(b).len());
    assert forall|i: int| 0 <= i < a.len() implies a[i] == b[i] by {
        assert(reversed(a)[a.len() - 1 - i] == a[i]);
        assert(reversed(b)[b.len() - 1 - i] == b[i]);
    }
    assert(a =~= b);
}

/// A shift to the left or to the right leaves a saturated row as it is.
pub proof fn lemma_saturated_row_stays(cells: Seq<int>, n: int, op: Operation, r: int)
    requires
        cells.len() == n * n,
        op == Operation::LEFT || op == Operation::RIGHT,
        0 <= r < n,
        saturated(row(cells, n, r)),
    ensures
        row(shifted(cells, n, op), n, r) == row(cells, n, r),
{
    let after = shifted(cells, n, op);
    lemma_lines_are_rows_and_columns(cells, n, op, r);
    lemma_lines_are_rows_and_columns(after, n, op, r);
    if op == Operation::RIGHT {
        lemma_reversed_saturated(row(cells, n, r));
    }
    lemma_saturated_line_stays(cells, n, op, r);
    if op == Operation::RIGHT {
        lemma_reversed_equal(row(after, n, r), row(cells, n, r));
    }
}

/// A shift upward or downward leaves a saturated column as it is.
pub proof fn lemma_saturated_column_stays(cells: Seq<int>, n: int, op: Operation, c: int)
    requires
        cells.len() == n * n,
        op == Operation::UP || op == Operation::DOWN,
        0 <= c < n,
        saturated(column(cells, n, c)),
    ensures
        column(shifted(cells, n, op), n, c) == column(cells, n, c),
{
    let after = shifted(cells, n, op);
    lemma_lines_are_rows_and_columns(cells, n, op, c);
    lemma_lines_are_rows_and_columns(after, n, op, c);
    if op == Operation::DOWN {
        lemma_reversed_saturated(column(cells, n, c));
    }
    lemma_saturated_line_stays(cells, n, op, c);
    if op == Operation::DOWN {
        lemma_reversed_equal(column(after, n, c), column(cells, n, c));
    }
}

/// A shift to the left or to the right keeps the sum of every row: no value
/// crosses from one row into another.
pub proof fn lemma_shift_keeps_row_total(cells: Seq<int>, n: int, op: Operation, r: int)
    requires
        cells.len() == n * n,
        op == Operation::LEFT || op == Operation::RIGHT,
        0 <= r < n,
    ensures
        total(row(shifted(cells, n, op), n, r)) == total(row(cells, n, r)),
{
    let after = shifted(cells, n, op);
    lemma_lines_are_rows_and_columns(cells, n, op, r);
    lemma_lines_are_rows_and_columns(after, n, op, r);
    lemma_shift_keeps_line_total(cells, n, op, r);
    lemma_reversed_total(row(cells, n, r));
    lemma_reversed_total(row(after, n, r));
}

/// A shift upward or downward keeps the sum of every column: no value
/// crosses from one column into another.
pub proof fn lemma_shift_keeps_column_total(cells: Seq<int>, n: int, op: Operation, c: int)
    requires
        cells.len() == n * n,
        op == Operation::UP || op == Operation::DOWN,
        0 <= c < n,
    ensures
        total(column(shifted(cells, n, op), n, c)) == total(column(cells, n, c)),
{
    let after = shifted(cells, n, op);
    lemma_lines_are_rows_and_columns(cells, n, op, c);
    lemma_lines_are_rows_and_columns(after, n, op, c);
    lemma_shift_keeps_line_total(cells, n, op, c);
    lemma_reversed_total(column(cells, n, c));
    lemma_reversed_total(column(after, n, c));
}

/// Every line of the direction `op` has in `after` the sum that it has in
/// `before`, and a line that is saturated in `before` is the same in
/// `after`.
pub open spec fn lines_kept(before: Seq<int>, after: Seq<int>, n: int, op: Operation) -> bool {
    forall|k: int|
        0 <= k < n ==> {
            &&& total(#[trigger] line_of(after, n, op, k)) == total(line_of(before, n, op, k))
            &&& (saturated(line_of(before, n, op, k)) ==> line_of(after, n, op, k) == line_of(
                before,
                n,
                op,
                k,
            ))
        }
}

/// Every row has in `after` the sum that it has in `before`, and a row that
/// is saturated in `before` is the same in `after`.
pub open spec fn rows_kept(before: Seq<int>, after: Seq<int>, n: int) -> bool {
    forall|r: int|
        0 <= r < n ==> {
            &&& total(#[trigger] row(after, n, r)) == total(row(before, n, r))
            &&& (saturated(row(before, n, r)) ==> row(after, n, r) == row(before, n, r))
        }
}

/// Every column has in `after` the sum that it has in `before`, and a
/// column that is saturated in `before` is the same in `after`.
pub open spec fn columns_kept(before: Seq<int>, after: Seq<int>, n: int) -> bool {
    forall|c: int|
        0 <= c < n ==> {
            &&& total(#[trigger] column(after, n, c)) == total(column(before, n, c))
            &&& (saturated(column(before, n, c)) ==> column(after, n, c) == column(before, n, c))
        }
}

/// A shift keeps the sum of every line of its direction and leaves the
/// saturated ones as they are.
pub proof fn lemma_shift_keeps_lines(cells: Seq<int>, n: int, op: Operation)
    requires
        cells.len() == n * n,
        op != Operation::INVALID,
    ensures
        lines_kept(cells, shifted(cells, n, op), n, op),
{
    let after = shifted(cells, n, op);
    assert forall|k: int| 0 <= k < n implies {
        &&& total(#[trigger] line_of(after, n, op, k)) == total(line_of(cells, n, op, k))
        &&& (saturated(line_of(cells, n, op, k)) ==> line_of(after, n, op, k) == line_of(
            cells,
            n,
            op,
            k,
        ))
    } by {
        lemma_shift_keeps_line_total(cells, n, op, k);
        if saturated(line_of(cells, n, op, k)) {
            lemma_saturated_line_stays(cells, n, op, k);
        }
    }
}

/// A shift to the left or to the right keeps the sum of every row and
/// leaves the saturated rows as they are.
pub proof fn lemma_shift_keeps_rows(cells: Seq<int>, n: int, op: Operation)
    requires
        cells.len() == n * n,
        op == Operation::LEFT || op == Operation::RIGHT,
    ensures
        rows_kept(cells, shifted(cells, n, op), n),
{
    let after = shifted(cells, n, op);
    assert forall|r: int| 0 <= r < n implies {
        &&& total(#[trigger] row(after, n, r)) == total(row(cells, n, r))
        &&& (saturated(row(cells, n, r)) ==> row(after, n, r) == row(cells, n, r))
    } by {
        lemma_shift_keeps_row_total(cells, n, op, r);
        if saturated(row(cells, n, r)) {
            lemma_saturated_row_stays(cells, n, op, r);
        }
    }
}

/// A shift upward or downward keeps the sum of every column and leaves the
/// saturated columns as they are.
pub proof fn lemma_shift_keeps_columns(cells: Seq<int>, n: int, op: Operation)
    requires
        cells.len() == n * n,
        op == Operation::UP || op == Operation::DOWN,
    ensures
        columns_kept(cells, shifted(cells, n, op), n),
{
    let after = shifted(cells, n, op);
    assert forall|c: int| 0 <= c < n implies {
        &&& total(#[trigger] column(after, n, c)) == total(column(cells, n, c))
        &&& (saturated(column(cells, n, c)) ==> column(after, n, c) == column(cells, n, c))
    } by {
        lemma_shift_keeps_column_total(cells, n, op, c);
        if saturated(column(cells, n, c)) {
            lemma_saturated_column_stays(cells, n, op, c);
        }
    }
}

} // verus!
