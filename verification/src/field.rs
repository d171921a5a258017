//! The board, the four shifts, the spawner, the detector of finished games
//! and the turn that composes them.

use crate::board::{
    blocked_at, columns_kept, lemma_cell_index, lemma_line_coordinates, lemma_line_round_trip,
    lemma_right_neighbour, lemma_shift_keeps_columns, lemma_shift_keeps_lines,
    lemma_shift_keeps_rows, lemma_split_index, line_cell, line_no, line_of, line_pos, lines_kept,
    rows_kept, seeded, shifted, spawn_outcome, spawned, terminal, turn_result,
};
use crate::chance::{draw_hits, PERCENT};
use crate::command::{Operation, TurnError, TurnOutcome};
use crate::line::{
    all_tiles, checked_slide_line, fits, ints, is_power, is_tile, lemma_mergeable_fits, mergeable,
    slide, slide_line, MAX_MERGEABLE,
};
use vstd::prelude::*;

verus! {

/// Side length of the board that `Field::new` makes.
pub const DEFAULT_SIZE: usize = 4;

/// Chance in percent that a cell of a new board starts with a tile.
pub const DEFAULT_INIT_CHANCE: u32 = 15;

/// Chance in percent that an empty cell receives a tile after a move.
pub const DEFAULT_NEW_CHANCE: u32 = 10;

/// The index `u` moved by the offset `i`, where that is an index at all.
pub fn add(u: usize, i: i32) -> (moved: Option<usize>)
    ensures
        moved == (if 0 <= u + i <= usize::MAX {
            Some((u + i) as usize)
        } else {
            None::<usize>
        }),
{
    if i < 0 {
        let back: usize = (-(i as i64)) as usize;
        u.checked_sub(back)
    } else {
        u.checked_add(i as usize)
    }
}

/// A front end of the game: it shows the board, asks for a command and
/// hands it to the game, turn after turn.
pub trait Game2048Interface {
    fn game_loop(&mut self);
}

/// Whether `v` may stand in a cell: it is 0 or one of 2, 4, 8, ...
pub fn is_tile_value(v: i32) -> (b: bool)
    ensures
        b == is_tile(v as int),
{
    if v == 0 {
        return true;
    }
    if v < 2 {
        return false;
    }
    let mut x: i32 = v;
    while x > 2 && x % 2 == 0
        invariant
            2 <= x <= v,
            is_power(x as int) == is_power(v as int),
        decreases x,
    {
        x = x / 2;
    }
    x == 2
}

/// The game: a square board of tiles in row-major order, row 0 on top,
/// whether the game has ended, and the two chances in percent that govern
/// where tiles appear.
pub struct Field {
    field: Vec<i32>,
    game_over: bool,
    field_size: usize,
    init_chance: u32,
    new_chance: u32,
}

impl Field {
    /// The cells of the board in row-major order; 0 stands for an empty one.
    pub closed spec fn cells(&self) -> Seq<int> {
        ints(self.field@)
    }

    /// The side length of the board.
    pub closed spec fn side(&self) -> int {
        self.field_size as int
    }

    /// Whether the game has ended.
    pub closed spec fn over(&self) -> bool {
        self.game_over
    }

    /// Chance in percent that a cell of the new board started with a tile.
    pub closed spec fn init_percent(&self) -> int {
        self.init_chance as int
    }

    /// Chance in percent that an empty cell receives a tile after a move.
    pub closed spec fn new_percent(&self) -> int {
        self.new_chance as int
    }

    /// The board is square and not empty, every cell is empty or holds a
    /// power of two, and both chances are at most a hundred percent.
    pub open spec fn wf(&self) -> bool {
        &&& 1 <= self.side()
        &&& self.cells().len() == self.side() * self.side()
        &&& all_tiles(self.cells())
        &&& 0 <= self.init_percent() <= PERCENT
        &&& 0 <= self.new_percent() <= PERCENT
    }

    /// Every tile can be doubled without leaving `i32`.
    pub open spec fn headroom(&self) -> bool {
        mergeable(self.cells())
    }

    /// Every tile that a shift toward `op` makes can stand in an `i32`.
    pub open spec fn shift_fits(&self, op: Operation) -> bool {
        fits(shifted(self.cells(), self.side(), op))
    }

    /// A board with headroom can be shifted in every direction.
    pub proof fn lemma_headroom_allows_shift(&self, op: Operation)
        requires
            self.wf(),
            self.headroom(),
        ensures
            self.shift_fits(op),
    {
        let n = self.side();
        let cells = self.cells();
        let after = shifted(cells, n, op);
        if op != Operation::INVALID {
            assert forall|i: int| 0 <= i < after.len() implies i32::MIN <= #[trigger] after[i]
                <= i32::MAX by {
                lemma_line_round_trip(n, op, i);
                let k = line_no(n, op, i);
                let line = line_of(cells, n, op, k);
                assert forall|j: int| 0 <= j < line.len() implies 0 <= #[trigger] line[j]
                    <= MAX_MERGEABLE by {
                    lemma_line_coordinates(n, op, k, j);
                }
                lemma_mergeable_fits(line);
            }
        }
    }

    /// Size, state and chances are those of `other`.
    pub open spec fn same_settings(&self, other: &Field) -> bool {
        &&& self.side() == other.side()
        &&& self.over() == other.over()
        &&& self.init_percent() == other.init_percent()
        &&& self.new_percent() == other.new_percent()
    }

    /// A new game on a board of side `size` whose cells are drawn in
    /// `hits`: a 2 where the draw is a hit, else empty.
    pub fn from_draws(size: usize, init_percent: u32, new_percent: u32, hits: &Vec<bool>) -> (game:
        Field)
        requires
            1 <= size,
            hits@.len() == size * size,
            init_percent <= PERCENT,
            new_percent <= PERCENT,
        ensures
            game.wf(),
            game.headroom(),
            game.side() == size,
            !game.over(),
            game.init_percent() == init_percent,
            game.new_percent() == new_percent,
            game.cells() == seeded(hits@),
    {
        let total: usize = hits.len();
        let mut field: Vec<i32> = Vec::with_capacity(total);
        let mut i: usize = 0;
        while i < total
            invariant
                total == hits@.len(),
                i <= total,
                field@.len() == i,
                forall|q: int| 0 <= q < i ==> #[trigger] field@[q] as int == seeded(hits@)[q],
            decreases total - i,
        {
            if hits[i] {
                field.push(2);
            } else {
                field.push(0);
            }
            i += 1;
        }
        let game = Field {
            field,
            game_over: false,
            field_size: size,
            init_chance: init_percent,
            new_chance: new_percent,
        };
        proof {
            assert(game.cells() == seeded(hits@));
            assert(is_power(2));
        }
        game
    }

    /// A new game on a board of side `size`: each cell starts with a 2 with
    /// a chance of `init_percent` in a hundred, else empty.
    pub fn configured(size: usize, init_percent: u32, new_percent: u32) -> (game: Field)
        requires
            1 <= size,
            size * size <= usize::MAX,
            init_percent <= PERCENT,
            new_percent <= PERCENT,
        ensures
            game.wf(),
            game.headroom(),
            game.side() == size,
            !game.over(),
            game.init_percent() == init_percent,
            game.new_percent() == new_percent,
            forall|i: int|
                0 <= i < game.cells().len() ==> #[trigger] game.cells()[i] == 0
                    || game.cells()[i] == 2,
            init_percent == 0 ==> forall|i: int|
                0 <= i < game.cells().len() ==> #[trigger] game.cells()[i] == 0,
            init_percent == PERCENT ==> forall|i: int|
                0 <= i < game.cells().len() ==> #[trigger] game.cells()[i] == 2,
    {
        let hits: Vec<bool> = draw_hits(size * size, init_percent);
        Field::from_draws(size, init_percent, new_percent, &hits)
    }

    /// A new game on the usual board of four by four cells, with the usual
    /// chances.
    pub fn new() -> (game: Field)
        ensures
            game.wf(),
            game.headroom(),
            game.side() == DEFAULT_SIZE,
            !game.over(),
            game.init_percent() == DEFAULT_INIT_CHANCE,
            game.new_percent() == DEFAULT_NEW_CHANCE,
            forall|i: int|
                0 <= i < game.cells().len() ==> #[trigger] game.cells()[i] == 0
                    || game.cells()[i] == 2,
    {
        Field::configured(DEFAULT_SIZE, DEFAULT_INIT_CHANCE, DEFAULT_NEW_CHANCE)
    }

    /// A game in progress on the given board, with the usual chances, or
    /// nothing where `cells` is no board of side `size`.
    pub fn from_cells(size: usize, cells: Vec<i32>) -> (game: Option<Field>)
        ensures
            game.is_some() <==> 1 <= size && cells@.len() == size * size && all_tiles(
                ints(cells@),
            ),
            game.is_some() ==> {
                &&& game.unwrap().wf()
                &&& game.unwrap().side() == size
                &&& !game.unwrap().over()
                &&& game.unwrap().init_percent() == DEFAULT_INIT_CHANCE
                &&& game.unwrap().new_percent() == DEFAULT_NEW_CHANCE
                &&& game.unwrap().cells() == ints(cells@)
            },
    {
        if size == 0 {
            return None;
        }
        let given: usize = cells.len();
        let total: usize = match size.checked_mul(size) {
            Some(t) => t,
            None => {
                return None;
            },
        };
        if given != total {
            return None;
        }
        let mut i: usize = 0;
        while i < total
            invariant
                total == cells@.len(),
                i <= total,
                forall|q: int| 0 <= q < i ==> is_tile(#[trigger] ints(cells@)[q]),
            decreases total - i,
        {
            if !is_tile_value(cells[i]) {
                proof {
                    assert(!is_tile(ints(cells@)[i as int]));
                }
                return None;
            }
            i += 1;
        }
        Some(
            Field {
                field: cells,
                game_over: false,
                field_size: size,
                init_chance: DEFAULT_INIT_CHANCE,
                new_chance: DEFAULT_NEW_CHANCE,
            },
        )
    }

    /// Board index of the cell in row `row` and column `col`.
    fn index_of(&self, row: usize, col: usize) -> (i: usize)
        requires
            self.wf(),
            row < self.side(),
            col < self.side(),
        ensures
            i == row * self.side() + col,
            i < self.cells().len(),
    {
        let total: usize = self.field.len();
        proof {
            lemma_cell_index(self.side(), row as int, col as int);
            assert(total == self.side() * self.side());
        }
        row * self.field_size + col
    }

    /// The side length of the board.
    pub fn size(&self) -> (n: usize)
        ensures
            n == self.side(),
    {
        self.field_size
    }

    /// Whether the game has ended.
    pub fn finished(&self) -> (over: bool)
        ensures
            over == self.over(),
    {
        self.game_over
    }

    /// The value of the cell in row `row` and column `col`.
    pub fn get(&self, row: usize, col: usize) -> (value: i32)
        requires
            self.wf(),
            row < self.side(),
            col < self.side(),
        ensures
            value == self.cells()[row * self.side() + col],
    {
        let i: usize = self.index_of(row, col);
        self.field[i]
    }

    /// Puts `value` into the cell in row `row` and column `col`.
    pub fn set(&mut self, row: usize, col: usize, value: i32)
        requires
            old(self).wf(),
            row < old(self).side(),
            col < old(self).side(),
            is_tile(value as int),
        ensures
            final(self).wf(),
            final(self).same_settings(old(self)),
            final(self).cells() == old(self).cells().update(
                row * old(self).side() + col,
                value as int,
            ),
    {
        let i: usize = self.index_of(row, col);
        self.field.set(i, value);
        proof {
            assert(self.cells() == old(self).cells().update(i as int, value as int));
        }
    }

    /// The cells of the board in row-major order.
    pub fn snapshot(&self) -> (cells: Vec<i32>)
        ensures
            ints(cells@) == self.cells(),
    {
        let mut cells: Vec<i32> = Vec::new();
        let mut i: usize = 0;
        while i < self.field.len()
            invariant
                i <= self.field@.len(),
                cells@ == self.field@.take(i as int),
            decreases self.field@.len() - i,
        {
            cells.push(self.field[i]);
            proof {
                assert(cells@ == self.field@.take(i + 1));
            }
            i += 1;
        }
        proof {
            assert(self.field@.take(i as int) == self.field@);
        }
        cells
    }

    /// Line `k` of the board, read from the edge that `op` names.
    fn extract_line(&self, op: Operation, k: usize) -> (line: Vec<i32>)
        requires
            self.wf(),
            k < self.side(),
        ensures
            ints(line@) == line_of(self.cells(), self.side(), op, k as int),
    {
        let n: usize = self.field_size;
        let total: usize = self.field.len();
        let mut line: Vec<i32> = Vec::new();
        let mut j: usize = 0;
        while j < n
            invariant
                self.wf(),
                n == self.side(),
                total == n * n,
                total == self.field@.len(),
                k < n,
                j <= n,
                line@.len() == j,
                forall|q: int|
                    0 <= q < j ==> #[trigger] line@[q] as int == self.cells()[line_cell(
                        n as int,
                        op,
                        k as int,
                        q,
                    )],
            decreases n - j,
        {
            proof {
                lemma_cell_index(n as int, k as int, j as int);
                lemma_cell_index(n as int, j as int, k as int);
                lemma_cell_index(n as int, k as int, n - 1 - j);
                lemma_cell_index(n as int, n - 1 - j, k as int);
            }
            let i: usize = match op {
                Operation::LEFT | Operation::INVALID => k * n + j,
                Operation::RIGHT => k * n + (n - 1 - j),
                Operation::UP => j * n + k,
                Operation::DOWN => (n - 1 - j) * n + k,
            };
            let v: i32 = self.field[i];
            line.push(v);
            j += 1;
        }
        proof {
            assert(ints(line@) == line_of(self.cells(), self.side(), op, k as int));
        }
        line
    }

    /// Whether every tile that a shift toward `op` makes fits in an `i32`,
    /// so that the shift can be made.
    pub fn can_shift(&self, op: Operation) -> (ok: bool)
        requires
            self.wf(),
        ensures
            ok == self.shift_fits(op),
    {
        if op == Operation::INVALID {
            return true;
        }
        let n: usize = self.field_size;
        let ghost cells: Seq<int> = self.cells();
        let mut k: usize = 0;
        while k < n
            invariant
                self.wf(),
                n == self.side(),
                cells == self.cells(),
                op != Operation::INVALID,
                k <= n,
                forall|q: int|
                    0 <= q < k ==> fits(slide(#[trigger] line_of(cells, n as int, op, q))),
            decreases n - k,
        {
            let line: Vec<i32> = self.extract_line(op, k);
            if checked_slide_line(&line).is_none() {
                proof {
                    let slid = slide(ints(line@));
                    if fits(shifted(cells, n as int, op)) {
                        assert forall|j: int| 0 <= j < slid.len() implies i32::MIN
                            <= #[trigger] slid[j] <= i32::MAX by {
                            lemma_line_coordinates(n as int, op, k as int, j);
                            let at = line_cell(n as int, op, k as int, j);
                            assert(shifted(cells, n as int, op)[at] == slid[j]);
                        }
                    }
                }
                return false;
            }
            k += 1;
        }
        proof {
            let after = shifted(cells, n as int, op);
            assert forall|i: int| 0 <= i < after.len() implies i32::MIN <= #[trigger] after[i]
                <= i32::MAX by {
                lemma_line_round_trip(n as int, op, i);
                let q = line_no(n as int, op, i);
                assert(fits(slide(line_of(cells, n as int, op, q))));
            }
        }
        true
    }

    /// Slides every line of the board toward the edge that `op` names,
    /// merging equal neighbours once each.
    pub fn shift(&mut self, op: Operation)
        requires
            old(self).wf(),
            old(self).shift_fits(op),
            op != Operation::INVALID,
        ensures
            final(self).wf(),
            final(self).same_settings(old(self)),
            final(self).cells() == shifted(old(self).cells(), old(self).side(), op),
            lines_kept(old(self).cells(), final(self).cells(), old(self).side(), op),
    {
        let n: usize = self.field_size;
        let total: usize = self.field.len();
        let ghost before: Seq<int> = self.cells();
        let mut lines: Vec<Vec<i32>> = Vec::new();
        let mut k: usize = 0;
        while k < n
            invariant
                self.wf(),
                self.shift_fits(op),
                op != Operation::INVALID,
                n == self.side(),
                before == self.cells(),
                k <= n,
                lines@.len() == k,
                forall|q: int|
                    0 <= q < k ==> {
                        &&& (#[trigger] lines@[q])@.len() == n
                        &&& ints(lines@[q]@) == slide(line_of(before, n as int, op, q))
                        &&& all_tiles(ints(lines@[q]@))
                    },
            decreases n - k,
        {
            let line: Vec<i32> = self.extract_line(op, k);
            proof {
                let slid = slide(ints(line@));
                assert forall|j: int| 0 <= j < slid.len() implies i32::MIN <= #[trigger] slid[j]
                    <= i32::MAX by {
                    lemma_line_coordinates(n as int, op, k as int, j);
                    let at = line_cell(n as int, op, k as int, j);
                    assert(shifted(before, n as int, op)[at] == slid[j]);
                }
                assert(all_tiles(ints(line@))) by {
                    assert forall|j: int| 0 <= j < n implies is_tile(
                        #[trigger] ints(line@)[j],
                    ) by {
                        lemma_line_coordinates(n as int, op, k as int, j);
                    }
                }
            }
            let slid: Vec<i32> = slide_line(&line);
            lines.push(slid);
            k += 1;
        }
        let mut out: Vec<i32> = Vec::new();
        let mut i: usize = 0;
        while i < total
            invariant
                1 <= n,
                total == n * n,
                total == before.len(),
                op != Operation::INVALID,
                lines@.len() == n,
                forall|q: int|
                    0 <= q < n ==> {
                        &&& (#[trigger] lines@[q])@.len() == n
                        &&& ints(lines@[q]@) == slide(line_of(before, n as int, op, q))
                        &&& all_tiles(ints(lines@[q]@))
                    },
                i <= total,
                out@.len() == i,
                forall|q: int|
                    0 <= q < i ==> #[trigger] out@[q] as int == shifted(before, n as int, op)[q],
                all_tiles(ints(out@)),
            decreases total - i,
        {
            proof {
                lemma_split_index(n as int, i as int);
            }
            let r: usize = i / n;
            let c: usize = i % n;
            let k: usize = match op {
                Operation::LEFT | Operation::RIGHT | Operation::INVALID => r,
                Operation::UP | Operation::DOWN => c,
            };
            let j: usize = match op {
                Operation::LEFT | Operation::INVALID => c,
                Operation::RIGHT => n - 1 - c,
                Operation::UP => r,
                Operation::DOWN => n - 1 - r,
            };
            let v: i32 = lines[k][j];
            let ghost prior = out@;
            proof {
                assert(k == line_no(n as int, op, i as int));
                assert(j == line_pos(n as int, op, i as int));
                assert(v as int == ints(lines@[k as int]@)[j as int]);
            }
            out.push(v);
            proof {
                assert(ints(out@) == ints(prior).push(v as int));
            }
            i += 1;
        }
        self.field = out;
        proof {
            assert(self.cells() == shifted(before, n as int, op));
            lemma_shift_keeps_lines(before, n as int, op);
        }
    }

    /// Slides the tiles of every column toward the top row.
    pub fn shift_up(&mut self)
        requires
            old(self).wf(),
            old(self).shift_fits(Operation::UP),
        ensures
            final(self).wf(),
            final(self).same_settings(old(self)),
            final(self).cells() == shifted(old(self).cells(), old(self).side(), Operation::UP),
            columns_kept(old(self).cells(), final(self).cells(), old(self).side()),
    {
        proof {
            lemma_shift_keeps_columns(self.cells(), self.side(), Operation::UP);
        }
        self.shift(Operation::UP);
    }

    /// Slides the tiles of every column toward the bottom row.
    pub fn shift_down(&mut self)
        requires
            old(self).wf(),
            old(self).shift_fits(Operation::DOWN),
        ensures
            final(self).wf(),
            final(self).same_settings(old(self)),
            final(self).cells() == shifted(old(self).cells(), old(self).side(), Operation::DOWN),
            columns_kept(old(self).cells(), final(self).cells(), old(self).side()),
    {
        proof {
            lemma_shift_keeps_columns(self.cells(), self.side(), Operation::DOWN);
        }
        self.shift(Operation::DOWN);
    }

    /// Slides the tiles of every row sideways. With an `offset` of 1 each
    /// cell pulls from its right neighbour, so the tiles go left; with -1
    /// they go right.
    pub fn shift_horizontal(&mut self, offset: i32)
        requires
            old(self).wf(),
            offset == 1 || offset == -1,
            old(self).shift_fits(
                if offset == 1 {
                    Operation::LEFT
                } else {
                    Operation::RIGHT
                },
            ),
        ensures
            final(self).wf(),
            final(self).same_settings(old(self)),
            final(self).cells() == shifted(
                old(self).cells(),
                old(self).side(),
                if offset == 1 {
                    Operation::LEFT
                } else {
                    Operation::RIGHT
                },
            ),
            rows_kept(old(self).cells(), final(self).cells(), old(self).side()),
    {
        proof {
            lemma_shift_keeps_rows(self.cells(), self.side(), Operation::LEFT);
            lemma_shift_keeps_rows(self.cells(), self.side(), Operation::RIGHT);
        }
        if offset == 1 {
            self.shift(Operation::LEFT);
        } else {
            self.shift(Operation::RIGHT);
        }
    }

    /// The spawner on given draws: every empty cell whose draw is a hit
    /// receives a 2.
    pub fn spawn_from(&mut self, hits: &Vec<bool>)
        requires
            old(self).wf(),
            hits@.len() == old(self).cells().len(),
        ensures
            final(self).wf(),
            final(self).same_settings(old(self)),
            final(self).cells() == spawned(old(self).cells(), hits@),
            spawn_outcome(old(self).cells(), final(self).cells()),
    {
        let total: usize = self.field.len();
        let mut i: usize = 0;
        while i < total
            invariant
                self.wf(),
                self.same_settings(old(self)),
                total == self.field@.len(),
                total == hits@.len(),
                self.cells().len() == old(self).cells().len(),
                i <= total,
                forall|q: int|
                    0 <= q < i ==> #[trigger] self.cells()[q] == spawned(old(self).cells(), hits@)[q],
                forall|q: int| i <= q < total ==> #[trigger] self.cells()[q] == old(self).cells()[q],
            decreases total - i,
        {
            proof {
                assert(self.cells()[i as int] == old(self).cells()[i as int]);
                assert(self.cells()[i as int] == self.field@[i as int] as int);
            }
            if self.field[i] == 0 && hits[i] {
                let ghost prior = self.cells();
                self.field.set(i, 2);
                proof {
                    assert(self.cells() == prior.update(i as int, 2));
                    assert(is_power(2));
                }
            }
            i += 1;
        }
        proof {
            assert(self.cells() == spawned(old(self).cells(), hits@));
        }
    }

    /// The spawner: every empty cell receives a 2 with the chance that the
    /// game was made with, each independently of the others.
    pub fn add_new(&mut self)
        requires
            old(self).wf(),
        ensures
            final(self).wf(),
            final(self).same_settings(old(self)),
            spawn_outcome(old(self).cells(), final(self).cells()),
            old(self).new_percent() == 0 ==> final(self).cells() == old(self).cells(),
            old(self).new_percent() == PERCENT ==> forall|i: int|
                0 <= i < old(self).cells().len() ==> #[trigger] final(self).cells()[i] == if old(
                    self,
                ).cells()[i] == 0 {
                    2
                } else {
                    old(self).cells()[i]
                },
    {
        let hits: Vec<bool> = draw_hits(self.field.len(), self.new_chance);
        self.spawn_from(&hits);
        proof {
            if old(self).new_percent() == 0 {
                assert(self.cells() == old(self).cells());
            }
        }
    }

    /// Whether no move is left: the board is full and no two cells that
    /// touch along a row or a column hold the same value.
    pub fn is_game_over(&self) -> (ended: bool)
        requires
            self.wf(),
        ensures
            ended == terminal(self.cells(), self.side()),
    {
        let n: usize = self.field_size;
        let total: usize = self.field.len();
        let mut i: usize = 0;
        while i < total
            invariant
                self.wf(),
                n == self.side(),
                total == self.field@.len(),
                i <= total,
                forall|q: int| 0 <= q < i ==> #[trigger] blocked_at(self.cells(), n as int, q),
            decreases total - i,
        {
            let v: i32 = self.field[i];
            if v == 0 {
                proof {
                    assert(!blocked_at(self.cells(), n as int, i as int));
                }
                return false;
            }
            if i % n + 1 < n {
                proof {
                    lemma_right_neighbour(n as int, i as int);
                }
                if self.field[i + 1] == v {
                    proof {
                        assert(!blocked_at(self.cells(), n as int, i as int));
                    }
                    return false;
                }
            }
            if n < total - i {
                if self.field[i + n] == v {
                    proof {
                        assert(!blocked_at(self.cells(), n as int, i as int));
                    }
                    return false;
                }
            }
            proof {
                assert(blocked_at(self.cells(), n as int, i as int));
            }
            i += 1;
        }
        true
    }

    /// One turn on given draws. A turn after the game has ended, and a
    /// command that names no direction, are rejected and change nothing.
    /// Otherwise the tiles slide, the spawner runs on `hits`, and the game
    /// ends if no move is left on the board that results.
    pub fn apply_turn_with(&mut self, op: Operation, hits: &Vec<bool>) -> (result: Result<
        TurnOutcome,
        TurnError,
    >)
        requires
            old(self).wf(),
            hits@.len() == old(self).cells().len(),
            !old(self).over() && op != Operation::INVALID ==> old(self).shift_fits(op),
        ensures
            final(self).wf(),
            final(self).side() == old(self).side(),
            final(self).init_percent() == old(self).init_percent(),
            final(self).new_percent() == old(self).new_percent(),
            old(self).over() || op == Operation::INVALID ==> *final(self) == *old(self),
            !old(self).over() && op != Operation::INVALID ==> {
                &&& final(self).cells() == spawned(
                    shifted(old(self).cells(), old(self).side(), op),
                    hits@,
                )
                &&& final(self).over() == terminal(final(self).cells(), final(self).side())
            },
            result == turn_result(old(self).over(), op, final(self).over()),
    {
        if self.game_over {
            return Err(TurnError::TurnAfterGameOver);
        }
        if op == Operation::INVALID {
            return Err(TurnError::InvalidDirection);
        }
        self.shift(op);
        self.spawn_from(hits);
        let ended: bool = self.is_game_over();
        self.game_over = ended;
        if ended {
            Ok(TurnOutcome::GameOver)
        } else {
            Ok(TurnOutcome::Continued)
        }
    }

    /// One turn with random draws: as `apply_turn_with`, on draws that hit
    /// with the chance that the game was made with.
    pub fn apply_turn(&mut self, op: Operation) -> (result: Result<TurnOutcome, TurnError>)
        requires
            old(self).wf(),
            !old(self).over() && op != Operation::INVALID ==> old(self).shift_fits(op),
        ensures
            final(self).wf(),
            final(self).side() == old(self).side(),
            final(self).init_percent() == old(self).init_percent(),
            final(self).new_percent() == old(self).new_percent(),
            old(self).over() || op == Operation::INVALID ==> *final(self) == *old(self),
            !old(self).over() && op != Operation::INVALID ==> {
                &&& spawn_outcome(
                    shifted(old(self).cells(), old(self).side(), op),
                    final(self).cells(),
                )
                &&& final(self).over() == terminal(final(self).cells(), final(self).side())
            },
            result == turn_result(old(self).over(), op, final(self).over()),
    {
        if self.game_over {
            return Err(TurnError::TurnAfterGameOver);
        }
        if op == Operation::INVALID {
            return Err(TurnError::InvalidDirection);
        }
        let hits: Vec<bool> = draw_hits(self.field.len(), self.new_chance);
        self.apply_turn_with(op, &hits)
    }

    /// Updates the game by one turn with random draws, exactly as
    /// `apply_turn` does: a turn after the game has ended, and a command
    /// that names no direction, are rejected and change nothing; otherwise
    /// the tiles slide, the spawner runs, and the game ends if no move is
    /// left.
    pub fn update_field(&mut self, op: Operation) -> (result: Result<TurnOutcome, TurnError>)
        requires
            old(self).wf(),
            !old(self).over() && op != Operation::INVALID ==> old(self).shift_fits(op),
        ensures
            final(self).wf(),
            final(self).side() == old(self).side(),
            final(self).init_percent() == old(self).init_percent(),
            final(self).new_percent() == old(self).new_percent(),
            old(self).over() || op == Operation::INVALID ==> *final(self) == *old(self),
            !old(self).over() && op != Operation::INVALID ==> {
                &&& spawn_outcome(
                    shifted(old(self).cells(), old(self).side(), op),
                    final(self).cells(),
                )
                &&& final(self).over() == terminal(final(self).cells(), final(self).side())
            },
            result == turn_result(old(self).over(), op, final(self).over()),
    {
        self.apply_turn(op)
    }
}

} // verus!
