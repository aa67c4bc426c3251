//! One player's stack of blocks: the packed grid together with the cached
//! height of every column.
use vstd::prelude::*;
use vstd::std_specs::cmp::PartialEqSpecImpl;
pub use crate::bit_board::{FIELD_HEIGHT, FIELD_WIDTH, INPUT_FIELD_HEIGHT};
use crate::bit_board::{
    grid_hash, grid_set, grid_valid, input_grid, input_valid, lemma_hash_same, slot_byte, BitBoard,
    Grid,
};
use crate::zobrist_hash_table::ZobristHash;

verus! {

/// A column that reaches this height ends the game.
pub const DANGER_LINE_HEIGHT: usize = INPUT_FIELD_HEIGHT + 1;

pub const EMPTY_BLOCK: u8 = 0;

pub const OBSTACLE_BLOCK: u8 = 11;

/// Two adjacent numbered blocks erase each other when they sum to this.
pub const ERASING_SUM: u8 = 10;

/// `h` is the lowest empty row of column `x`: every row below it is
/// occupied, and row `h` itself is empty unless the column is full.
pub open spec fn lowest_empty_row(g: Grid, x: int, h: int) -> bool {
    &&& 0 <= h <= FIELD_HEIGHT
    &&& forall|y: int| 0 <= y < h ==> (#[trigger] g[y])[x] != EMPTY_BLOCK
    &&& h < FIELD_HEIGHT ==> g[h][x] == EMPTY_BLOCK
}

/// Column `x` is a gap-free stack of `h` blocks with nothing above it.
pub open spec fn column_settled(g: Grid, x: int, h: int) -> bool {
    &&& 0 <= h <= FIELD_HEIGHT
    &&& forall|y: int| 0 <= y < h ==> (#[trigger] g[y])[x] != EMPTY_BLOCK
    &&& forall|y: int| h <= y < FIELD_HEIGHT ==> (#[trigger] g[y])[x] == EMPTY_BLOCK
}

/// Every column of the grid is a gap-free stack of the cached height.
pub open spec fn settled(g: Grid, heights: Seq<usize>) -> bool {
    &&& grid_valid(g)
    &&& heights.len() == FIELD_WIDTH
    &&& forall|x: int| 0 <= x < FIELD_WIDTH ==> column_settled(g, x, #[trigger] heights[x] as int)
}

/// A settled grid has one set of heights.
pub proof fn lemma_settled_heights_unique(g: Grid, a: Seq<usize>, b: Seq<usize>)
    requires
        settled(g, a),
        settled(g, b),
    ensures
        a == b,
{
    assert forall|x: int| 0 <= x < FIELD_WIDTH implies a[x] == b[x] by {
        assert(column_settled(g, x, a[x] as int));
        assert(column_settled(g, x, b[x] as int));
        if a[x] < b[x] {
            assert(g[a[x] as int][x] == EMPTY_BLOCK);
        }
        if b[x] < a[x] {
            assert(g[b[x] as int][x] == EMPTY_BLOCK);
        }
    }
    assert(a =~= b);
}

/// The heights of a settled grid.
pub open spec fn heights_of(g: Grid) -> Seq<usize> {
    choose|heights: Seq<usize>| settled(g, heights)
}

/// The heights of a settled grid are the heights it is settled at.
pub proof fn lemma_heights_of(g: Grid, heights: Seq<usize>)
    requires
        settled(g, heights),
    ensures
        heights_of(g) == heights,
{
    lemma_settled_heights_unique(g, heights_of(g), heights);
}

/// The grid after one obstacle block has landed on every column.
pub open spec fn obstacles_dropped(g: Grid, heights: Seq<usize>) -> Grid {
    Seq::new(
        FIELD_HEIGHT as nat,
        |y: int|
            Seq::new(
                FIELD_WIDTH as nat,
                |x: int|
                    if y == heights[x] {
                        OBSTACLE_BLOCK
                    } else {
                        g[y][x]
                    },
            ),
    )
}

/// Some column reaches the danger line once `n` more rows of obstacles have
/// landed; with `n == 0`, the game is over now.
pub open spec fn danger(heights: Seq<usize>, n: int) -> bool {
    exists|x: int| 0 <= x < heights.len() && #[trigger] heights[x] + n >= DANGER_LINE_HEIGHT
}

/// A stack whose tallest column is `k` rows below the visible ceiling
/// survives `k` rows of obstacles and is lost with the next one.
pub proof fn lemma_monotonic_danger(heights: Seq<usize>, k: int, n: int)
    requires
        forall|x: int| 0 <= x < heights.len() ==> #[trigger] heights[x] <= INPUT_FIELD_HEIGHT - k,
        exists|x: int| 0 <= x < heights.len() && #[trigger] heights[x] == INPUT_FIELD_HEIGHT - k,
        0 <= n,
    ensures
        danger(heights, n) <==> n >= k + 1,
{
    let top = choose|x: int| 0 <= x < heights.len() && #[trigger] heights[x] == INPUT_FIELD_HEIGHT - k;
    if n >= k + 1 {
        assert(heights[top] + n >= DANGER_LINE_HEIGHT);
    }
}

/// Grids that hold the same cells have the same hash, however each was
/// built.
pub proof fn lemma_hash_depends_on_cells(a: Grid, b: Grid)
    requires
        forall|y: int, x: int|
            0 <= y < FIELD_HEIGHT && 0 <= x < FIELD_WIDTH ==> #[trigger] a[y][x] == b[y][x],
    ensures
        grid_hash(a) == grid_hash(b),
{
    assert forall|s: int| 0 <= s < 95 implies slot_byte(a, s) == slot_byte(b, s) by {
        assert(a[s / 5][2 * (s % 5)] == b[s / 5][2 * (s % 5)]);
        assert(a[s / 5][2 * (s % 5) + 1] == b[s / 5][2 * (s % 5) + 1]);
    }
    lemma_hash_same(a, b, 95);
}

/// The number of cells among the lowest `n` of column `x` that are obstacle
/// blocks (`obstacle` true) or anything else (`obstacle` false).
pub open spec fn column_count(g: Grid, x: int, n: int, obstacle: bool) -> int
    decreases n,
{
    if n <= 0 {
        0
    } else {
        column_count(g, x, n - 1, obstacle) + if (g[n - 1][x] == OBSTACLE_BLOCK) == obstacle {
            1int
        } else {
            0int
        }
    }
}

/// `column_count` summed over the stacks of the first `n` columns.
pub open spec fn stack_count(g: Grid, heights: Seq<usize>, n: int, obstacle: bool) -> int
    decreases n,
{
    if n <= 0 {
        0
    } else {
        stack_count(g, heights, n - 1, obstacle) + column_count(
            g,
            n - 1,
            heights[n - 1] as int,
            obstacle,
        )
    }
}

pub proof fn lemma_column_count_bound(g: Grid, x: int, n: int, obstacle: bool)
    requires
        0 <= n,
    ensures
        0 <= column_count(g, x, n, obstacle) <= n,
    decreases n,
{
    if n > 0 {
        lemma_column_count_bound(g, x, n - 1, obstacle);
    }
}

pub proof fn lemma_stack_count_bound(g: Grid, heights: Seq<usize>, n: int, obstacle: bool)
    requires
        0 <= n <= heights.len(),
        forall|x: int| 0 <= x < heights.len() ==> heights[x] <= FIELD_HEIGHT,
    ensures
        0 <= stack_count(g, heights, n, obstacle) <= n * FIELD_HEIGHT,
    decreases n,
{
    if n > 0 {
        lemma_stack_count_bound(g, heights, n - 1, obstacle);
        lemma_column_count_bound(g, n - 1, heights[n - 1] as int, obstacle);
    }
}

/// The board holds no block: every cell is empty, every height is zero,
/// and the hash carried is that of the empty grid, zero.
pub open spec fn is_empty_board(board: Board) -> bool {
    &&& board.wf()
    &&& forall|y: int, x: int|
        0 <= y < FIELD_HEIGHT && 0 <= x < FIELD_WIDTH ==> #[trigger] board@[y][x] == EMPTY_BLOCK
    &&& forall|x: int| 0 <= x < FIELD_WIDTH ==> #[trigger] board.heights[x] == 0
    &&& board.hash() == 0
    &&& grid_hash(board@) == 0
}

#[derive(Debug, Copy, Clone, Hash, PartialOrd, Ord)]
pub struct Board {
    /// The packed cells and their hash.
    pub board: BitBoard,
    /// The height of every column, counted from the bottom row.
    pub heights: [usize; FIELD_WIDTH],
}

impl View for Board {
    type V = Grid;

    /// The cells, bottom row first.
    open spec fn view(&self) -> Grid {
        self.board@
    }
}

impl Board {
    /// The hash the board carries.
    pub open spec fn hash(&self) -> u64 {
        self.board.hash()
    }

    /// The cached heights describe the grid: every column is a gap-free
    /// stack of its cached height.
    pub open spec fn wf(&self) -> bool {
        settled(self@, self.heights@)
    }

    /// The empty board.
    pub fn default() -> (r: Board)
        ensures
            is_empty_board(r),
            r.wf(),
            forall|y: int, x: int|
                0 <= y < FIELD_HEIGHT && 0 <= x < FIELD_WIDTH ==> #[trigger] r@[y][x] == EMPTY_BLOCK,
            forall|x: int| 0 <= x < FIELD_WIDTH ==> r.heights[x] == 0,
            r.hash() == 0,
    {
        let board = BitBoard::default();
        board.recall();
        let r = Board { board, heights: [0;FIELD_WIDTH] };
        proof {
            assert(grid_valid(r@));
        }
        r
    }

    /// Builds a board from a picture of the visible rows, top row first.
    /// The height of a column is its lowest empty row.
    pub fn new(input_board: [[u8; FIELD_WIDTH]; INPUT_FIELD_HEIGHT]) -> (r: Board)
        requires
            input_valid(input_board),
        ensures
            r@ == input_grid(input_board),
            r.hash() == grid_hash(r@),
            grid_valid(r@),
            forall|x: int|
                0 <= x < FIELD_WIDTH ==> lowest_empty_row(r@, x, #[trigger] r.heights[x] as int),
            forall|x: int| 0 <= x < FIELD_WIDTH ==> #[trigger] r.heights[x] <= INPUT_FIELD_HEIGHT,
    {
        let mut heights: [usize; FIELD_WIDTH] = [0;FIELD_WIDTH];
        let ghost g = input_grid(input_board);
        for x in 0..FIELD_WIDTH
            invariant
                g == input_grid(input_board),
                forall|i: int| 0 <= i < x ==> lowest_empty_row(g, i, #[trigger] heights[i] as int),
                forall|i: int| 0 <= i < x ==> #[trigger] heights[i] <= INPUT_FIELD_HEIGHT,
        {
            let mut y: usize = 0;
            while y < INPUT_FIELD_HEIGHT && input_board[INPUT_FIELD_HEIGHT - 1 - y][x] != EMPTY_BLOCK
                invariant
                    x < FIELD_WIDTH,
                    y <= INPUT_FIELD_HEIGHT,
                    g == input_grid(input_board),
                    forall|j: int| 0 <= j < y ==> (#[trigger] g[j])[x as int] != EMPTY_BLOCK,
                decreases INPUT_FIELD_HEIGHT - y,
            {
                assert(g[y as int][x as int] == input_board[INPUT_FIELD_HEIGHT - 1 - y][x as int]);
                y += 1;
            }
            assert(g[y as int][x as int] == EMPTY_BLOCK);
            heights[x] = y;
        }
        let board = BitBoard::new(input_board);
        board.recall();
        Board { board, heights }
    }

    /// The value of cell `(y, x)`.
    pub fn get(&self, y: usize, x: usize) -> (r: u8)
        requires
            y < FIELD_HEIGHT,
            x < FIELD_WIDTH,
        ensures
            r == self@[y as int][x as int],
            r <= OBSTACLE_BLOCK,
            grid_valid(self@),
    {
        self.board.get(y, x)
    }

    /// Writes `value` into cell `(y, x)`; every other cell and the cached
    /// heights stay as they are.
    pub fn set(&mut self, y: usize, x: usize, value: u8)
        requires
            y < FIELD_HEIGHT,
            x < FIELD_WIDTH,
            value <= OBSTACLE_BLOCK,
        ensures
            final(self)@ == grid_set(old(self)@, y as int, x as int, value),
            final(self).heights == old(self).heights,
            final(self).hash() == grid_hash(final(self)@),
            grid_valid(final(self)@),
    {
        self.board.set(y, x, value)
    }

    /// Lands one obstacle block on every column.
    pub fn drop_obstacles(&mut self)
        requires
            forall|x: int| 0 <= x < FIELD_WIDTH ==> #[trigger] old(self).heights[x] < FIELD_HEIGHT,
        ensures
            final(self)@ == obstacles_dropped(old(self)@, old(self).heights@),
            forall|x: int|
                0 <= x < FIELD_WIDTH ==> #[trigger] final(self).heights[x] == old(self).heights[x] + 1,
            forall|n: int| danger(final(self).heights@, n) == danger(old(self).heights@, n + 1),
            final(self).hash() == grid_hash(final(self)@),
            grid_valid(final(self)@),
            old(self).wf() ==> final(self).wf(),
    {
        self.board.recall();
        for x in 0..FIELD_WIDTH
            invariant
                grid_valid(self@),
                self.hash() == grid_hash(self@),
                forall|i: int| 0 <= i < FIELD_WIDTH ==> #[trigger] old(self).heights[i] < FIELD_HEIGHT,
                forall|i: int|
                    0 <= i < FIELD_WIDTH ==> #[trigger] self.heights[i] == old(self).heights[i] + if i
                        < x {
                        1int
                    } else {
                        0int
                    },
                forall|y: int, i: int|
                    0 <= y < FIELD_HEIGHT && 0 <= i < FIELD_WIDTH ==> #[trigger] self@[y][i] == if i
                        < x && y == old(self).heights[i] {
                        OBSTACLE_BLOCK
                    } else {
                        old(self)@[y][i]
                    },
        {
            let h = self.heights[x];
            self.board.set(h, x, OBSTACLE_BLOCK);
            self.heights[x] = h + 1;
        }
        proof {
            let before = old(self).heights@;
            let after = self.heights@;
            assert(self@ =~~= obstacles_dropped(old(self)@, before));
            assert forall|n: int| danger(after, n) == danger(before, n + 1) by {
                if danger(after, n) {
                    let x = choose|x: int|
                        0 <= x < after.len() && #[trigger] after[x] + n >= DANGER_LINE_HEIGHT;
                    assert(before[x] + (n + 1) >= DANGER_LINE_HEIGHT);
                }
                if danger(before, n + 1) {
                    let x = choose|x: int|
                        0 <= x < before.len() && #[trigger] before[x] + (n + 1)
                            >= DANGER_LINE_HEIGHT;
                    assert(after[x] + n >= DANGER_LINE_HEIGHT);
                }
            }
            if old(self).wf() {
                assert forall|x: int| 0 <= x < FIELD_WIDTH implies column_settled(
                    self@,
                    x,
                    #[trigger] after[x] as int,
                ) by {
                    assert(column_settled(old(self)@, x, before[x] as int));
                    assert(self.heights[x] == old(self).heights[x] + 1);
                }
            }
        }
    }

    /// Counts the blocks of the stacks: numbered ones first, obstacles
    /// second.
    pub fn count_blocks(&self) -> (r: (u8, u8))
        requires
            forall|x: int| 0 <= x < FIELD_WIDTH ==> #[trigger] self.heights[x] <= FIELD_HEIGHT,
        ensures
            r.0 == stack_count(self@, self.heights@, FIELD_WIDTH as int, false),
            r.1 == stack_count(self@, self.heights@, FIELD_WIDTH as int, true),
    {
        let mut live_count: u8 = 0;
        let mut obstacle_count: u8 = 0;
        for x in 0..FIELD_WIDTH
            invariant
                forall|i: int| 0 <= i < FIELD_WIDTH ==> #[trigger] self.heights[i] <= FIELD_HEIGHT,
                live_count == stack_count(self@, self.heights@, x as int, false),
                obstacle_count == stack_count(self@, self.heights@, x as int, true),
        {
            let h = self.heights[x];
            proof {
                lemma_stack_count_bound(self@, self.heights@, x as int, false);
                lemma_stack_count_bound(self@, self.heights@, x as int, true);
            }
            for y in 0..h
                invariant
                    x < FIELD_WIDTH,
                    h == self.heights[x as int],
                    h <= FIELD_HEIGHT,
                    stack_count(self@, self.heights@, x as int, false) <= x * FIELD_HEIGHT,
                    stack_count(self@, self.heights@, x as int, true) <= x * FIELD_HEIGHT,
                    live_count == stack_count(self@, self.heights@, x as int, false) + column_count(
                        self@,
                        x as int,
                        y as int,
                        false,
                    ),
                    obstacle_count == stack_count(self@, self.heights@, x as int, true)
                        + column_count(self@, x as int, y as int, true),
            {
                proof {
                    lemma_column_count_bound(self@, x as int, y as int, false);
                    lemma_column_count_bound(self@, x as int, y as int, true);
                }
                let block = self.get(y, x);
                if block != OBSTACLE_BLOCK {
                    live_count += 1;
                } else {
                    obstacle_count += 1;
                }
            }
        }
        (live_count, obstacle_count)
    }

    /// Whether some column has reached the danger line.
    pub fn is_game_over(&self) -> (r: bool)
        ensures
            r == danger(self.heights@, 0),
    {
        for x in 0..FIELD_WIDTH
            invariant
                forall|i: int| 0 <= i < x ==> #[trigger] self.heights[i] < DANGER_LINE_HEIGHT,
        {
            if self.heights[x] >= DANGER_LINE_HEIGHT {
                return true;
            }
        }
        false
    }

    /// Whether the cached heights describe the grid.
    pub fn is_well_formed(&self) -> (r: bool)
        ensures
            r == self.wf(),
    {
        for x in 0..FIELD_WIDTH
            invariant
                grid_valid(self@) ==> forall|i: int|
                    0 <= i < x ==> column_settled(self@, i, #[trigger] self.heights[i] as int),
        {
            let h = self.heights[x];
            if h > FIELD_HEIGHT {
                return false;
            }
            for y in 0..FIELD_HEIGHT
                invariant
                    x < FIELD_WIDTH,
                    h == self.heights[x as int],
                    h <= FIELD_HEIGHT,
                    forall|j: int| 0 <= j < y && j < h ==> (#[trigger] self@[j])[x as int] != EMPTY_BLOCK,
                    forall|j: int| h <= j < y ==> (#[trigger] self@[j])[x as int] == EMPTY_BLOCK,
            {
                let block = self.get(y, x);
                if (y < h) == (block == EMPTY_BLOCK) {
                    return false;
                }
            }
        }
        self.board.recall();
        true
    }

    /// Recalls what holds of every board: no cell is above eleven, and the
    /// hash carried is the XOR-fold over the cells.
    pub fn recall(&self)
        ensures
            grid_valid(self@),
            self.hash() == grid_hash(self@),
    {
        self.board.recall();
    }

    /// The structural hash: the XOR-fold over the cells the board holds now.
    pub fn zobrist_hash(&self) -> (h: ZobristHash)
        ensures
            h == self.hash(),
            h == grid_hash(self@),
    {
        self.board.zobrist_hash()
    }
}

impl PartialEq for Board {
    fn eq(&self, other: &Board) -> (r: bool) {
        self.board.zobrist_hash() == other.board.zobrist_hash() && self.board == other.board
    }
}

impl PartialEqSpecImpl for Board {
    open spec fn obeys_eq_spec() -> bool {
        true
    }

    /// Boards are equal when they hold the same cells and carry the same
    /// hash; the cached heights are not compared.
    open spec fn eq_spec(&self, other: &Board) -> bool {
        self@ == other@ && self.hash() == other.hash()
    }
}

impl Eq for Board {

}

} // verus!
