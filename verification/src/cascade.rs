//! The rules of the game as mathematics: which blocks a pass erases, how the
//! stacks fall afterwards, and the chain a drop sets off.
use vstd::prelude::*;
use crate::bit_board::{Grid, FIELD_HEIGHT, FIELD_WIDTH};
use crate::board::{
    column_settled, lemma_settled_heights_unique, settled, EMPTY_BLOCK, ERASING_SUM,
    OBSTACLE_BLOCK,
};

verus! {

/// A cell position, row first: `(y, x)`.
pub type Cell = (int, int);

pub open spec fn on_board(c: Cell) -> bool {
    0 <= c.0 < FIELD_HEIGHT && 0 <= c.1 < FIELD_WIDTH
}

/// A numbered block: neither empty nor an obstacle.
pub open spec fn is_numbered(v: u8) -> bool {
    v != EMPTY_BLOCK && v != OBSTACLE_BLOCK
}

/// Distinct cells that touch by a side or a corner.
pub open spec fn adjacent(a: Cell, b: Cell) -> bool {
    a != b && -1 <= a.0 - b.0 <= 1 && -1 <= a.1 - b.1 <= 1
}

/// Two adjacent numbered blocks whose values sum to ten.
pub open spec fn erasing_pair(g: Grid, a: Cell, b: Cell) -> bool {
    &&& on_board(a)
    &&& on_board(b)
    &&& adjacent(a, b)
    &&& is_numbered(g[a.0][a.1])
    &&& is_numbered(g[b.0][b.1])
    &&& g[a.0][a.1] + g[b.0][b.1] == ERASING_SUM
}

/// Cell `c` is erased in the pass that follows the changes at `modified`: it
/// belongs to an erasing pair of which at least one block was modified.
pub open spec fn erased_by(g: Grid, modified: Set<Cell>, c: Cell) -> bool {
    exists|d: Cell| #[trigger] erasing_pair(g, c, d) && (modified.contains(c) || modified.contains(d))
}

/// Some cell is erased in the pass that follows the changes at `modified`.
pub open spec fn erases_any(g: Grid, modified: Set<Cell>) -> bool {
    exists|c: Cell| #[trigger] erased_by(g, modified, c)
}

/// All cells erased in the pass that follows the changes at `modified`.
pub open spec fn erase_set(g: Grid, modified: Set<Cell>) -> Set<Cell> {
    Set::new(|c: Cell| erased_by(g, modified, c))
}

/// The grid with the cells of `e` emptied.
pub open spec fn erase(g: Grid, e: Set<Cell>) -> Grid {
    Seq::new(
        FIELD_HEIGHT as nat,
        |y: int|
            Seq::new(
                FIELD_WIDTH as nat,
                |x: int|
                    if e.contains((y, x)) {
                        EMPTY_BLOCK
                    } else {
                        g[y][x]
                    },
            ),
    )
}

/// Column `x` of the grid, bottom row first.
pub open spec fn column(g: Grid, x: int) -> Seq<u8> {
    Seq::new(FIELD_HEIGHT as nat, |y: int| g[y][x])
}

/// The blocks among the lowest `n` cells of a column, in order, gaps closed.
pub open spec fn stack_of(col: Seq<u8>, n: int) -> Seq<u8>
    decreases n,
{
    if n <= 0 {
        Seq::empty()
    } else if col[n - 1] != EMPTY_BLOCK {
        stack_of(col, n - 1).push(col[n - 1])
    } else {
        stack_of(col, n - 1)
    }
}

/// The cell at row `y` of a column once its blocks have fallen.
pub open spec fn fallen_cell(col: Seq<u8>, y: int) -> u8 {
    let stack = stack_of(col, FIELD_HEIGHT as int);
    if 0 <= y < stack.len() {
        stack[y]
    } else {
        EMPTY_BLOCK
    }
}

/// The grid after every column's blocks have fallen as far as they can.
pub open spec fn settle(g: Grid) -> Grid {
    Seq::new(
        FIELD_HEIGHT as nat,
        |y: int| Seq::new(FIELD_WIDTH as nat, |x: int| fallen_cell(column(g, x), y)),
    )
}

/// The numbered blocks that came to rest in a new place after the cells of
/// `e` were erased: those now lying at or above an erased cell of their
/// column.
pub open spec fn moved(e: Set<Cell>, after: Grid) -> Set<Cell> {
    Set::new(
        |c: Cell|
            on_board(c) && is_numbered(after[c.0][c.1]) && exists|y: int|
                0 <= y <= c.0 && #[trigger] e.contains((y, c.1)),
    )
}

/// The number of blocks among the lowest `n` cells of column `x`.
pub open spec fn occupied_below(g: Grid, x: int, n: int) -> int
    decreases n,
{
    if n <= 0 {
        0
    } else {
        occupied_below(g, x, n - 1) + if g[n - 1][x] != EMPTY_BLOCK {
            1int
        } else {
            0int
        }
    }
}

/// The number of blocks in the first `n` columns.
pub open spec fn occupied_upto(g: Grid, n: int) -> int
    decreases n,
{
    if n <= 0 {
        0
    } else {
        occupied_upto(g, n - 1) + occupied_below(g, n - 1, FIELD_HEIGHT as int)
    }
}

/// The number of blocks on the grid.
pub open spec fn occupied(g: Grid) -> int {
    occupied_upto(g, FIELD_WIDTH as int)
}

/// The grid and the chain length once the cascade that the changes at
/// `modified` set off has run its course. Each pass erases every pair that
/// sums to ten and involves a modified block, lets the stacks fall, and
/// hands the numbered blocks that moved to the next pass.
///
/// A pass that erases something leaves fewer blocks behind; the comparison
/// of the two block counts is what makes the recursion end.
pub open spec fn cascade(g: Grid, modified: Set<Cell>) -> (Grid, nat)
    decreases occupied(g),
{
    let e = erase_set(g, modified);
    let after = settle(erase(g, e));
    if erases_any(g, modified) && 0 <= occupied(after) < occupied(g) {
        let rest = cascade(after, moved(e, after));
        (rest.0, rest.1 + 1)
    } else {
        (g, 0)
    }
}

/// The grid after the blocks of `blocks` (those that are not empty, in
/// order) have landed on column `x`, which held `h` blocks.
pub open spec fn landed(g: Grid, x: int, h: int, blocks: Seq<u8>) -> Grid {
    let stack = stack_of(blocks, blocks.len() as int);
    Seq::new(
        FIELD_HEIGHT as nat,
        |y: int|
            Seq::new(
                FIELD_WIDTH as nat,
                |i: int|
                    if i == x && h <= y < h + stack.len() {
                        stack[y - h]
                    } else {
                        g[y][i]
                    },
            ),
    )
}

/// The number of blocks a piece puts on its left (`side == 0`) or right
/// (`side == 1`) column.
pub open spec fn pack_load(pack: Seq<u8>, side: int) -> int {
    stack_of(seq![pack[2 + side], pack[side]], 2).len() as int
}

/// The grid after a piece has been dropped with its left column on column
/// `point`: in each of its two columns the bottom cell lands first and the
/// top cell on it.
pub open spec fn dropped(g: Grid, heights: Seq<usize>, point: int, pack: Seq<u8>) -> Grid {
    landed(
        landed(g, point + 1, heights[point + 1] as int, seq![pack[3], pack[1]]),
        point,
        heights[point] as int,
        seq![pack[2], pack[0]],
    )
}

/// The cells a dropped piece comes to occupy.
pub open spec fn placed(heights: Seq<usize>, point: int, pack: Seq<u8>) -> Set<Cell> {
    Set::new(
        |c: Cell|
            (c.1 == point && heights[point] <= c.0 < heights[point] + pack_load(pack, 0)) || (c.1
                == point + 1 && heights[point + 1] <= c.0 < heights[point + 1] + pack_load(pack, 1)),
    )
}

/// A piece fits on columns `point` and `point + 1` of a board with the given
/// heights.
pub open spec fn drop_fits(heights: Seq<usize>, point: int, pack: Seq<u8>) -> bool {
    &&& 0 <= point <= FIELD_WIDTH - 2
    &&& heights[point] + pack_load(pack, 0) <= FIELD_HEIGHT
    &&& heights[point + 1] + pack_load(pack, 1) <= FIELD_HEIGHT
}

/// The grid and the chain length after a piece has been dropped and the
/// cascade it sets off has run its course.
pub open spec fn simulated(g: Grid, heights: Seq<usize>, point: int, pack: Seq<u8>) -> (Grid, nat) {
    cascade(dropped(g, heights, point, pack), placed(heights, point, pack))
}

/// A pass erases numbered blocks only: an obstacle is never erased, and
/// stands in the erased grid where it stood.
pub proof fn lemma_obstacles_are_not_erased(g: Grid, modified: Set<Cell>, c: Cell)
    requires
        on_board(c),
        g[c.0][c.1] == OBSTACLE_BLOCK,
    ensures
        !erased_by(g, modified, c),
        !erase_set(g, modified).contains(c),
        erase(g, erase_set(g, modified))[c.0][c.1] == OBSTACLE_BLOCK,
{
}

/// The outcome of a drop is a function of the cells, the column and the
/// piece: settled boards that hold the same cells end with the same chain
/// and the same cells, whatever else differs between them.
pub proof fn lemma_simulated_deterministic(
    a: Grid,
    a_heights: Seq<usize>,
    b: Grid,
    b_heights: Seq<usize>,
    point: int,
    pack: Seq<u8>,
    other: Seq<u8>,
)
    requires
        settled(a, a_heights),
        settled(b, b_heights),
        forall|y: int, x: int|
            0 <= y < FIELD_HEIGHT && 0 <= x < FIELD_WIDTH ==> #[trigger] a[y][x] == b[y][x],
        pack.len() == other.len(),
        forall|i: int| 0 <= i < pack.len() ==> pack[i] == other[i],
    ensures
        simulated(a, a_heights, point, pack) == simulated(b, b_heights, point, other),
{
    assert(a =~~= b);
    lemma_settled_heights_unique(a, a_heights, b_heights);
    assert(pack =~= other);
}

/// The cells a list of positions names.
pub open spec fn cells_of(v: Seq<(usize, usize)>) -> Set<Cell> {
    Set::new(|c: Cell| listed(v, c.0, c.1))
}

/// The list names cell `(y, x)`.
pub open spec fn listed(v: Seq<(usize, usize)>, y: int, x: int) -> bool {
    exists|i: int| 0 <= i < v.len() && (#[trigger] v[i]).0 == y && v[i].1 == x
}

/// The list holds one cell, or nothing when `present` is false.
pub open spec fn one_cell(present: bool, y: int, x: int) -> Seq<(usize, usize)> {
    if present {
        seq![(y as usize, x as usize)]
    } else {
        Seq::empty()
    }
}

/// The cells a dropped piece comes to occupy, in the order in which its
/// blocks land: bottom right, bottom left, top right, top left.
pub open spec fn drop_order(heights: Seq<usize>, point: int, pack: Seq<u8>) -> Seq<(usize, usize)> {
    let left = heights[point] as int;
    let right = heights[point + 1] as int;
    let left_top = if pack[2] != EMPTY_BLOCK {
        left + 1
    } else {
        left
    };
    let right_top = if pack[3] != EMPTY_BLOCK {
        right + 1
    } else {
        right
    };
    one_cell(pack[3] != EMPTY_BLOCK, right, point + 1) + one_cell(
        pack[2] != EMPTY_BLOCK,
        left,
        point,
    ) + one_cell(pack[1] != EMPTY_BLOCK, right_top, point + 1) + one_cell(
        pack[0] != EMPTY_BLOCK,
        left_top,
        point,
    )
}

/// The stack two cells make.
pub proof fn lemma_stack_two(a: u8, b: u8)
    ensures
        stack_of(seq![a, b], 2) == if a != EMPTY_BLOCK && b != EMPTY_BLOCK {
            seq![a, b]
        } else if a != EMPTY_BLOCK {
            seq![a]
        } else if b != EMPTY_BLOCK {
            seq![b]
        } else {
            Seq::<u8>::empty()
        },
{
    reveal_with_fuel(stack_of, 3);
    let s = seq![a, b];
    assert(s[0] == a && s[1] == b);
    assert(stack_of(s, 0) =~= Seq::<u8>::empty());
    if a != EMPTY_BLOCK {
        assert(stack_of(s, 1) =~= seq![a]);
        if b != EMPTY_BLOCK {
            assert(stack_of(s, 2) =~= seq![a, b]);
        }
    } else {
        assert(stack_of(s, 1) =~= Seq::<u8>::empty());
        if b != EMPTY_BLOCK {
            assert(stack_of(s, 2) =~= seq![b]);
        }
    }
}

/// Cell by cell, what two blocks landing on a column leave behind.
pub proof fn lemma_landed_two(g: Grid, x: int, h: int, a: u8, b: u8, y: int, i: int)
    requires
        0 <= y < FIELD_HEIGHT,
        0 <= i < FIELD_WIDTH,
    ensures
        landed(g, x, h, seq![a, b])[y][i] == if i == x && y == h && a != EMPTY_BLOCK {
            a
        } else if i == x && y == h && b != EMPTY_BLOCK {
            b
        } else if i == x && y == h + 1 && a != EMPTY_BLOCK && b != EMPTY_BLOCK {
            b
        } else {
            g[y][i]
        },
        stack_of(seq![a, b], 2).len() == if a != EMPTY_BLOCK {
            1int
        } else {
            0int
        } + if b != EMPTY_BLOCK {
            1int
        } else {
            0int
        },
{
    lemma_stack_two(a, b);
    assert(seq![a, b].len() == 2);
}

/// A column that is a gap-free stack of `h` blocks holds `h` blocks.
pub proof fn lemma_occupied_settled(g: Grid, x: int, h: int, n: int)
    requires
        column_settled(g, x, h),
        0 <= n <= FIELD_HEIGHT,
    ensures
        occupied_below(g, x, n) == if n <= h {
            n
        } else {
            h
        },
    decreases n,
{
    if n > 0 {
        lemma_occupied_settled(g, x, h, n - 1);
        assert(g[n - 1][x] != EMPTY_BLOCK <==> n - 1 < h);
    }
}

/// The sum of the first `n` heights.
pub open spec fn height_sum(heights: Seq<usize>, n: int) -> int
    decreases n,
{
    if n <= 0 {
        0
    } else {
        height_sum(heights, n - 1) + heights[n - 1]
    }
}

/// On a settled board the heights count the blocks.
pub proof fn lemma_occupied_is_height_sum(g: Grid, heights: Seq<usize>, n: int)
    requires
        settled(g, heights),
        0 <= n <= FIELD_WIDTH,
    ensures
        occupied_upto(g, n) == height_sum(heights, n),
        0 <= height_sum(heights, n) <= n * FIELD_HEIGHT,
    decreases n,
{
    if n > 0 {
        lemma_occupied_is_height_sum(g, heights, n - 1);
        lemma_occupied_settled(g, n - 1, heights[n - 1] as int, FIELD_HEIGHT as int);
    }
}

/// Heights that nowhere grow and somewhere shrink have a smaller sum.
pub proof fn lemma_height_sum_decreases(a: Seq<usize>, b: Seq<usize>, n: int)
    requires
        0 <= n <= a.len(),
        a.len() == b.len(),
        forall|x: int| 0 <= x < n ==> #[trigger] b[x] <= a[x],
    ensures
        height_sum(b, n) <= height_sum(a, n),
        (exists|x: int| 0 <= x < n && #[trigger] b[x] < a[x]) ==> height_sum(b, n) < height_sum(a, n),
    decreases n,
{
    if n > 0 {
        lemma_height_sum_decreases(a, b, n - 1);
        if exists|x: int| 0 <= x < n && #[trigger] b[x] < a[x] {
            let x = choose|x: int| 0 <= x < n && #[trigger] b[x] < a[x];
            if x < n - 1 {
                assert(b[x] < a[x]);
            }
        }
    }
}

/// Where every one of the lowest `n` cells holds a block, the stack is
/// those cells.
pub proof fn lemma_stack_of_full(col: Seq<u8>, n: int)
    requires
        0 <= n <= col.len(),
        forall|j: int| 0 <= j < n ==> #[trigger] col[j] != EMPTY_BLOCK,
    ensures
        stack_of(col, n) == col.subrange(0, n),
    decreases n,
{
    if n > 0 {
        lemma_stack_of_full(col, n - 1);
        assert(col.subrange(0, n - 1).push(col[n - 1]) =~= col.subrange(0, n));
    } else {
        assert(col.subrange(0, 0) =~= Seq::<u8>::empty());
    }
}

/// Empty cells add nothing to the stack.
pub proof fn lemma_stack_of_gap(col: Seq<u8>, m: int, n: int)
    requires
        0 <= m <= n,
        forall|j: int| m <= j < n ==> #[trigger] col[j] == EMPTY_BLOCK,
    ensures
        stack_of(col, n) == stack_of(col, m),
    decreases n,
{
    if n > m {
        lemma_stack_of_gap(col, m, n - 1);
    }
}

/// The stack of the lowest `n` cells depends on those cells alone, is no
/// longer than `n`, and holds no empty cell.
pub proof fn lemma_stack_of_prefix(a: Seq<u8>, b: Seq<u8>, n: int)
    requires
        0 <= n,
        forall|j: int| 0 <= j < n ==> #[trigger] a[j] == b[j],
    ensures
        stack_of(a, n) == stack_of(b, n),
        stack_of(a, n).len() <= n,
        forall|j: int| 0 <= j < stack_of(a, n).len() ==> #[trigger] stack_of(a, n)[j] != EMPTY_BLOCK,
    decreases n,
{
    if n > 0 {
        lemma_stack_of_prefix(a, b, n - 1);
    }
}

} // verus!
