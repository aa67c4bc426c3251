//! The physics of a drop: a piece lands on two columns, pairs that sum to
//! ten erase, the stacks fall, and the cascade repeats until nothing erases.
use vstd::prelude::*;
use crate::bit_board::{grid_hash, grid_valid, Grid};
use crate::board::{
    column_settled, settled, Board, EMPTY_BLOCK, ERASING_SUM, FIELD_HEIGHT, FIELD_WIDTH,
    OBSTACLE_BLOCK,
};
use crate::cascade::{
    lemma_stack_two,
    cascade, erases_any, lemma_occupied_is_height_sum, occupied, simulated,
    column, erase, fallen_cell, height_sum, lemma_height_sum_decreases, moved, settle, lemma_stack_of_full, lemma_stack_of_gap, lemma_stack_of_prefix,
    adjacent, cells_of, drop_fits, landed, lemma_landed_two, drop_order, dropped, erase_set, erased_by, erasing_pair,
    is_numbered, listed, on_board, one_cell, pack_load, placed, stack_of, Cell,
};
use crate::pack::Pack;

verus! {

/// The score of a chain, by its length.
pub const CHAIN_CUMULATIVE_SCORES: [u32; 50] = [
    0,
    1,
    2,
    4,
    6,
    9,
    13,
    19,
    27,
    37,
    50,
    67,
    90,
    120,
    159,
    210,
    276,
    362,
    474,
    620,
    810,
    1057,
    1378,
    1795,
    2337,
    3042,
    3959,
    5151,
    6701,
    8716,
    11335,
    14740,
    19167,
    24923,
    32405,
    42132,
    54778,
    71218,
    92590,
    120373,
    156491,
    203445,
    264485,
    343838,
    446997,
    581103,
    755441,
    982081,
    1276713,
    1659735,
];

/// The eight directions to a neighbouring cell, as `(dy, dx)`, clockwise
/// from the right.
pub const DIRECTION_YXS: [(i8, i8); 8] = [
    (0, 1),
    (-1, 1),
    (-1, 0),
    (-1, -1),
    (0, -1),
    (1, -1),
    (1, 0),
    (1, 1),
];

/// Number of chain lengths the score table covers.
pub const MAX_CHAIN_COUNT: usize = 50;

pub fn is_on_board(y: i8, x: i8) -> (r: bool)
    ensures
        r == (0 <= y < FIELD_HEIGHT && 0 <= x < FIELD_WIDTH),
{
    if y < 0 || y >= 19 {
        return false;
    }
    if x < 0 || x >= 10 {
        return false;
    }
    true
}

/// The attack blocks a chain of the given length sends.
pub fn calculate_obstacle_count_from_chain_count(chain_count: u8) -> (r: u32)
    requires
        chain_count < MAX_CHAIN_COUNT,
    ensures
        r == CHAIN_CUMULATIVE_SCORES[chain_count as int] / 2,
{
    calculate_obstacle_count(calculate_game_score(chain_count), 0)
}

/// The score of a chain of the given length.
pub fn calculate_game_score(chain_count: u8) -> (r: u32)
    requires
        chain_count < MAX_CHAIN_COUNT,
    ensures
        r == CHAIN_CUMULATIVE_SCORES[chain_count as int],
{
    CHAIN_CUMULATIVE_SCORES[chain_count as usize]
}

/// The attack blocks a chain score and a skill score send together: half of
/// each, rounded down.
pub fn calculate_obstacle_count(chain_score: u32, skill_chain_score: u32) -> (r: u32)
    ensures
        r == chain_score / 2 + skill_chain_score / 2,
{
    chain_score / 2 + skill_chain_score / 2
}

/// The full rows of obstacles that the given number of attack blocks makes.
pub fn calculate_spawn_obstacle_line_from_obstacle_count(obstacle_count: u32) -> (r: u32)
    ensures
        r == obstacle_count / 10,
{
    obstacle_count / 10
}

/// A longer chain scores strictly more.
pub proof fn lemma_score_step(k: int)
    requires
        0 <= k < MAX_CHAIN_COUNT - 1,
    ensures
        CHAIN_CUMULATIVE_SCORES[k] < CHAIN_CUMULATIVE_SCORES[k + 1],
{
}

/// The score table is strictly increasing in the chain length, so the attack
/// a chain sends never shrinks as the chain grows.
pub proof fn lemma_scores_increasing(i: int, j: int)
    requires
        0 <= i < j < MAX_CHAIN_COUNT,
    ensures
        CHAIN_CUMULATIVE_SCORES[i] < CHAIN_CUMULATIVE_SCORES[j],
        CHAIN_CUMULATIVE_SCORES[i] / 2 <= CHAIN_CUMULATIVE_SCORES[j] / 2,
    decreases j - i,
{
    lemma_score_step(j - 1);
    if i < j - 1 {
        lemma_scores_increasing(i, j - 1);
    }
}

/// The cell one step from `c` in direction `k`.
pub open spec fn neighbor(c: Cell, k: int) -> Cell {
    (c.0 + DIRECTION_YXS[k].0, c.1 + DIRECTION_YXS[k].1)
}

/// Every adjacent cell lies one step away in one of the eight directions.
pub proof fn lemma_adjacent_direction(a: Cell, b: Cell)
    requires
        adjacent(a, b),
    ensures
        exists|k: int| 0 <= k < 8 && #[trigger] neighbor(a, k) == b,
{
    let dy = b.0 - a.0;
    let dx = b.1 - a.1;
    let k: int = if dy == 0 && dx == 1 {
        0
    } else if dy == -1 && dx == 1 {
        1
    } else if dy == -1 && dx == 0 {
        2
    } else if dy == -1 && dx == -1 {
        3
    } else if dy == 0 && dx == -1 {
        4
    } else if dy == 1 && dx == -1 {
        5
    } else if dy == 1 && dx == 0 {
        6
    } else {
        7
    };
    assert(neighbor(a, k) == b);
}

/// The position a list entry names.
pub open spec fn cell_at(v: Seq<(usize, usize)>, i: int) -> Cell {
    (v[i].0 as int, v[i].1 as int)
}

/// The place of a cell in reading order: row by row from the bottom, left to
/// right.
pub open spec fn reading_index(c: (usize, usize)) -> int {
    c.0 * FIELD_WIDTH + c.1
}

/// The list names cells of the board in strictly increasing reading order.
pub open spec fn in_reading_order(v: Seq<(usize, usize)>) -> bool {
    &&& forall|i: int| 0 <= i < v.len() ==> on_board(#[trigger] cell_at(v, i))
    &&& forall|i: int, j: int|
        0 <= i < j < v.len() ==> reading_index(#[trigger] v[i]) < reading_index(#[trigger] v[j])
}

/// The block at `m` and its neighbour in direction `k` erase each other, and
/// `c` is one of the two.
spec fn hit(g: Grid, m: Cell, k: int, c: Cell) -> bool {
    erasing_pair(g, m, neighbor(m, k)) && (c == m || c == neighbor(m, k))
}

/// Cell `c` was marked while the entries before `i_end`, and of entry
/// `i_end` the directions before `k_end`, were examined.
spec fn marked_by(g: Grid, v: Seq<(usize, usize)>, i_end: int, k_end: int, y: int, x: int) -> bool {
    exists|i: int, k: int|
        0 <= i <= i_end && i < v.len() && 0 <= k < 8 && (i < i_end || k < k_end) && #[trigger] hit(
            g,
            cell_at(v, i),
            k,
            (y, x),
        )
}


proof fn lemma_marked_step(g: Grid, v: Seq<(usize, usize)>, i: int, k: int, y: int, x: int)
    requires
        0 <= i < v.len(),
        0 <= k < 8,
    ensures
        marked_by(g, v, i, k + 1, y, x) == (marked_by(g, v, i, k, y, x) || hit(
            g,
            cell_at(v, i),
            k,
            (y, x),
        )),
{
    let c = (y, x);
    if marked_by(g, v, i, k + 1, y, x) {
        let (i0, k0) = choose|i0: int, k0: int|
            0 <= i0 <= i && i0 < v.len() && 0 <= k0 < 8 && (i0 < i || k0 < k + 1) && #[trigger] hit(
                g,
                cell_at(v, i0),
                k0,
                c,
            );
        if !(i0 == i && k0 == k) {
            assert(hit(g, cell_at(v, i0), k0, c));
        }
    }
    if marked_by(g, v, i, k, y, x) {
        let (i0, k0) = choose|i0: int, k0: int|
            0 <= i0 <= i && i0 < v.len() && 0 <= k0 < 8 && (i0 < i || k0 < k) && #[trigger] hit(
                g,
                cell_at(v, i0),
                k0,
                c,
            );
        assert(hit(g, cell_at(v, i0), k0, c));
    }
    if hit(g, cell_at(v, i), k, c) {
        assert(marked_by(g, v, i, k + 1, y, x));
    }
}

proof fn lemma_marked_next(g: Grid, v: Seq<(usize, usize)>, i: int, y: int, x: int)
    requires
        0 <= i < v.len(),
    ensures
        marked_by(g, v, i + 1, 0, y, x) == marked_by(g, v, i, 8, y, x),
{
    let c = (y, x);
    if marked_by(g, v, i + 1, 0, y, x) {
        let (i0, k0) = choose|i0: int, k0: int|
            0 <= i0 <= i + 1 && i0 < v.len() && 0 <= k0 < 8 && (i0 < i + 1 || k0 < 0)
                && #[trigger] hit(g, cell_at(v, i0), k0, c);
        assert(hit(g, cell_at(v, i0), k0, c));
    }
    if marked_by(g, v, i, 8, y, x) {
        let (i0, k0) = choose|i0: int, k0: int|
            0 <= i0 <= i && i0 < v.len() && 0 <= k0 < 8 && (i0 < i || k0 < 8) && #[trigger] hit(
                g,
                cell_at(v, i0),
                k0,
                c,
            );
        assert(hit(g, cell_at(v, i0), k0, c));
    }
}

/// Once every entry has been examined in every direction, the marked cells
/// are the cells the pass erases.
proof fn lemma_marked_all(g: Grid, v: Seq<(usize, usize)>, y: int, x: int)
    ensures
        marked_by(g, v, v.len() as int, 0, y, x) == erased_by(g, cells_of(v), (y, x)),
{
    let m = cells_of(v);
    let c = (y, x);
    if marked_by(g, v, v.len() as int, 0, y, x) {
        let (i, k) = choose|i: int, k: int|
            0 <= i <= v.len() && i < v.len() && 0 <= k < 8 && (i < v.len() || k < 0)
                && #[trigger] hit(g, cell_at(v, i), k, c);
        let a = cell_at(v, i);
        let b = neighbor(a, k);
        assert(listed(v, a.0, a.1));
        assert(m.contains(a));
        if c == a {
            assert(erasing_pair(g, c, b));
        } else {
            assert(erasing_pair(g, c, a));
        }
    }
    if erased_by(g, m, c) {
        let d = choose|d: Cell| #[trigger] erasing_pair(g, c, d) && (m.contains(c) || m.contains(d));
        if m.contains(c) {
            assert(listed(v, c.0, c.1));
            let i = choose|i: int| 0 <= i < v.len() && (#[trigger] v[i]).0 == c.0 && v[i].1 == c.1;
            lemma_adjacent_direction(c, d);
            let k = choose|k: int| 0 <= k < 8 && #[trigger] neighbor(c, k) == d;
            assert(cell_at(v, i) == c);
            assert(hit(g, cell_at(v, i), k, c));
        } else {
            assert(listed(v, d.0, d.1));
            let i = choose|i: int| 0 <= i < v.len() && (#[trigger] v[i]).0 == d.0 && v[i].1 == d.1;
            lemma_adjacent_direction(d, c);
            let k = choose|k: int| 0 <= k < 8 && #[trigger] neighbor(d, k) == c;
            assert(cell_at(v, i) == d);
            assert(erasing_pair(g, d, c));
            assert(hit(g, cell_at(v, i), k, c));
        }
    }
}

/// Lists the marked cells in reading order.
fn collect_marked(marks: &[[bool; FIELD_WIDTH]; FIELD_HEIGHT], out: &mut Vec<(usize, usize)>)
    requires
        old(out)@.len() == 0,
    ensures
        in_reading_order(final(out)@),
        forall|y: int, x: int| #[trigger]
            listed(final(out)@, y, x) ==> 0 <= y < FIELD_HEIGHT && 0 <= x < FIELD_WIDTH
                && marks[y][x],
        forall|y: int, x: int|
            0 <= y < FIELD_HEIGHT && 0 <= x < FIELD_WIDTH && #[trigger] marks[y][x] ==> listed(
                final(out)@,
                y,
                x,
            ),
{
    for y in 0..FIELD_HEIGHT
        invariant
            forall|i: int| 0 <= i < out@.len() ==> on_board(#[trigger] cell_at(out@, i)),
            forall|i: int|
                0 <= i < out@.len() ==> reading_index(#[trigger] out@[i]) < y * FIELD_WIDTH,
            forall|i: int, j: int|
                0 <= i < j < out@.len() ==> reading_index(#[trigger] out@[i]) < reading_index(
                    #[trigger] out@[j],
                ),
            forall|r: int, c: int| #[trigger]
                listed(out@, r, c) ==> 0 <= r < y && 0 <= c < FIELD_WIDTH && marks[r][c],
            forall|r: int, c: int|
                0 <= r < y && 0 <= c < FIELD_WIDTH && #[trigger] marks[r][c] ==> listed(out@, r, c),
    {
        for x in 0..FIELD_WIDTH
            invariant
                y < FIELD_HEIGHT,
                forall|i: int| 0 <= i < out@.len() ==> on_board(#[trigger] cell_at(out@, i)),
                forall|i: int|
                    0 <= i < out@.len() ==> reading_index(#[trigger] out@[i]) < y * FIELD_WIDTH + x,
                forall|i: int, j: int|
                    0 <= i < j < out@.len() ==> reading_index(#[trigger] out@[i]) < reading_index(
                        #[trigger] out@[j],
                    ),
                forall|r: int, c: int| #[trigger]
                    listed(out@, r, c) ==> 0 <= r <= y && 0 <= c < FIELD_WIDTH && marks[r][c] && (r
                        < y || c < x),
                forall|r: int, c: int|
                    0 <= r <= y && 0 <= c < FIELD_WIDTH && (r < y || c < x)
                        && #[trigger] marks[r][c] ==> listed(out@, r, c),
        {
            if marks[y][x] {
                let ghost before = out@;
                out.push((y, x));
                proof {
                    assert(out@[before.len() as int] == (y, x));
                    assert forall|i: int| 0 <= i < out@.len() implies on_board(
                        #[trigger] cell_at(out@, i),
                    ) by {
                        if i < before.len() {
                            assert(out@[i] == before[i]);
                            assert(on_board(cell_at(before, i)));
                        }
                    }
                    assert forall|r: int, c: int| #[trigger] listed(out@, r, c) implies 0 <= r <= y
                        && 0 <= c < FIELD_WIDTH && marks[r][c] && (r < y || c < x + 1) by {
                        let i = choose|i: int|
                            0 <= i < out@.len() && (#[trigger] out@[i]).0 == r && out@[i].1 == c;
                        if i < before.len() {
                            assert(before[i] == out@[i]);
                            assert(listed(before, r, c));
                        }
                    }
                    assert forall|r: int, c: int|
                        0 <= r <= y && 0 <= c < FIELD_WIDTH && (r < y || c < x + 1)
                            && #[trigger] marks[r][c] implies listed(out@, r, c) by {
                        if !(r == y && c == x) {
                            assert(listed(before, r, c));
                            let i = choose|i: int|
                                0 <= i < before.len() && (#[trigger] before[i]).0 == r
                                    && before[i].1 == c;
                            assert(out@[i] == before[i]);
                        }
                    }
                }
            }
        }
    }
}

/// Four blocks landing one after the other leave the grid a dropped piece
/// leaves, settled if it was settled before.
proof fn lemma_drop_steps(
    g0: Grid,
    h0: Seq<usize>,
    point: int,
    pack: Seq<u8>,
    g1: Grid,
    h1: Seq<usize>,
    g2: Grid,
    h2: Seq<usize>,
    g3: Grid,
    h3: Seq<usize>,
    g4: Grid,
    h4: Seq<usize>,
)
    requires
        settled(g0, h0),
        pack.len() == 4,
        drop_fits(h0, point, pack),
        stepped(g0, h0, point + 1, pack[3], g1, h1),
        stepped(g1, h1, point, pack[2], g2, h2),
        stepped(g2, h2, point + 1, pack[1], g3, h3),
        stepped(g3, h3, point, pack[0], g4, h4),
    ensures
        g4 == dropped(g0, h0, point, pack),
        settled(g4, h4),
        forall|x: int|
            0 <= x < FIELD_WIDTH ==> #[trigger] h4[x] == h0[x] + if x == point {
                pack_load(pack, 0)
            } else if x == point + 1 {
                pack_load(pack, 1)
            } else {
                0
            },
{
    let left = h0[point] as int;
    let right = h0[point + 1] as int;
    let mid = landed(g0, point + 1, right, seq![pack[3], pack[1]]);
    let target = dropped(g0, h0, point, pack);
    lemma_landed_two(g0, point + 1, right, pack[3], pack[1], 0, 0);
    lemma_landed_two(g0, point, left, pack[2], pack[0], 0, 0);
    assert(h1[point] == left && h1[point + 1] == h0[point + 1] + if pack[3] != EMPTY_BLOCK {
        1int
    } else {
        0int
    });
    assert(h2[point + 1] == h1[point + 1] && h2[point] == left + if pack[2] != EMPTY_BLOCK {
        1int
    } else {
        0int
    });
    assert(h3[point] == h2[point] && h3[point + 1] == h2[point + 1] + if pack[1] != EMPTY_BLOCK {
        1int
    } else {
        0int
    });
    assert forall|x: int| 0 <= x < FIELD_WIDTH implies #[trigger] h4[x] == h0[x] + if x == point {
        pack_load(pack, 0)
    } else if x == point + 1 {
        pack_load(pack, 1)
    } else {
        0
    } by {
        assert(h4[x] == h3[x] + if pack[0] != EMPTY_BLOCK && x == point {
            1int
        } else {
            0int
        });
        assert(h3[x] == h2[x] + if pack[1] != EMPTY_BLOCK && x == point + 1 {
            1int
        } else {
            0int
        });
        assert(h2[x] == h1[x] + if pack[2] != EMPTY_BLOCK && x == point {
            1int
        } else {
            0int
        });
        assert(h1[x] == h0[x] + if pack[3] != EMPTY_BLOCK && x == point + 1 {
            1int
        } else {
            0int
        });
    }
    assert forall|y: int, x: int| 0 <= y < FIELD_HEIGHT && 0 <= x < FIELD_WIDTH implies g4[y][x]
        == target[y][x] by {
        lemma_landed_two(g0, point + 1, right, pack[3], pack[1], y, x);
        lemma_landed_two(mid, point, left, pack[2], pack[0], y, x);
        let v1 = g1[y][x];
        let v2 = g2[y][x];
        let v3 = g3[y][x];
        let v4 = g4[y][x];
    }
    assert(g4 =~~= target);
    assert forall|x: int| 0 <= x < FIELD_WIDTH implies column_settled(g4, x, #[trigger] h4[x] as int) by {
        assert(column_settled(g0, x, h0[x] as int));
        assert forall|y: int| 0 <= y < FIELD_HEIGHT implies ((#[trigger] g4[y])[x] != EMPTY_BLOCK <==> y
            < h4[x]) by {
            lemma_landed_two(g0, point + 1, right, pack[3], pack[1], y, x);
            lemma_landed_two(mid, point, left, pack[2], pack[0], y, x);
            assert(g4[y][x] == target[y][x]);
        }
    }
}

/// The grid and heights after one block has been put on column `x`.
spec fn stepped(g: Grid, h: Seq<usize>, col: int, block: u8, g2: Grid, h2: Seq<usize>) -> bool {
    &&& grid_valid(g2)
    &&& h2.len() == FIELD_WIDTH
    &&& forall|x: int|
        0 <= x < FIELD_WIDTH ==> #[trigger] h2[x] == h[x] + if block != EMPTY_BLOCK && x == col {
            1int
        } else {
            0int
        }
    &&& forall|y: int, x: int|
        0 <= y < FIELD_HEIGHT && 0 <= x < FIELD_WIDTH ==> #[trigger] g2[y][x] == if block
            != EMPTY_BLOCK && x == col && y == h[col] {
            block
        } else {
            g[y][x]
        }
}

/// The modified list grows in landing order.
proof fn lemma_drop_order_steps(
    h0: Seq<usize>,
    point: int,
    pack: Seq<u8>,
    m0: Seq<(usize, usize)>,
    m1: Seq<(usize, usize)>,
    m2: Seq<(usize, usize)>,
    m3: Seq<(usize, usize)>,
    m4: Seq<(usize, usize)>,
)
    requires
        m1 == m0 + one_cell(pack[3] != EMPTY_BLOCK, h0[point + 1] as int, point + 1),
        m2 == m1 + one_cell(pack[2] != EMPTY_BLOCK, h0[point] as int, point),
        m3 == m2 + one_cell(
            pack[1] != EMPTY_BLOCK,
            h0[point + 1] + if pack[3] != EMPTY_BLOCK {
                1int
            } else {
                0int
            },
            point + 1,
        ),
        m4 == m3 + one_cell(
            pack[0] != EMPTY_BLOCK,
            h0[point] + if pack[2] != EMPTY_BLOCK {
                1int
            } else {
                0int
            },
            point,
        ),
    ensures
        m4 == m0 + drop_order(h0, point, pack),
{
    assert(m4 =~= m0 + drop_order(h0, point, pack));
}

/// One of the first `n` entries of the list names cell `(y, x)`.
spec fn listed_upto(v: Seq<(usize, usize)>, n: int, y: int, x: int) -> bool {
    exists|i: int| 0 <= i < n && i < v.len() && (#[trigger] v[i]).0 == y && v[i].1 == x
}

/// Every listed cell holds a block of a stack.
pub open spec fn all_occupied(v: Seq<(usize, usize)>, heights: Seq<usize>) -> bool {
    forall|i: int|
        0 <= i < v.len() ==> (#[trigger] v[i]).1 < FIELD_WIDTH && v[i].0 < heights[v[i].1 as int]
}

/// The grid `g` and heights `lo` after the first `n` listed cells of a
/// settled board were emptied: each column's height has come down to its
/// lowest emptied row.
spec fn erased_state(
    g0: Grid,
    h0: Seq<usize>,
    e: Seq<(usize, usize)>,
    n: int,
    g: Grid,
    lo: Seq<usize>,
) -> bool {
    &&& grid_valid(g)
    &&& lo.len() == FIELD_WIDTH
    &&& forall|r: int, c: int|
        0 <= r < FIELD_HEIGHT && 0 <= c < FIELD_WIDTH ==> #[trigger] g[r][c] == if listed_upto(
            e,
            n,
            r,
            c,
        ) {
            EMPTY_BLOCK
        } else {
            g0[r][c]
        }
    &&& forall|c: int| 0 <= c < FIELD_WIDTH ==> #[trigger] lo[c] <= h0[c]
    &&& forall|r: int, c: int|
        0 <= c < FIELD_WIDTH && 0 <= r < lo[c] ==> !#[trigger] listed_upto(e, n, r, c)
    &&& forall|c: int|
        0 <= c < FIELD_WIDTH && #[trigger] lo[c] < h0[c] ==> listed_upto(e, n, lo[c] as int, c)
}

/// Empties the listed cells and lowers each column's height to its lowest
/// emptied row.
fn erase_listed(board: &mut Board, cells: &Vec<(usize, usize)>)
    requires
        old(board).wf(),
        all_occupied(cells@, old(board).heights@),
    ensures
        final(board).hash() == grid_hash(final(board)@),
        erased_state(
            old(board)@,
            old(board).heights@,
            cells@,
            cells@.len() as int,
            final(board)@,
            final(board).heights@,
        ),
{
    let ghost g0 = board@;
    let ghost h0 = board.heights@;
    let ghost e = cells@;
    board.recall();
    for i in 0..cells.len()
        invariant
            e == cells@,
            settled(g0, h0),
            all_occupied(e, h0),
            board.hash() == grid_hash(board@),
            erased_state(g0, h0, e, i as int, board@, board.heights@),
    {
        let (y, x) = cells[i];
        let ghost g1 = board@;
        let ghost h1 = board.heights@;
        assert(e[i as int].1 < FIELD_WIDTH && e[i as int].0 < h0[e[i as int].1 as int]);
        assert(column_settled(g0, x as int, h0[x as int] as int));
        board.set(y, x, EMPTY_BLOCK);
        if y < board.heights[x] {
            board.heights[x] = y;
        }
        proof {
            let g2 = board@;
            let h2 = board.heights@;
            assert forall|r: int, c: int|
                listed_upto(e, i + 1, r, c) == (listed_upto(e, i as int, r, c) || (r == y && c
                    == x)) by {
                if listed_upto(e, i + 1, r, c) {
                    let j = choose|j: int|
                        0 <= j < i + 1 && j < e.len() && (#[trigger] e[j]).0 == r && e[j].1 == c;
                    if j < i {
                        assert(listed_upto(e, i as int, r, c));
                    }
                }
                if listed_upto(e, i as int, r, c) {
                    let j = choose|j: int|
                        0 <= j < i && j < e.len() && (#[trigger] e[j]).0 == r && e[j].1 == c;
                    assert(e[j].0 == r);
                }
                if r == y && c == x {
                    assert(e[i as int].0 == r);
                }
            }
            assert forall|r: int, c: int|
                0 <= r < FIELD_HEIGHT && 0 <= c < FIELD_WIDTH implies #[trigger] g2[r][c]
                == if listed_upto(e, i + 1, r, c) {
                EMPTY_BLOCK
            } else {
                g0[r][c]
            } by {
                assert(g1[r][c] == if listed_upto(e, i as int, r, c) {
                    EMPTY_BLOCK
                } else {
                    g0[r][c]
                });
            }
            assert forall|c: int| 0 <= c < FIELD_WIDTH implies #[trigger] h2[c] <= h0[c] by {
                assert(h1[c] <= h0[c]);
            }
            assert forall|r: int, c: int|
                0 <= c < FIELD_WIDTH && 0 <= r < h2[c] implies !#[trigger] listed_upto(
                e,
                i + 1,
                r,
                c,
            ) by {
                assert(h2[c] <= h1[c]);
                assert(!listed_upto(e, i as int, r, c));
            }
            assert forall|c: int| 0 <= c < FIELD_WIDTH && #[trigger] h2[c] < h0[c] implies listed_upto(
                e,
                i + 1,
                h2[c] as int,
                c,
            ) by {
                if c == x && y < h1[c] {
                } else {
                    assert(h2[c] == h1[c]);
                    assert(listed_upto(e, i as int, h1[c] as int, c));
                }
            }
        }
    }
}

/// Lets the blocks of column `x` that stand above its lowest emptied row
/// fall, and marks the numbered blocks that came to rest in a new place.
/// `old_height` is the height the column had before cells were emptied.
fn settle_column(
    board: &mut Board,
    x: usize,
    old_height: usize,
    marks: &mut [[bool; FIELD_WIDTH]; FIELD_HEIGHT],
)
    requires
        x < FIELD_WIDTH,
        old_height <= FIELD_HEIGHT,
        old(board).heights[x as int] <= old_height,
        forall|r: int|
            0 <= r < old(board).heights[x as int] ==> (#[trigger] old(board)@[r])[x as int]
                != EMPTY_BLOCK,
        old(board).heights[x as int] < old_height ==> old(board)@[old(board).heights[x as int] as int][x as int]
            == EMPTY_BLOCK,
        forall|r: int|
            old_height <= r < FIELD_HEIGHT ==> (#[trigger] old(board)@[r])[x as int] == EMPTY_BLOCK,
        forall|r: int| 0 <= r < FIELD_HEIGHT ==> !(#[trigger] old(marks)[r])[x as int],
    ensures
        final(board).hash() == grid_hash(final(board)@),
        grid_valid(final(board)@),
        forall|r: int, c: int|
            0 <= r < FIELD_HEIGHT && 0 <= c < FIELD_WIDTH && c != x ==> #[trigger] final(board)@[r][c]
                == old(board)@[r][c],
        forall|r: int|
            0 <= r < FIELD_HEIGHT ==> (#[trigger] final(board)@[r])[x as int] == fallen_cell(
                column(old(board)@, x as int),
                r,
            ),
        forall|c: int|
            0 <= c < FIELD_WIDTH && c != x ==> #[trigger] final(board).heights[c] == old(
                board,
            ).heights[c],
        final(board).heights[x as int] == stack_of(column(old(board)@, x as int), FIELD_HEIGHT as int).len(),
        old(board).heights[x as int] <= final(board).heights[x as int] <= old_height,
        old(board).heights[x as int] < old_height ==> final(board).heights[x as int] < old_height,
        column_settled(final(board)@, x as int, final(board).heights[x as int] as int),
        forall|r: int, c: int|
            0 <= r < FIELD_HEIGHT && 0 <= c < FIELD_WIDTH && c != x ==> #[trigger] final(marks)[r][c]
                == old(marks)[r][c],
        forall|r: int|
            0 <= r < FIELD_HEIGHT ==> (#[trigger] final(marks)[r])[x as int] == (old(
                board,
            ).heights[x as int] <= r < final(board).heights[x as int] && final(board)@[r][x as int]
                != OBSTACLE_BLOCK),
{
    let lo = board.heights[x];
    let ghost g0 = board@;
    let ghost col = column(g0, x as int);
    board.recall();
    proof {
        assert forall|j: int| 0 <= j < lo implies #[trigger] col[j] != EMPTY_BLOCK by {
            assert(g0[j][x as int] != EMPTY_BLOCK);
        }
        assert forall|j: int| old_height <= j < FIELD_HEIGHT implies #[trigger] col[j]
            == EMPTY_BLOCK by {
            assert(g0[j][x as int] == EMPTY_BLOCK);
        }
        lemma_stack_of_full(col, lo as int);
        lemma_stack_of_gap(col, old_height as int, FIELD_HEIGHT as int);
        lemma_stack_of_prefix(col, col, FIELD_HEIGHT as int);
    }
    if lo >= old_height {
        proof {
            assert(stack_of(col, FIELD_HEIGHT as int) == col.subrange(0, lo as int));
        }
        return ;
    }
    proof {
        assert(col[lo as int] == EMPTY_BLOCK);
        assert(stack_of(col, lo + 1) == stack_of(col, lo as int));
    }
    let mut y: usize = lo + 1;
    while y < old_height
        invariant
            x < FIELD_WIDTH,
            old_height <= FIELD_HEIGHT,
            lo < y <= old_height,
            g0 == old(board)@,
            col == column(g0, x as int),
            lo == old(board).heights[x as int],
            grid_valid(board@),
            board.hash() == grid_hash(board@),
            lo <= board.heights[x as int] < y,
            board.heights[x as int] == stack_of(col, y as int).len(),
            forall|r: int|
                0 <= r < board.heights[x as int] ==> (#[trigger] board@[r])[x as int] == stack_of(
                    col,
                    y as int,
                )[r],
            forall|r: int|
                board.heights[x as int] <= r < y ==> (#[trigger] board@[r])[x as int] == EMPTY_BLOCK,
            forall|r: int| y <= r < FIELD_HEIGHT ==> (#[trigger] board@[r])[x as int] == col[r],
            forall|r: int, c: int|
                0 <= r < FIELD_HEIGHT && 0 <= c < FIELD_WIDTH && c != x ==> #[trigger] board@[r][c]
                    == g0[r][c],
            forall|c: int|
                0 <= c < FIELD_WIDTH && c != x ==> #[trigger] board.heights[c] == old(
                    board,
                ).heights[c],
            forall|r: int, c: int|
                0 <= r < FIELD_HEIGHT && 0 <= c < FIELD_WIDTH && c != x ==> #[trigger] marks[r][c]
                    == old(marks)[r][c],
            forall|r: int|
                0 <= r < FIELD_HEIGHT ==> (#[trigger] marks[r])[x as int] == (lo <= r
                    < board.heights[x as int] && board@[r][x as int] != OBSTACLE_BLOCK),
        decreases old_height - y,
    {
        let drop_block = board.get(y, x);
        let ghost before = board@;
        let ghost w = board.heights[x as int];
        let ghost marks_before = *marks;
        assert(drop_block == col[y as int]);
        if drop_block != EMPTY_BLOCK {
            let ny = board.heights[x];
            board.set(ny, x, drop_block);
            if drop_block != OBSTACLE_BLOCK {
                marks[ny][x] = true;
            }
            board.heights[x] = ny + 1;
            board.set(y, x, EMPTY_BLOCK);
            proof {
                assert(stack_of(col, y + 1) == stack_of(col, y as int).push(drop_block));
                assert forall|r: int| 0 <= r < FIELD_HEIGHT implies (#[trigger] marks[r])[x as int] == (
                lo <= r < w + 1 && board@[r][x as int] != OBSTACLE_BLOCK) by {
                    assert(marks_before[r][x as int] == (lo <= r < w && before[r][x as int]
                        != OBSTACLE_BLOCK));
                }
            }
        } else {
            proof {
                assert(stack_of(col, y + 1) == stack_of(col, y as int));
            }
        }
        y += 1;
    }
    proof {
        let w = board.heights[x as int];
        assert(stack_of(col, FIELD_HEIGHT as int) == stack_of(col, old_height as int));
        assert forall|r: int| 0 <= r < FIELD_HEIGHT implies (#[trigger] board@[r])[x as int]
            == fallen_cell(col, r) by {
            if r >= old_height {
                assert(col[r] == EMPTY_BLOCK);
            }
        }
    }
}

/// Column `c` has been settled: its blocks have fallen, its height counts
/// them, and its marks name the numbered blocks that moved.
spec fn column_done(
    ge: Grid,
    h0: Seq<usize>,
    lo: Seq<usize>,
    g: Grid,
    h: Seq<usize>,
    marks: [[bool; FIELD_WIDTH]; FIELD_HEIGHT],
    c: int,
) -> bool {
    &&& forall|r: int| 0 <= r < FIELD_HEIGHT ==> (#[trigger] g[r])[c] == fallen_cell(column(ge, c), r)
    &&& column_settled(g, c, h[c] as int)
    &&& lo[c] <= h[c] <= h0[c]
    &&& lo[c] < h0[c] ==> h[c] < h0[c]
    &&& forall|r: int|
        0 <= r < FIELD_HEIGHT ==> (#[trigger] marks[r])[c] == (lo[c] <= r < h[c] && g[r][c]
            != OBSTACLE_BLOCK)
}

/// Column `c` still stands as the erasure left it.
spec fn column_pending(
    ge: Grid,
    lo: Seq<usize>,
    g: Grid,
    h: Seq<usize>,
    marks: [[bool; FIELD_WIDTH]; FIELD_HEIGHT],
    c: int,
) -> bool {
    &&& forall|r: int| 0 <= r < FIELD_HEIGHT ==> (#[trigger] g[r])[c] == ge[r][c]
    &&& h[c] == lo[c]
    &&& forall|r: int| 0 <= r < FIELD_HEIGHT ==> !(#[trigger] marks[r])[c]
}

/// Once every column is settled, the grid is the erased grid settled and the
/// marks are the blocks that moved.
proof fn lemma_all_columns_done(
    g0: Grid,
    h0: Seq<usize>,
    e: Seq<(usize, usize)>,
    ge: Grid,
    lo: Seq<usize>,
    g: Grid,
    h: Seq<usize>,
    marks: [[bool; FIELD_WIDTH]; FIELD_HEIGHT],
)
    requires
        settled(g0, h0),
        all_occupied(e, h0),
        e.len() > 0,
        erased_state(g0, h0, e, e.len() as int, ge, lo),
        grid_valid(g),
        h.len() == FIELD_WIDTH,
        forall|c: int| 0 <= c < FIELD_WIDTH ==> column_done(ge, h0, lo, g, h, marks, c),
    ensures
        ge == erase(g0, cells_of(e)),
        g == settle(ge),
        settled(g, h),
        forall|c: int| 0 <= c < FIELD_WIDTH ==> #[trigger] h[c] <= h0[c],
        height_sum(h, FIELD_WIDTH as int) < height_sum(h0, FIELD_WIDTH as int),
        forall|r: int, c: int|
            0 <= r < FIELD_HEIGHT && 0 <= c < FIELD_WIDTH ==> #[trigger] marks[r][c] == moved(
                cells_of(e),
                g,
            ).contains((r, c)),
{
    let es = cells_of(e);
    assert forall|r: int, c: int| listed_upto(e, e.len() as int, r, c) == listed(e, r, c) by {
        if listed_upto(e, e.len() as int, r, c) {
            let i = choose|i: int|
                0 <= i < e.len() && i < e.len() && (#[trigger] e[i]).0 == r && e[i].1 == c;
            assert(e[i].0 == r);
        }
        if listed(e, r, c) {
            let i = choose|i: int| 0 <= i < e.len() && (#[trigger] e[i]).0 == r && e[i].1 == c;
            assert(e[i].0 == r);
        }
    }
    assert forall|r: int, c: int| 0 <= r < FIELD_HEIGHT && 0 <= c < FIELD_WIDTH implies ge[r][c]
        == erase(g0, es)[r][c] by {
        assert(es.contains((r, c)) == listed(e, r, c));
    }
    assert(ge =~~= erase(g0, es));
    assert forall|r: int, c: int| 0 <= r < FIELD_HEIGHT && 0 <= c < FIELD_WIDTH implies g[r][c]
        == settle(ge)[r][c] by {
        assert(column_done(ge, h0, lo, g, h, marks, c));
    }
    assert(g =~~= settle(ge));
    assert forall|c: int| 0 <= c < FIELD_WIDTH implies column_settled(g, c, #[trigger] h[c] as int) by {
        assert(column_done(ge, h0, lo, g, h, marks, c));
    }
    assert forall|c: int| 0 <= c < FIELD_WIDTH implies #[trigger] h[c] <= h0[c] by {
        assert(column_done(ge, h0, lo, g, h, marks, c));
    }
    let x0 = e[0].1 as int;
    assert(listed_upto(e, e.len() as int, e[0].0 as int, x0));
    assert(column_done(ge, h0, lo, g, h, marks, x0));
    assert(h[x0] < h0[x0]);
    lemma_height_sum_decreases(h0, h, FIELD_WIDTH as int);
    assert forall|r: int, c: int|
        0 <= r < FIELD_HEIGHT && 0 <= c < FIELD_WIDTH implies #[trigger] marks[r][c] == moved(
        es,
        g,
    ).contains((r, c)) by {
        assert(column_done(ge, h0, lo, g, h, marks, c));
        let hit = moved(es, g).contains((r, c));
        if marks[r][c] {
            assert(lo[c] < h0[c]);
            assert(listed_upto(e, e.len() as int, lo[c] as int, c));
            assert(es.contains((lo[c] as int, c)));
            assert(g[r][c] != EMPTY_BLOCK);
            assert(hit);
        }
        if hit {
            let y0 = choose|y0: int| 0 <= y0 <= r && #[trigger] es.contains((y0, c));
            assert(listed_upto(e, e.len() as int, y0, c));
            if y0 < lo[c] {
                assert(!listed_upto(e, e.len() as int, y0, c));
            }
            assert(marks[r][c]);
        }
    }
}

/// The cells listed in landing order are the cells a dropped piece comes
/// to occupy, all of them on the board.
proof fn lemma_drop_order_cells(h: Seq<usize>, point: int, pack: Seq<u8>)
    requires
        h.len() == FIELD_WIDTH,
        pack.len() == 4,
        drop_fits(h, point, pack),
    ensures
        cells_of(drop_order(h, point, pack)) == placed(h, point, pack),
        forall|i: int|
            0 <= i < drop_order(h, point, pack).len() ==> on_board(
                #[trigger] cell_at(drop_order(h, point, pack), i),
            ),
{
    let v = drop_order(h, point, pack);
    let left = h[point] as int;
    let right = h[point + 1] as int;
    let g = Seq::<Seq<u8>>::empty();
    lemma_landed_two(g, point + 1, right, pack[3], pack[1], 0, 0);
    lemma_landed_two(g, point, left, pack[2], pack[0], 0, 0);
    let a = one_cell(pack[3] != EMPTY_BLOCK, right, point + 1);
    let b = one_cell(pack[2] != EMPTY_BLOCK, left, point);
    let left_top = if pack[2] != EMPTY_BLOCK {
        left + 1
    } else {
        left
    };
    let right_top = if pack[3] != EMPTY_BLOCK {
        right + 1
    } else {
        right
    };
    let c = one_cell(pack[1] != EMPTY_BLOCK, right_top, point + 1);
    let d = one_cell(pack[0] != EMPTY_BLOCK, left_top, point);
    assert(v == a + b + c + d);
    assert forall|y: int, x: int|
        listed(v, y, x) == (listed(a, y, x) || listed(b, y, x) || listed(c, y, x) || listed(
            d,
            y,
            x,
        )) by {
        lemma_listed_concat(a, b, y, x);
        lemma_listed_concat(a + b, c, y, x);
        lemma_listed_concat(a + b + c, d, y, x);
    }
    assert forall|p: Cell| cells_of(v).contains(p) == placed(h, point, pack).contains(p) by {
        lemma_listed_one(pack[3] != EMPTY_BLOCK, right, point + 1, p.0, p.1);
        lemma_listed_one(pack[2] != EMPTY_BLOCK, left, point, p.0, p.1);
        lemma_listed_one(pack[1] != EMPTY_BLOCK, right_top, point + 1, p.0, p.1);
        lemma_listed_one(pack[0] != EMPTY_BLOCK, left_top, point, p.0, p.1);
    }
    assert(cells_of(v) =~= placed(h, point, pack));
    assert forall|i: int| 0 <= i < v.len() implies on_board(#[trigger] cell_at(v, i)) by {
        let p = cell_at(v, i);
        assert(listed(v, p.0, p.1));
        assert(cells_of(v).contains(p));
        assert(placed(h, point, pack).contains(p));
    }
}

proof fn lemma_listed_concat(a: Seq<(usize, usize)>, b: Seq<(usize, usize)>, y: int, x: int)
    ensures
        listed(a + b, y, x) == (listed(a, y, x) || listed(b, y, x)),
{
    let v = a + b;
    if listed(v, y, x) {
        let i = choose|i: int| 0 <= i < v.len() && (#[trigger] v[i]).0 == y && v[i].1 == x;
        if i < a.len() {
            assert(a[i] == v[i]);
        } else {
            assert(b[i - a.len()] == v[i]);
        }
    }
    if listed(a, y, x) {
        let i = choose|i: int| 0 <= i < a.len() && (#[trigger] a[i]).0 == y && a[i].1 == x;
        assert(v[i] == a[i]);
    }
    if listed(b, y, x) {
        let i = choose|i: int| 0 <= i < b.len() && (#[trigger] b[i]).0 == y && b[i].1 == x;
        assert(v[i + a.len()] == b[i]);
    }
}

proof fn lemma_listed_one(present: bool, r: int, c: int, y: int, x: int)
    requires
        0 <= r < FIELD_HEIGHT || !present,
        0 <= c < FIELD_WIDTH,
    ensures
        listed(one_cell(present, r, c), y, x) == (present && y == r && x == c),
{
    let v = one_cell(present, r, c);
    if present {
        assert(v[0] == (r as usize, c as usize));
    }
    if listed(v, y, x) {
        let i = choose|i: int| 0 <= i < v.len() && (#[trigger] v[i]).0 == y && v[i].1 == x;
        assert(i == 0);
    }
}

pub struct Simulator {
    modified_blocks: Vec<(usize, usize)>,
    erase_blocks: Vec<(usize, usize)>,
}

impl Simulator {
    /// The cells changed by the last step, as `(y, x)`.
    pub closed spec fn modified(&self) -> Seq<(usize, usize)> {
        self.modified_blocks@
    }

    /// The cells the next erasure removes, as `(y, x)`.
    pub closed spec fn erasing(&self) -> Seq<(usize, usize)> {
        self.erase_blocks@
    }

    pub fn new() -> (r: Simulator)
        ensures
            r.modified().len() == 0,
            r.erasing().len() == 0,
    {
        let total = FIELD_HEIGHT * FIELD_WIDTH;
        Simulator {
            modified_blocks: Vec::with_capacity(total),
            erase_blocks: Vec::with_capacity(total),
        }
    }

    pub fn default() -> (r: Simulator)
        ensures
            r.modified().len() == 0,
            r.erasing().len() == 0,
    {
        Simulator::new()
    }

    /// Forgets the cells of earlier steps.
    pub fn init(&mut self)
        ensures
            final(self).modified().len() == 0,
            final(self).erasing().len() == 0,
    {
        self.modified_blocks.clear();
        self.erase_blocks.clear();
    }

    /// Lists the single cell `(y, x)` for erasure, in place of what was
    /// listed.
    pub fn set_erase_block(&mut self, y: usize, x: usize)
        ensures
            final(self).erasing() == seq![(y, x)],
            final(self).modified() == old(self).modified(),
    {
        self.erase_blocks.clear();
        self.erase_blocks.push((y, x));
        assert(self.erase_blocks@ =~= seq![(y, x)]);
    }

    pub fn modified_blocks(&self) -> (r: &Vec<(usize, usize)>)
        ensures
            r@ == self.modified(),
    {
        &self.modified_blocks
    }

    /// Finds the cells the next pass erases: every numbered block that sums
    /// to ten with an adjacent numbered block, where one of the two was
    /// modified. The cells are listed once each, in reading order.
    pub fn calculate_erase_blocks(&mut self, board: &Board)
        requires
            forall|i: int|
                0 <= i < old(self).modified().len() ==> on_board(
                    #[trigger] cell_at(old(self).modified(), i),
                ),
        ensures
            final(self).modified() == old(self).modified(),
            in_reading_order(final(self).erasing()),
            cells_of(final(self).erasing()) == erase_set(board@, cells_of(old(self).modified())),
    {
        self.erase_blocks.clear();
        let mut marks: [[bool; FIELD_WIDTH]; FIELD_HEIGHT] = [[false;FIELD_WIDTH];FIELD_HEIGHT];
        let ghost g = board@;
        let ghost v = self.modified_blocks@;
        let n = self.modified_blocks.len();
        proof {
            assert(v == old(self).modified());
            assert forall|j: int| 0 <= j < v.len() implies on_board(#[trigger] cell_at(v, j)) by {
                assert(on_board(cell_at(old(self).modified(), j)));
            }
        }
        for i in 0..n
            invariant
                n == v.len(),
                v == self.modified_blocks@,
                g == board@,
                self.erase_blocks@.len() == 0,
                forall|j: int| 0 <= j < v.len() ==> on_board(#[trigger] cell_at(v, j)),
                forall|r: int, c: int|
                    0 <= r < FIELD_HEIGHT && 0 <= c < FIELD_WIDTH ==> #[trigger] marks[r][c]
                        == marked_by(g, v, i as int, 0, r, c),
        {
            let (y, x) = self.modified_blocks[i];
            assert(on_board(cell_at(v, i as int)));
            let block = board.get(y, x);
            for k in 0..8usize
                invariant
                    i < n,
                    n == v.len(),
                    v == self.modified_blocks@,
                    g == board@,
                    grid_valid(g),
                    self.erase_blocks@.len() == 0,
                    (y, x) == v[i as int],
                    y < FIELD_HEIGHT,
                    x < FIELD_WIDTH,
                    block == g[y as int][x as int],
                    forall|j: int| 0 <= j < v.len() ==> on_board(#[trigger] cell_at(v, j)),
                    forall|r: int, c: int|
                        0 <= r < FIELD_HEIGHT && 0 <= c < FIELD_WIDTH ==> #[trigger] marks[r][c]
                            == marked_by(g, v, i as int, k as int, r, c),
            {
                let d = DIRECTION_YXS[k];
                let ny_i: i8 = y as i8 + d.0;
                let nx_i: i8 = x as i8 + d.1;
                let ghost m = cell_at(v, i as int);
                let ghost nb = neighbor(m, k as int);
                let ghost before = marks;
                let mut erases = false;
                if block != EMPTY_BLOCK && block != OBSTACLE_BLOCK && is_on_board(ny_i, nx_i) {
                    let ny = ny_i as usize;
                    let nx = nx_i as usize;
                    let neighbor_block = board.get(ny, nx);
                    if neighbor_block != EMPTY_BLOCK && neighbor_block != OBSTACLE_BLOCK && block
                        + neighbor_block == ERASING_SUM {
                        marks[y][x] = true;
                        marks[ny][nx] = true;
                        erases = true;
                    }
                }
                proof {
                    assert(erases == erasing_pair(g, m, nb));
                    assert forall|r: int, c: int|
                        0 <= r < FIELD_HEIGHT && 0 <= c < FIELD_WIDTH implies #[trigger] marks[r][c]
                        == marked_by(g, v, i as int, k + 1, r, c) by {
                        lemma_marked_step(g, v, i as int, k as int, r, c);
                        assert(marks[r][c] == (before[r][c] || (erases && ((r, c) == m || (r, c)
                            == nb))));
                    }
                }
            }
            proof {
                assert forall|r: int, c: int|
                    0 <= r < FIELD_HEIGHT && 0 <= c < FIELD_WIDTH implies #[trigger] marks[r][c]
                    == marked_by(g, v, i + 1, 0, r, c) by {
                    lemma_marked_next(g, v, i as int, r, c);
                }
            }
        }
        collect_marked(&marks, &mut self.erase_blocks);
        proof {
            let e = erase_set(g, cells_of(v));
            assert forall|c: Cell| cells_of(self.erase_blocks@).contains(c) == e.contains(c) by {
                lemma_marked_all(g, v, c.0, c.1);
                assert(cells_of(self.erase_blocks@).contains(c) == listed(self.erase_blocks@, c.0, c.1));
                if on_board(c) {
                    assert(marks[c.0][c.1] == marked_by(g, v, v.len() as int, 0, c.0, c.1));
                }
                assert(c == (c.0, c.1));
            }
            assert(cells_of(self.erase_blocks@) =~= e);
        }
    }

    /// Empties the cells listed for erasure and lets every stack fall. The
    /// numbered blocks that came to rest in a new place become the modified
    /// cells, listed once each in reading order; obstacle blocks that fell
    /// are not among them.
    pub fn apply_erase_blocks(&mut self, board: &mut Board)
        requires
            old(board).wf(),
            old(self).erasing().len() > 0,
            all_occupied(old(self).erasing(), old(board).heights@),
        ensures
            final(board).wf(),
            final(board).hash() == grid_hash(final(board)@),
            final(board)@ == settle(erase(old(board)@, cells_of(old(self).erasing()))),
            final(self).erasing() == old(self).erasing(),
            in_reading_order(final(self).modified()),
            cells_of(final(self).modified()) == moved(
                cells_of(old(self).erasing()),
                final(board)@,
            ),
            forall|x: int|
                0 <= x < FIELD_WIDTH ==> #[trigger] final(board).heights[x] <= old(board).heights[x],
            height_sum(final(board).heights@, FIELD_WIDTH as int) < height_sum(
                old(board).heights@,
                FIELD_WIDTH as int,
            ),
    {
        let old_heights = board.heights;
        let ghost g0 = board@;
        let ghost h0 = board.heights@;
        let ghost e = self.erase_blocks@;
        erase_listed(board, &self.erase_blocks);
        self.modified_blocks.clear();
        let mut marks: [[bool; FIELD_WIDTH]; FIELD_HEIGHT] = [[false;FIELD_WIDTH];FIELD_HEIGHT];
        let ghost ge = board@;
        let ghost lo = board.heights@;
        for x in 0..FIELD_WIDTH
            invariant
                settled(g0, h0),
                all_occupied(e, h0),
                h0 == old_heights@,
                e == self.erase_blocks@,
                self.modified_blocks@.len() == 0,
                erased_state(g0, h0, e, e.len() as int, ge, lo),
                grid_valid(board@),
                board.hash() == grid_hash(board@),
                forall|c: int|
                    0 <= c < x ==> column_done(ge, h0, lo, board@, board.heights@, marks, c),
                forall|c: int|
                    x <= c < FIELD_WIDTH ==> column_pending(ge, lo, board@, board.heights@, marks, c),
        {
            let ghost before = board@;
            let ghost heights_before = board.heights@;
            let ghost marks_before = marks;
            proof {
                assert(column_pending(ge, lo, before, heights_before, marks, x as int));
                assert(column_settled(g0, x as int, h0[x as int] as int));
                assert forall|r: int| 0 <= r < lo[x as int] implies (#[trigger] before[r])[x as int]
                    != EMPTY_BLOCK by {
                    assert(!listed_upto(e, e.len() as int, r, x as int));
                    assert(before[r][x as int] == ge[r][x as int]);
                    assert(g0[r][x as int] != EMPTY_BLOCK);
                }
                assert forall|r: int| old_heights[x as int] <= r < FIELD_HEIGHT implies (
                #[trigger] before[r])[x as int] == EMPTY_BLOCK by {
                    assert(before[r][x as int] == ge[r][x as int]);
                    assert(g0[r][x as int] == EMPTY_BLOCK);
                }
                if lo[x as int] < h0[x as int] {
                    assert(listed_upto(e, e.len() as int, lo[x as int] as int, x as int));
                    assert(before[lo[x as int] as int][x as int] == ge[lo[x as int] as int][x as int]);
                }
            }
            settle_column(board, x, old_heights[x], &mut marks);
            proof {
                assert(column(before, x as int) =~= column(ge, x as int));
                assert forall|c: int| 0 <= c < x + 1 implies column_done(
                    ge,
                    h0,
                    lo,
                    board@,
                    board.heights@,
                    marks,
                    c,
                ) by {
                    if c < x {
                        assert(column_done(ge, h0, lo, before, heights_before, marks_before, c));
                        assert forall|r: int| 0 <= r < FIELD_HEIGHT implies (#[trigger] board@[r])[c]
                            == before[r][c] by {
                            assert(board@[r][c] == before[r][c]);
                        }
                        assert forall|r: int| 0 <= r < FIELD_HEIGHT implies (#[trigger] marks[r])[c]
                            == marks_before[r][c] by {
                            assert(marks[r][c] == marks_before[r][c]);
                        }
                        assert(board.heights@[c] == heights_before[c]);
                    }
                }
                assert forall|c: int| x + 1 <= c < FIELD_WIDTH implies column_pending(
                    ge,
                    lo,
                    board@,
                    board.heights@,
                    marks,
                    c,
                ) by {
                    assert(column_pending(ge, lo, before, heights_before, marks_before, c));
                    assert forall|r: int| 0 <= r < FIELD_HEIGHT implies (#[trigger] board@[r])[c]
                        == before[r][c] by {
                        assert(board@[r][c] == before[r][c]);
                    }
                    assert forall|r: int| 0 <= r < FIELD_HEIGHT implies (#[trigger] marks[r])[c]
                        == marks_before[r][c] by {
                        assert(marks[r][c] == marks_before[r][c]);
                    }
                    assert(board.heights@[c] == heights_before[c]);
                }
            }
        }
        collect_marked(&marks, &mut self.modified_blocks);
        proof {
            lemma_all_columns_done(g0, h0, e, ge, lo, board@, board.heights@, marks);
            let target = moved(cells_of(e), board@);
            assert forall|c: Cell| cells_of(self.modified_blocks@).contains(c) == target.contains(
                c,
            ) by {
                assert(c == (c.0, c.1));
                assert(cells_of(self.modified_blocks@).contains(c) == listed(
                    self.modified_blocks@,
                    c.0,
                    c.1,
                ));
                if on_board(c) {
                    assert(marks[c.0][c.1] == target.contains((c.0, c.1)));
                }
            }
            assert(cells_of(self.modified_blocks@) =~= target);
        }
    }

    /// Drops a piece with its left column on column `point`, resolves the
    /// cascade, and returns the length of the chain. The result is a function
    /// of the board, the column and the piece alone.
    pub fn simulate(&mut self, board: &mut Board, point: usize, pack: &Pack) -> (chain_count: u8)
        requires
            old(board).wf(),
            drop_fits(old(board).heights@, point as int, pack@),
        ensures
            final(board).wf(),
            final(board).hash() == grid_hash(final(board)@),
            (final(board)@, chain_count as nat) == simulated(
                old(board)@,
                old(board).heights@,
                point as int,
                pack@,
            ),
            chain_count <= FIELD_WIDTH * FIELD_HEIGHT,
            !erases_any(final(board)@, cells_of(final(self).modified())),
            forall|x: int|
                0 <= x < FIELD_WIDTH ==> #[trigger] final(board).heights[x] <= old(board).heights[x]
                    + if x == point {
                    pack_load(pack@, 0)
                } else if x == point + 1 {
                    pack_load(pack@, 1)
                } else {
                    0
                },
    {
        pack.recall();
        self.init();
        proof {
            lemma_drop_order_cells(board.heights@, point as int, pack@);
        }
        self.drop_pack(board, point, pack);
        proof {
            assert(self.modified() =~= drop_order(old(board).heights@, point as int, pack@));
        }
        self.calculate_chain_count(board)
    }

    /// Simulates the drop where the board admits it, and leaves the board
    /// alone where it does not: on any board, column and piece, and whatever
    /// the simulator was used for before, the answer and the board afterwards
    /// are a function of the board, the column and the piece.
    pub fn try_simulate(&mut self, board: &mut Board, point: usize, pack: &Pack) -> (r: Option<u8>)
        ensures
            r is Some <==> old(board).wf() && drop_fits(old(board).heights@, point as int, pack@),
            r is None ==> *final(board) == *old(board),
            r is Some ==> final(board).wf() && final(board).hash() == grid_hash(final(board)@) && (
                final(board)@,
                r->0 as nat,
            ) == simulated(old(board)@, old(board).heights@, point as int, pack@),
    {
        let first = pack.get(0);
        let second = pack.get(1);
        let third = pack.get(2);
        let fourth = pack.get(3);
        proof {
            lemma_stack_two(third, first);
            lemma_stack_two(fourth, second);
        }
        if point > FIELD_WIDTH - 2 || !board.is_well_formed() {
            return None;
        }
        let left: usize = if third != EMPTY_BLOCK && first != EMPTY_BLOCK {
            2
        } else if third != EMPTY_BLOCK || first != EMPTY_BLOCK {
            1
        } else {
            0
        };
        let right: usize = if fourth != EMPTY_BLOCK && second != EMPTY_BLOCK {
            2
        } else if fourth != EMPTY_BLOCK || second != EMPTY_BLOCK {
            1
        } else {
            0
        };
        if board.heights[point] + left > FIELD_HEIGHT || board.heights[point + 1] + right
            > FIELD_HEIGHT {
            return None;
        }
        Some(self.simulate(board, point, pack))
    }

    /// Resolves the cascade that the modified cells set off: erases, lets
    /// fall, and repeats until a pass erases nothing. Returns the number of
    /// passes that erased something.
    pub fn calculate_chain_count(&mut self, board: &mut Board) -> (chain_count: u8)
        requires
            old(board).wf(),
            forall|i: int|
                0 <= i < old(self).modified().len() ==> on_board(
                    #[trigger] cell_at(old(self).modified(), i),
                ),
        ensures
            final(board).wf(),
            final(board).hash() == grid_hash(final(board)@),
            (final(board)@, chain_count as nat) == cascade(
                old(board)@,
                cells_of(old(self).modified()),
            ),
            forall|x: int|
                0 <= x < FIELD_WIDTH ==> #[trigger] final(board).heights[x] <= old(board).heights[x],
            chain_count <= height_sum(old(board).heights@, FIELD_WIDTH as int) <= FIELD_WIDTH
                * FIELD_HEIGHT,
            !erases_any(final(board)@, cells_of(final(self).modified())),
    {
        let mut chain_count: u8 = 0;
        let ghost g0 = board@;
        let ghost m0 = cells_of(self.modified());
        let ghost total = height_sum(board.heights@, FIELD_WIDTH as int);
        board.recall();
        proof {
            lemma_occupied_is_height_sum(board@, board.heights@, FIELD_WIDTH as int);
        }
        loop
            invariant
                board.wf(),
                board.hash() == grid_hash(board@),
                forall|i: int|
                    0 <= i < self.modified().len() ==> on_board(#[trigger] cell_at(self.modified(), i)),
                forall|x: int|
                    0 <= x < FIELD_WIDTH ==> #[trigger] board.heights[x] <= old(board).heights[x],
                total <= FIELD_WIDTH * FIELD_HEIGHT,
                chain_count + height_sum(board.heights@, FIELD_WIDTH as int) <= total,
                0 <= height_sum(board.heights@, FIELD_WIDTH as int),
                cascade(g0, m0).0 == cascade(board@, cells_of(self.modified())).0,
                cascade(g0, m0).1 == cascade(board@, cells_of(self.modified())).1 + chain_count,
            ensures
                board.wf(),
                board.hash() == grid_hash(board@),
                forall|x: int|
                    0 <= x < FIELD_WIDTH ==> #[trigger] board.heights[x] <= old(board).heights[x],
                cascade(g0, m0) == (board@, chain_count as nat),
                chain_count <= total <= FIELD_WIDTH * FIELD_HEIGHT,
                !erases_any(board@, cells_of(self.modified())),
            decreases height_sum(board.heights@, FIELD_WIDTH as int),
        {
            let ghost g = board@;
            let ghost h = board.heights@;
            let ghost m = cells_of(self.modified());
            if self.modified_blocks.len() == 0 {
                proof {
                    assert forall|c: Cell| !#[trigger] erased_by(g, m, c) by {
                        assert forall|d: Cell| !m.contains(d) by {
                            assert(!listed(self.modified(), d.0, d.1));
                        }
                    }
                    assert(!erases_any(g, m));
                }
                break ;
            }
            self.calculate_erase_blocks(board);
            let ghost e = self.erasing();
            if self.erase_blocks.len() == 0 {
                proof {
                    assert forall|c: Cell| !#[trigger] erased_by(g, m, c) by {
                        assert(erase_set(g, m).contains(c) == erased_by(g, m, c));
                        assert(!listed(e, c.0, c.1));
                        assert(!cells_of(e).contains(c));
                    }
                    assert(!erases_any(g, m));
                }
                break ;
            }
            proof {
                assert forall|i: int| 0 <= i < e.len() implies (#[trigger] e[i]).1 < FIELD_WIDTH
                    && e[i].0 < h[e[i].1 as int] by {
                    let c = cell_at(e, i);
                    assert(on_board(c));
                    assert(listed(e, c.0, c.1));
                    assert(cells_of(e).contains(c));
                    assert(erase_set(g, m).contains(c));
                    assert(erased_by(g, m, c));
                    let d = choose|d: Cell| #[trigger]
                        erasing_pair(g, c, d) && (m.contains(c) || m.contains(d));
                    assert(is_numbered(g[c.0][c.1]));
                    assert(column_settled(g, c.1, h[c.1] as int));
                }
                let c0 = cell_at(e, 0);
                assert(listed(e, c0.0, c0.1));
                assert(cells_of(e).contains(c0));
                assert(erased_by(g, m, c0));
                assert(erases_any(g, m));
            }
            chain_count += 1;
            self.apply_erase_blocks(board);
            proof {
                lemma_occupied_is_height_sum(g, h, FIELD_WIDTH as int);
                lemma_occupied_is_height_sum(board@, board.heights@, FIELD_WIDTH as int);
                assert(cells_of(e) == erase_set(g, m));
                assert(board@ == settle(erase(g, erase_set(g, m))));
                assert(occupied(board@) < occupied(g));
            }
        }
        chain_count
    }

    /// Puts one block of a piece on column `nx`; an empty cell of the piece
    /// puts nothing.
    fn place(&mut self, board: &mut Board, nx: usize, block: u8)
        requires
            nx < FIELD_WIDTH,
            block <= OBSTACLE_BLOCK,
            block != EMPTY_BLOCK ==> old(board).heights[nx as int] < FIELD_HEIGHT,
        ensures
            final(board).hash() == grid_hash(final(board)@),
            final(self).erasing() == old(self).erasing(),
            stepped(
                old(board)@,
                old(board).heights@,
                nx as int,
                block,
                final(board)@,
                final(board).heights@,
            ),
            final(self).modified() == old(self).modified() + one_cell(
                block != EMPTY_BLOCK,
                old(board).heights[nx as int] as int,
                nx as int,
            ),
    {
        board.recall();
        if block == EMPTY_BLOCK {
            assert(self.modified() =~= old(self).modified() + Seq::<(usize, usize)>::empty());
            return ;
        }
        let ny = board.heights[nx];
        board.set(ny, nx, block);
        board.heights[nx] = ny + 1;
        self.modified_blocks.push((ny, nx));
        proof {
            assert(self.modified() =~= old(self).modified() + seq![(ny, nx)]);
        }
    }

    /// Drops a piece with its left column on column `point`. In each of its
    /// two columns the bottom cell lands first and the top cell on it; the
    /// cells that were filled are recorded as modified in landing order.
    pub fn drop_pack(&mut self, board: &mut Board, point: usize, pack: &Pack)
        requires
            old(board).wf(),
            drop_fits(old(board).heights@, point as int, pack@),
        ensures
            final(board).wf(),
            final(board).hash() == grid_hash(final(board)@),
            final(board)@ == dropped(old(board)@, old(board).heights@, point as int, pack@),
            final(self).modified() == old(self).modified() + drop_order(
                old(board).heights@,
                point as int,
                pack@,
            ),
            final(self).erasing() == old(self).erasing(),
            forall|x: int|
                0 <= x < FIELD_WIDTH ==> #[trigger] final(board).heights[x] == old(board).heights[x]
                    + if x == point {
                    pack_load(pack@, 0)
                } else if x == point + 1 {
                    pack_load(pack@, 1)
                } else {
                    0
                },
    {
        let top_left = pack.get(0);
        let top_right = pack.get(1);
        let bottom_left = pack.get(2);
        let bottom_right = pack.get(3);
        let ghost g0 = board@;
        let ghost h0 = board.heights@;
        let ghost m0 = self.modified();
        let ghost left = h0[point as int] as int;
        let ghost right = h0[point + 1] as int;
        proof {
            lemma_landed_two(g0, point + 1, right, bottom_right, top_right, 0, 0);
            lemma_landed_two(g0, point as int, left, bottom_left, top_left, 0, 0);
            assert(pack_load(pack@, 0) == stack_of(seq![bottom_left, top_left], 2).len());
            assert(pack_load(pack@, 1) == stack_of(seq![bottom_right, top_right], 2).len());
        }
        self.place(board, point + 1, bottom_right);
        let ghost g1 = board@;
        let ghost h1 = board.heights@;
        let ghost m1 = self.modified();
        self.place(board, point, bottom_left);
        let ghost g2 = board@;
        let ghost h2 = board.heights@;
        let ghost m2 = self.modified();
        self.place(board, point + 1, top_right);
        let ghost g3 = board@;
        let ghost h3 = board.heights@;
        let ghost m3 = self.modified();
        self.place(board, point, top_left);
        proof {
            lemma_drop_steps(g0, h0, point as int, pack@, g1, h1, g2, h2, g3, h3, board@, board.heights@);
            lemma_drop_order_steps(h0, point as int, pack@, m0, m1, m2, m3, self.modified());
        }
    }
}

} // verus!
