//! Heuristics over a board: how long a chain it is one block away from, and
//! how promising its shape is. The chain estimates are memoised by
//! structural hash.
use vstd::prelude::*;
use vstd::arithmetic::power2::{lemma2_to64, lemma_pow2_strictly_increases, lemma_pow2_unfold, pow2};
use fnv::FnvHashMap;
use crate::bit_board::Grid;
use crate::bit_board::grid_hash;
use crate::board::{
    danger, lemma_stack_count_bound, obstacles_dropped, stack_count, Board, DANGER_LINE_HEIGHT,
    EMPTY_BLOCK, ERASING_SUM, FIELD_HEIGHT, FIELD_WIDTH, OBSTACLE_BLOCK,
};
use crate::search_state::SearchState;
use crate::solver_config::DEFAULT_FATAL_FIRE_MAX_CHAIN_COUNT;
use crate::cascade::{
    adjacent, cascade, cells_of, erase, height_sum, is_numbered, lemma_occupied_is_height_sum,
    lemma_stack_two, listed, moved, on_board, settle, simulated,
    Cell,
};
use crate::hash_tables::{map_clear, map_get, map_insert, map_len, map_new};
use crate::pack::Pack;
use crate::simulator::{
    calculate_game_score, calculate_obstacle_count_from_chain_count, is_on_board,
    lemma_adjacent_direction, neighbor, Simulator, CHAIN_CUMULATIVE_SCORES, DIRECTION_YXS,
    MAX_CHAIN_COUNT,
};
use crate::zobrist_hash_table::ZobristHash;

verus! {

/// Scores are fixed-point numbers: this many units make one point.
pub const SCORE_UNIT: i64 = 1_000_000;

/// How much a score counts when it lies `depth` moves ahead, in billionths:
/// each further move takes off an eleventh.
pub const GAME_SCORE_DEPTH_RATES: [i64; 20] = [
    1000000000,
    909090909,
    826446281,
    751314801,
    683013455,
    620921323,
    564473930,
    513158118,
    466507380,
    424097618,
    385543289,
    350493899,
    318630818,
    289664380,
    263331254,
    239392049,
    217629136,
    197844669,
    179858790,
    163507991,
];

/// Number of depths the decay table covers.
pub const MAX_SEARCH_DEPTH: usize = 20;

/// The sum of `f(y, x)` over the lowest `n` cells of column `x`.
pub open spec fn column_sum(f: spec_fn(int, int) -> int, x: int, n: int) -> int
    decreases n,
{
    if n <= 0 {
        0
    } else {
        column_sum(f, x, n - 1) + f(n - 1, x)
    }
}

/// The sum of `f(y, x)` over the stacks of the first `n` columns.
pub open spec fn stacks_sum(f: spec_fn(int, int) -> int, heights: Seq<usize>, n: int) -> int
    decreases n,
{
    if n <= 0 {
        0
    } else {
        stacks_sum(f, heights, n - 1) + column_sum(f, n - 1, heights[n - 1] as int)
    }
}

/// A sum of terms between `lo` and `hi` lies between the bounds times the
/// number of terms.
pub proof fn lemma_column_sum_bound(f: spec_fn(int, int) -> int, x: int, n: int, lo: int, hi: int)
    requires
        0 <= n,
        forall|y: int| 0 <= y < n ==> lo <= #[trigger] f(y, x) <= hi,
    ensures
        n * lo <= column_sum(f, x, n) <= n * hi,
    decreases n,
{
    if n > 0 {
        lemma_column_sum_bound(f, x, n - 1, lo, hi);
        assert(lo <= f(n - 1, x) <= hi);
        assert(n * lo == (n - 1) * lo + lo) by (nonlinear_arith);
        assert(n * hi == (n - 1) * hi + hi) by (nonlinear_arith);
    }
}

pub proof fn lemma_stacks_sum_bound(
    f: spec_fn(int, int) -> int,
    heights: Seq<usize>,
    n: int,
    hi: int,
)
    requires
        0 <= n <= heights.len(),
        0 <= hi,
        forall|x: int| 0 <= x < heights.len() ==> #[trigger] heights[x] <= FIELD_HEIGHT,
        forall|y: int, x: int| 0 <= y < FIELD_HEIGHT && 0 <= x < n ==> 0 <= #[trigger] f(y, x) <= hi,
    ensures
        0 <= stacks_sum(f, heights, n) <= n * FIELD_HEIGHT * hi,
    decreases n,
{
    if n > 0 {
        lemma_stacks_sum_bound(f, heights, n - 1, hi);
        let h = heights[n - 1] as int;
        lemma_column_sum_bound(f, n - 1, h, 0, hi);
        assert(h * hi <= FIELD_HEIGHT * hi) by (nonlinear_arith)
            requires
                0 <= h <= FIELD_HEIGHT,
                0 <= hi,
        ;
        assert(n * FIELD_HEIGHT * hi == (n - 1) * FIELD_HEIGHT * hi + FIELD_HEIGHT * hi)
            by (nonlinear_arith);
    }
}

/// The block two rows above a numbered block completes it to ten.
pub open spec fn jump_at(g: Grid, y: int, x: int) -> bool {
    is_numbered(g[y][x]) && y + 2 < FIELD_HEIGHT && g[y][x] + g[y + 2][x] == ERASING_SUM
}

/// The block two rows up and one column to the right completes a numbered
/// block to ten.
pub open spec fn keima_right_at(g: Grid, y: int, x: int) -> bool {
    is_numbered(g[y][x]) && y + 2 < FIELD_HEIGHT && x + 1 < FIELD_WIDTH && g[y][x] + g[y + 2][x + 1]
        == ERASING_SUM
}

/// The block two rows up and one column to the left completes a numbered
/// block to ten.
pub open spec fn keima_left_at(g: Grid, y: int, x: int) -> bool {
    is_numbered(g[y][x]) && y + 2 < FIELD_HEIGHT && x >= 1 && g[y][x] + g[y + 2][x - 1]
        == ERASING_SUM
}

pub open spec fn count_of(b: bool) -> int {
    if b {
        1
    } else {
        0
    }
}

pub open spec fn keima_at(g: Grid, y: int, x: int) -> int {
    count_of(keima_right_at(g, y, x)) + count_of(keima_left_at(g, y, x))
}

/// Knight's-move pairs that would fire one after the other: beside a
/// knight's-move pair, the block in between completes a block three rows up.
pub open spec fn three_chain_at(g: Grid, y: int, x: int) -> int {
    let right = if keima_right_at(g, y, x) && y + 3 < FIELD_HEIGHT {
        count_of(g[y + 1][x + 1] + g[y + 3][x] == ERASING_SUM) + count_of(
            x + 2 < FIELD_WIDTH && g[y + 1][x + 1] + g[y + 3][x + 2] == ERASING_SUM,
        )
    } else {
        0
    };
    let left = if keima_left_at(g, y, x) && y + 3 < FIELD_HEIGHT {
        count_of(x >= 2 && g[y + 1][x - 1] + g[y + 3][x - 2] == ERASING_SUM) + count_of(
            g[y + 1][x - 1] + g[y + 3][x] == ERASING_SUM,
        )
    } else {
        0
    };
    right + left
}

/// The knight's-move pairs, the jump pairs and the chained knight's-move
/// pairs among the blocks of the stacks.
pub fn evaluate_pattern_match_cnt(board: &Board) -> (r: (u16, u16, u16))
    requires
        forall|x: int| 0 <= x < FIELD_WIDTH ==> #[trigger] board.heights[x] <= FIELD_HEIGHT,
    ensures
        r.0 == stacks_sum(|y: int, x: int| keima_at(board@, y, x), board.heights@, FIELD_WIDTH as int),
        r.1 == stacks_sum(
            |y: int, x: int| count_of(jump_at(board@, y, x)),
            board.heights@,
            FIELD_WIDTH as int,
        ),
        r.2 == stacks_sum(
            |y: int, x: int| three_chain_at(board@, y, x),
            board.heights@,
            FIELD_WIDTH as int,
        ),
        r.0 <= 2 * FIELD_WIDTH * FIELD_HEIGHT,
        r.1 <= FIELD_WIDTH * FIELD_HEIGHT,
{
    let mut keima: u16 = 0;
    let mut jump: u16 = 0;
    let mut three_chain: u16 = 0;
    let ghost g = board@;
    let ghost h = board.heights@;
    let ghost fk = |y: int, x: int| keima_at(g, y, x);
    let ghost fj = |y: int, x: int| count_of(jump_at(g, y, x));
    let ghost ft = |y: int, x: int| three_chain_at(g, y, x);
    for x in 0..FIELD_WIDTH
        invariant
            g == board@,
            h == board.heights@,
            fk == |y: int, x: int| keima_at(g, y, x),
            fj == |y: int, x: int| count_of(jump_at(g, y, x)),
            ft == |y: int, x: int| three_chain_at(g, y, x),
            forall|i: int| 0 <= i < FIELD_WIDTH ==> #[trigger] board.heights[i] <= FIELD_HEIGHT,
            keima == stacks_sum(fk, h, x as int),
            jump == stacks_sum(fj, h, x as int),
            three_chain == stacks_sum(ft, h, x as int),
    {
        let height = board.heights[x];
        proof {
            lemma_stacks_sum_bound(fk, h, x as int, 2);
            lemma_stacks_sum_bound(fj, h, x as int, 1);
            lemma_stacks_sum_bound(ft, h, x as int, 4);
        }
        for y in 0..height
            invariant
                x < FIELD_WIDTH,
                height == h[x as int],
                height <= FIELD_HEIGHT,
                g == board@,
                h == board.heights@,
                fk == |y: int, x: int| keima_at(g, y, x),
                fj == |y: int, x: int| count_of(jump_at(g, y, x)),
                ft == |y: int, x: int| three_chain_at(g, y, x),
                stacks_sum(fk, h, x as int) <= x * FIELD_HEIGHT * 2,
                stacks_sum(fj, h, x as int) <= x * FIELD_HEIGHT * 1,
                stacks_sum(ft, h, x as int) <= x * FIELD_HEIGHT * 4,
                keima == stacks_sum(fk, h, x as int) + column_sum(fk, x as int, y as int),
                jump == stacks_sum(fj, h, x as int) + column_sum(fj, x as int, y as int),
                three_chain == stacks_sum(ft, h, x as int) + column_sum(ft, x as int, y as int),
        {
            proof {
                lemma_column_sum_bound(fk, x as int, y as int, 0, 2);
                lemma_column_sum_bound(fj, x as int, y as int, 0, 1);
                lemma_column_sum_bound(ft, x as int, y as int, 0, 4);
            }
            let block = board.get(y, x);
            if block != EMPTY_BLOCK && block != OBSTACLE_BLOCK {
                if y + 2 < FIELD_HEIGHT {
                    if block + board.get(y + 2, x) == ERASING_SUM {
                        jump += 1;
                    }
                }
                if y + 2 < FIELD_HEIGHT && x + 1 < FIELD_WIDTH {
                    if block + board.get(y + 2, x + 1) == ERASING_SUM {
                        keima += 1;
                        let a = board.get(y + 1, x + 1);
                        if y + 3 < FIELD_HEIGHT {
                            let b = board.get(y + 3, x);
                            if a + b == ERASING_SUM {
                                three_chain += 1;
                            }
                            if x + 2 < FIELD_WIDTH {
                                let b = board.get(y + 3, x + 2);
                                if a + b == ERASING_SUM {
                                    three_chain += 1;
                                }
                            }
                        }
                    }
                }
                if y + 2 < FIELD_HEIGHT && x >= 1 {
                    if block + board.get(y + 2, x - 1) == ERASING_SUM {
                        keima += 1;
                        let a = board.get(y + 1, x - 1);
                        if y + 3 < FIELD_HEIGHT {
                            if x >= 2 {
                                let b = board.get(y + 3, x - 2);
                                if a + b == ERASING_SUM {
                                    three_chain += 1;
                                }
                            }
                            let b = board.get(y + 3, x);
                            if a + b == ERASING_SUM {
                                three_chain += 1;
                            }
                        }
                    }
                }
            }
        }
    }
    proof {
        lemma_stacks_sum_bound(fk, h, FIELD_WIDTH as int, 2);
        lemma_stacks_sum_bound(fj, h, FIELD_WIDTH as int, 1);
    }
    (keima, jump, three_chain)
}

/// The mantissa and the exponent of a value, found by halving: the value
/// `m / 2^31 * 2^e` stays what it was while `m` comes to lie between
/// `2^31` and `2^32`.
pub open spec fn normalized(m: int) -> (int, int) {
    let (m1, e1) = if m >= 0x8000_0000_0000 {
        (m / 0x1_0000, 16int)
    } else {
        (m, 0int)
    };
    let (m2, e2) = if m1 >= 0x80_0000_0000 {
        (m1 / 0x100, e1 + 8)
    } else {
        (m1, e1)
    };
    let (m3, e3) = if m2 >= 0x8_0000_0000 {
        (m2 / 0x10, e2 + 4)
    } else {
        (m2, e2)
    };
    let (m4, e4) = if m3 >= 0x2_0000_0000 {
        (m3 / 4, e3 + 2)
    } else {
        (m3, e3)
    };
    if m4 >= 0x1_0000_0000 {
        (m4 / 2, e4 + 1)
    } else {
        (m4, e4)
    }
}

/// The first `k` binary digits of the logarithm to base two of the mantissa
/// `m / 2^31`, appended to the digits `acc`: squaring the mantissa doubles
/// its logarithm, and the digit is one where the square reaches two.
pub open spec fn log2_digits(m: int, acc: int, k: nat) -> int
    decreases k,
{
    if k == 0 {
        acc
    } else {
        let square = m * m / 0x8000_0000;
        if square >= 0x1_0000_0000 {
            log2_digits(square / 2, 2 * acc + 1, (k - 1) as nat)
        } else {
            log2_digits(square, 2 * acc, (k - 1) as nat)
        }
    }
}

/// The logarithm to base ten in millionths, rounded down to the precision
/// of twenty-four binary digits; zero for zero.
pub open spec fn log10_millionths(value: u32) -> int {
    if value == 0 {
        0
    } else {
        let (m, e) = normalized(value * 0x8000_0000);
        (e * 0x100_0000 + log2_digits(m, 0, 24)) * 315652828733 / 0x1000_0000_0000
    }
}

/// Halving keeps mantissas in order: of two values the larger has the
/// larger exponent, or the same exponent and a mantissa no smaller. The
/// mantissa comes to lie between `2^31` and `2^32`.
proof fn lemma_normalized_monotone(x: int, y: int)
    requires
        0x8000_0000 <= x <= y < 0x8000_0000_0000_0000,
    ensures
        0x8000_0000 <= normalized(x).0 < 0x1_0000_0000,
        0x8000_0000 <= normalized(y).0 < 0x1_0000_0000,
        0 <= normalized(x).1 <= 31,
        0 <= normalized(y).1 <= 31,
        normalized(x).1 < normalized(y).1 || (normalized(x).1 == normalized(y).1 && normalized(x).0
            <= normalized(y).0),
{
}

/// The digits of a larger mantissa, or of any mantissa behind a larger
/// prefix, make a number no smaller.
proof fn lemma_digits_monotone(m: int, n: int, acc: int, bcc: int, k: nat)
    requires
        0 <= m,
        0 <= n,
        0 <= acc,
        acc < bcc || (acc == bcc && m <= n),
    ensures
        acc <= log2_digits(m, acc, k),
        log2_digits(m, acc, k) <= log2_digits(n, bcc, k),
    decreases k,
{
    if k > 0 {
        let square = m * m / 0x8000_0000;
        let other = n * n / 0x8000_0000;
        assert(0 <= m * m) by (nonlinear_arith)
            requires
                0 <= m,
        ;
        assert(0 <= n * n) by (nonlinear_arith)
            requires
                0 <= n,
        ;
        if acc == bcc {
            assert(m * m <= n * n) by (nonlinear_arith)
                requires
                    0 <= m <= n,
            ;
        }
        let (m1, a1) = if square >= 0x1_0000_0000 {
            (square / 2, 2 * acc + 1)
        } else {
            (square, 2 * acc)
        };
        let (n1, b1) = if other >= 0x1_0000_0000 {
            (other / 2, 2 * bcc + 1)
        } else {
            (other, 2 * bcc)
        };
        lemma_digits_monotone(m1, n1, a1, b1, (k - 1) as nat);
    }
}

/// `k` digits behind the prefix `acc` make a number below `(acc + 1) * 2^k`.
proof fn lemma_digits_bound(m: int, acc: int, k: nat)
    requires
        0 <= m,
        0 <= acc,
    ensures
        log2_digits(m, acc, k) < (acc + 1) * pow2(k),
    decreases k,
{
    let q = pow2(k) as int;
    if k == 0 {
        lemma2_to64();
        assert(q == 1);
        assert((acc + 1) * q == acc + 1) by (nonlinear_arith)
            requires
                q == 1,
        ;
    } else {
        let square = m * m / 0x8000_0000;
        assert(0 <= m * m) by (nonlinear_arith)
            requires
                0 <= m,
        ;
        lemma_pow2_unfold(k);
        let p = pow2((k - 1) as nat) as int;
        assert(q == 2 * p);
        if square >= 0x1_0000_0000 {
            lemma_digits_bound(square / 2, 2 * acc + 1, (k - 1) as nat);
            assert(log2_digits(m, acc, k) == log2_digits(square / 2, 2 * acc + 1, (k - 1) as nat));
            assert((2 * acc + 1 + 1) * p == (acc + 1) * q) by (nonlinear_arith)
                requires
                    q == 2 * p,
            ;
        } else {
            lemma_digits_bound(square, 2 * acc, (k - 1) as nat);
            assert(log2_digits(m, acc, k) == log2_digits(square, 2 * acc, (k - 1) as nat));
            assert((2 * acc + 1) * p <= (acc + 1) * q) by (nonlinear_arith)
                requires
                    0 <= acc,
                    0 <= p,
                    q == 2 * p,
            ;
        }
    }
}

/// The logarithm never shrinks as its argument grows.
pub proof fn lemma_log10_monotone(a: u32, b: u32)
    requires
        a <= b,
    ensures
        0 <= log10_millionths(a) <= log10_millionths(b),
{
    lemma2_to64();
    if b > 0 {
        let (n, f) = normalized(b * 0x8000_0000);
        lemma_normalized_monotone(b * 0x8000_0000, b * 0x8000_0000);
        lemma_digits_monotone(n, n, 0, 0, 24);
        lemma_digits_bound(n, 0, 24);
        let high = f * 0x100_0000 + log2_digits(n, 0, 24);
        if a > 0 {
            let (m, e) = normalized(a * 0x8000_0000);
            lemma_normalized_monotone(a * 0x8000_0000, b * 0x8000_0000);
            lemma_digits_monotone(m, m, 0, 0, 24);
            lemma_digits_bound(m, 0, 24);
            let low = e * 0x100_0000 + log2_digits(m, 0, 24);
            if e == f {
                lemma_digits_monotone(m, n, 0, 0, 24);
            }
            assert(0 <= low <= high);
            assert(low * 315652828733 <= high * 315652828733);
        } else {
            assert(0 <= high);
            assert(0 <= high * 315652828733);
        }
    }
}

/// The digits of the logarithm to base two of one.
proof fn lemma_log2_digits_of_one()
    ensures
        normalized(1int * 0x8000_0000) == (2147483648int, 0int),
        log2_digits(2147483648, 0, 24) == 0,
{
    assert(log2_digits(2147483648, 0, 24) == log2_digits(2147483648, 0, 23));
    assert(log2_digits(2147483648, 0, 23) == log2_digits(2147483648, 0, 22));
    assert(log2_digits(2147483648, 0, 22) == log2_digits(2147483648, 0, 21));
    assert(log2_digits(2147483648, 0, 21) == log2_digits(2147483648, 0, 20));
    assert(log2_digits(2147483648, 0, 20) == log2_digits(2147483648, 0, 19));
    assert(log2_digits(2147483648, 0, 19) == log2_digits(2147483648, 0, 18));
    assert(log2_digits(2147483648, 0, 18) == log2_digits(2147483648, 0, 17));
    assert(log2_digits(2147483648, 0, 17) == log2_digits(2147483648, 0, 16));
    assert(log2_digits(2147483648, 0, 16) == log2_digits(2147483648, 0, 15));
    assert(log2_digits(2147483648, 0, 15) == log2_digits(2147483648, 0, 14));
    assert(log2_digits(2147483648, 0, 14) == log2_digits(2147483648, 0, 13));
    assert(log2_digits(2147483648, 0, 13) == log2_digits(2147483648, 0, 12));
    assert(log2_digits(2147483648, 0, 12) == log2_digits(2147483648, 0, 11));
    assert(log2_digits(2147483648, 0, 11) == log2_digits(2147483648, 0, 10));
    assert(log2_digits(2147483648, 0, 10) == log2_digits(2147483648, 0, 9));
    assert(log2_digits(2147483648, 0, 9) == log2_digits(2147483648, 0, 8));
    assert(log2_digits(2147483648, 0, 8) == log2_digits(2147483648, 0, 7));
    assert(log2_digits(2147483648, 0, 7) == log2_digits(2147483648, 0, 6));
    assert(log2_digits(2147483648, 0, 6) == log2_digits(2147483648, 0, 5));
    assert(log2_digits(2147483648, 0, 5) == log2_digits(2147483648, 0, 4));
    assert(log2_digits(2147483648, 0, 4) == log2_digits(2147483648, 0, 3));
    assert(log2_digits(2147483648, 0, 3) == log2_digits(2147483648, 0, 2));
    assert(log2_digits(2147483648, 0, 2) == log2_digits(2147483648, 0, 1));
    assert(log2_digits(2147483648, 0, 1) == log2_digits(2147483648, 0, 0));
}

/// The digits of the logarithm to base two of ten.
proof fn lemma_log2_digits_of_ten()
    ensures
        normalized(10int * 0x8000_0000) == (2684354560int, 3int),
        log2_digits(2684354560, 0, 24) == 5401057,
{
    assert(log2_digits(2684354560, 0, 24) == log2_digits(3355443200, 0, 23));
    assert(log2_digits(3355443200, 0, 23) == log2_digits(2621440000, 1, 22));
    assert(log2_digits(2621440000, 1, 22) == log2_digits(3200000000, 2, 21));
    assert(log2_digits(3200000000, 2, 21) == log2_digits(2384185791, 5, 20));
    assert(log2_digits(2384185791, 5, 20) == log2_digits(2646977960, 10, 19));
    assert(log2_digits(2646977960, 10, 19) == log2_digits(3262652233, 20, 18));
    assert(log2_digits(3262652233, 20, 18) == log2_digits(2478458823, 41, 17));
    assert(log2_digits(2478458823, 41, 17) == log2_digits(2860444661, 82, 16));
    assert(log2_digits(2860444661, 82, 16) == log2_digits(3810107549, 164, 15));
    assert(log2_digits(3810107549, 164, 15) == log2_digits(3379983719, 329, 14));
    assert(log2_digits(3379983719, 329, 14) == log2_digits(2659924780, 659, 13));
    assert(log2_digits(2659924780, 659, 13) == log2_digits(3294646663, 1318, 12));
    assert(log2_digits(3294646663, 1318, 12) == log2_digits(2527306003, 2637, 11));
    assert(log2_digits(2527306003, 2637, 11) == log2_digits(2974306993, 5274, 10));
    assert(log2_digits(2974306993, 5274, 10) == log2_digits(4119473550, 10548, 9));
    assert(log2_digits(4119473550, 10548, 9) == log2_digits(3951150534, 21097, 8));
    assert(log2_digits(3951150534, 21097, 8) == log2_digits(3634856674, 42195, 7));
    assert(log2_digits(3634856674, 42195, 7) == log2_digits(3076201081, 84391, 6));
    assert(log2_digits(3076201081, 84391, 6) == log2_digits(2203279428, 168783, 5));
    assert(log2_digits(2203279428, 168783, 5) == log2_digits(2260524890, 337566, 4));
    assert(log2_digits(2260524890, 337566, 4) == log2_digits(2379516502, 675132, 3));
    assert(log2_digits(2379516502, 675132, 3) == log2_digits(2636620208, 1350264, 2));
    assert(log2_digits(2636620208, 1350264, 2) == log2_digits(3237168361, 2700528, 1));
    assert(log2_digits(3237168361, 2700528, 1) == log2_digits(2439892617, 5401057, 0));
}

/// The digits of the logarithm to base two of a hundred.
proof fn lemma_log2_digits_of_a_hundred()
    ensures
        normalized(100int * 0x8000_0000) == (3355443200int, 6int),
        log2_digits(3355443200, 0, 24) == 10802114,
{
    assert(log2_digits(3355443200, 0, 24) == log2_digits(2621440000, 1, 23));
    assert(log2_digits(2621440000, 1, 23) == log2_digits(3200000000, 2, 22));
    assert(log2_digits(3200000000, 2, 22) == log2_digits(2384185791, 5, 21));
    assert(log2_digits(2384185791, 5, 21) == log2_digits(2646977960, 10, 20));
    assert(log2_digits(2646977960, 10, 20) == log2_digits(3262652233, 20, 19));
    assert(log2_digits(3262652233, 20, 19) == log2_digits(2478458823, 41, 18));
    assert(log2_digits(2478458823, 41, 18) == log2_digits(2860444661, 82, 17));
    assert(log2_digits(2860444661, 82, 17) == log2_digits(3810107549, 164, 16));
    assert(log2_digits(3810107549, 164, 16) == log2_digits(3379983719, 329, 15));
    assert(log2_digits(3379983719, 329, 15) == log2_digits(2659924780, 659, 14));
    assert(log2_digits(2659924780, 659, 14) == log2_digits(3294646663, 1318, 13));
    assert(log2_digits(3294646663, 1318, 13) == log2_digits(2527306003, 2637, 12));
    assert(log2_digits(2527306003, 2637, 12) == log2_digits(2974306993, 5274, 11));
    assert(log2_digits(2974306993, 5274, 11) == log2_digits(4119473550, 10548, 10));
    assert(log2_digits(4119473550, 10548, 10) == log2_digits(3951150534, 21097, 9));
    assert(log2_digits(3951150534, 21097, 9) == log2_digits(3634856674, 42195, 8));
    assert(log2_digits(3634856674, 42195, 8) == log2_digits(3076201081, 84391, 7));
    assert(log2_digits(3076201081, 84391, 7) == log2_digits(2203279428, 168783, 6));
    assert(log2_digits(2203279428, 168783, 6) == log2_digits(2260524890, 337566, 5));
    assert(log2_digits(2260524890, 337566, 5) == log2_digits(2379516502, 675132, 4));
    assert(log2_digits(2379516502, 675132, 4) == log2_digits(2636620208, 1350264, 3));
    assert(log2_digits(2636620208, 1350264, 3) == log2_digits(3237168361, 2700528, 2));
    assert(log2_digits(3237168361, 2700528, 2) == log2_digits(2439892617, 5401057, 1));
    assert(log2_digits(2439892617, 5401057, 1) == log2_digits(2772117025, 10802114, 0));
}

/// The digits of the logarithm to base two of a thousand.
proof fn lemma_log2_digits_of_a_thousand()
    ensures
        normalized(1000int * 0x8000_0000) == (4194304000int, 9int),
        log2_digits(4194304000, 0, 24) == 16203171,
{
    assert(log2_digits(4194304000, 0, 24) == log2_digits(4096000000, 1, 23));
    assert(log2_digits(4096000000, 1, 23) == log2_digits(3906250000, 3, 22));
    assert(log2_digits(3906250000, 3, 22) == log2_digits(3552713678, 7, 21));
    assert(log2_digits(3552713678, 7, 21) == log2_digits(2938735875, 15, 20));
    assert(log2_digits(2938735875, 15, 20) == log2_digits(4021529361, 30, 19));
    assert(log2_digits(4021529361, 30, 19) == log2_digits(3765499778, 61, 18));
    assert(log2_digits(3765499778, 61, 18) == log2_digits(3301303037, 123, 17));
    assert(log2_digits(3301303037, 123, 17) == log2_digits(2537528458, 247, 16));
    assert(log2_digits(2537528458, 247, 16) == log2_digits(2998416626, 494, 15));
    assert(log2_digits(2998416626, 494, 15) == log2_digits(4186528857, 988, 14));
    assert(log2_digits(4186528857, 988, 14) == log2_digits(4080828249, 1977, 13));
    assert(log2_digits(4080828249, 1977, 13) == log2_digits(3877365774, 3955, 12));
    assert(log2_digits(3877365774, 3955, 12) == log2_digits(3500367828, 7911, 11));
    assert(log2_digits(3500367828, 7911, 11) == log2_digits(2852774907, 15823, 10));
    assert(log2_digits(2852774907, 15823, 10) == log2_digits(3789702742, 31646, 9));
    assert(log2_digits(3789702742, 31646, 9) == log2_digits(3343878051, 63293, 8));
    assert(log2_digits(3343878051, 63293, 8) == log2_digits(2603400596, 126587, 7));
    assert(log2_digits(2603400596, 126587, 7) == log2_digits(3156110021, 253174, 6));
    assert(log2_digits(3156110021, 253174, 6) == log2_digits(2319233134, 506349, 5));
    assert(log2_digits(2319233134, 506349, 5) == log2_digits(2504718643, 1012698, 4));
    assert(log2_digits(2504718643, 1012698, 4) == log2_digits(2921379860, 2025396, 3));
    assert(log2_digits(2921379860, 2025396, 3) == log2_digits(3974167763, 4050792, 2));
    assert(log2_digits(3974167763, 4050792, 2) == log2_digits(3677329376, 8101585, 1));
    assert(log2_digits(3677329376, 8101585, 1) == log2_digits(3148510898, 16203171, 0));
}

/// The digits of the logarithm to base two of ten thousand.
proof fn lemma_log2_digits_of_ten_thousand()
    ensures
        normalized(10000int * 0x8000_0000) == (2621440000int, 13int),
        log2_digits(2621440000, 0, 24) == 4827012,
{
    assert(log2_digits(2621440000, 0, 24) == log2_digits(3200000000, 0, 23));
    assert(log2_digits(3200000000, 0, 23) == log2_digits(2384185791, 1, 22));
    assert(log2_digits(2384185791, 1, 22) == log2_digits(2646977960, 2, 21));
    assert(log2_digits(2646977960, 2, 21) == log2_digits(3262652233, 4, 20));
    assert(log2_digits(3262652233, 4, 20) == log2_digits(2478458823, 9, 19));
    assert(log2_digits(2478458823, 9, 19) == log2_digits(2860444661, 18, 18));
    assert(log2_digits(2860444661, 18, 18) == log2_digits(3810107549, 36, 17));
    assert(log2_digits(3810107549, 36, 17) == log2_digits(3379983719, 73, 16));
    assert(log2_digits(3379983719, 73, 16) == log2_digits(2659924780, 147, 15));
    assert(log2_digits(2659924780, 147, 15) == log2_digits(3294646663, 294, 14));
    assert(log2_digits(3294646663, 294, 14) == log2_digits(2527306003, 589, 13));
    assert(log2_digits(2527306003, 589, 13) == log2_digits(2974306993, 1178, 12));
    assert(log2_digits(2974306993, 1178, 12) == log2_digits(4119473550, 2356, 11));
    assert(log2_digits(4119473550, 2356, 11) == log2_digits(3951150534, 4713, 10));
    assert(log2_digits(3951150534, 4713, 10) == log2_digits(3634856674, 9427, 9));
    assert(log2_digits(3634856674, 9427, 9) == log2_digits(3076201081, 18855, 8));
    assert(log2_digits(3076201081, 18855, 8) == log2_digits(2203279428, 37711, 7));
    assert(log2_digits(2203279428, 37711, 7) == log2_digits(2260524890, 75422, 6));
    assert(log2_digits(2260524890, 75422, 6) == log2_digits(2379516502, 150844, 5));
    assert(log2_digits(2379516502, 150844, 5) == log2_digits(2636620208, 301688, 4));
    assert(log2_digits(2636620208, 301688, 4) == log2_digits(3237168361, 603376, 3));
    assert(log2_digits(3237168361, 603376, 3) == log2_digits(2439892617, 1206753, 2));
    assert(log2_digits(2439892617, 1206753, 2) == log2_digits(2772117025, 2413506, 1));
    assert(log2_digits(2772117025, 2413506, 1) == log2_digits(3578436002, 4827012, 0));
}

/// The digits of the logarithm to base two of a hundred thousand.
proof fn lemma_log2_digits_of_a_hundred_thousand()
    ensures
        normalized(100000int * 0x8000_0000) == (3276800000int, 16int),
        log2_digits(3276800000, 0, 24) == 10228069,
{
    assert(log2_digits(3276800000, 0, 24) == log2_digits(2500000000, 1, 23));
    assert(log2_digits(2500000000, 1, 23) == log2_digits(2910383045, 2, 22));
    assert(log2_digits(2910383045, 2, 22) == log2_digits(3944304524, 4, 21));
    assert(log2_digits(3944304524, 4, 21) == log2_digits(3622271627, 9, 20));
    assert(log2_digits(3622271627, 9, 20) == log2_digits(3054936355, 19, 19));
    assert(log2_digits(3054936355, 19, 19) == log2_digits(2172923677, 39, 18));
    assert(log2_digits(2172923677, 39, 18) == log2_digits(2198665079, 78, 17));
    assert(log2_digits(2198665079, 78, 17) == log2_digits(2251066327, 156, 16));
    assert(log2_digits(2251066327, 156, 16) == log2_digits(2359645258, 312, 15));
    assert(log2_digits(2359645258, 312, 15) == log2_digits(2592767469, 624, 14));
    assert(log2_digits(2592767469, 624, 14) == log2_digits(3130381530, 1248, 13));
    assert(log2_digits(3130381530, 1248, 13) == log2_digits(2281574654, 2497, 12));
    assert(log2_digits(2281574654, 2497, 12) == log2_digits(2424038435, 4994, 11));
    assert(log2_digits(2424038435, 4994, 11) == log2_digits(2736208184, 9988, 10));
    assert(log2_digits(2736208184, 9988, 10) == log2_digits(3486329329, 19976, 9));
    assert(log2_digits(3486329329, 19976, 9) == log2_digits(2829938239, 39953, 8));
    assert(log2_digits(2829938239, 39953, 8) == log2_digits(3729271905, 79906, 7));
    assert(log2_digits(3729271905, 79906, 7) == log2_digits(3238084945, 159813, 6));
    assert(log2_digits(3238084945, 159813, 6) == log2_digits(2441274493, 319627, 5));
    assert(log2_digits(2441274493, 319627, 5) == log2_digits(2775257988, 639254, 4));
    assert(log2_digits(2775257988, 639254, 4) == log2_digits(3586549730, 1278508, 3));
    assert(log2_digits(3586549730, 1278508, 3) == log2_digits(2994979490, 2557017, 2));
    assert(log2_digits(2994979490, 2557017, 2) == log2_digits(4176936180, 5114034, 1));
    assert(log2_digits(4176936180, 5114034, 1) == log2_digits(4062148707, 10228069, 0));
}

/// The digits of the logarithm to base two of a million.
proof fn lemma_log2_digits_of_a_million()
    ensures
        normalized(1000000int * 0x8000_0000) == (4096000000int, 19int),
        log2_digits(4096000000, 0, 24) == 15629127,
{
    assert(log2_digits(4096000000, 0, 24) == log2_digits(3906250000, 1, 23));
    assert(log2_digits(3906250000, 1, 23) == log2_digits(3552713678, 3, 22));
    assert(log2_digits(3552713678, 3, 22) == log2_digits(2938735875, 7, 21));
    assert(log2_digits(2938735875, 7, 21) == log2_digits(4021529361, 14, 20));
    assert(log2_digits(4021529361, 14, 20) == log2_digits(3765499778, 29, 19));
    assert(log2_digits(3765499778, 29, 19) == log2_digits(3301303037, 59, 18));
    assert(log2_digits(3301303037, 59, 18) == log2_digits(2537528458, 119, 17));
    assert(log2_digits(2537528458, 119, 17) == log2_digits(2998416626, 238, 16));
    assert(log2_digits(2998416626, 238, 16) == log2_digits(4186528857, 476, 15));
    assert(log2_digits(4186528857, 476, 15) == log2_digits(4080828249, 953, 14));
    assert(log2_digits(4080828249, 953, 14) == log2_digits(3877365774, 1907, 13));
    assert(log2_digits(3877365774, 1907, 13) == log2_digits(3500367828, 3815, 12));
    assert(log2_digits(3500367828, 3815, 12) == log2_digits(2852774907, 7631, 11));
    assert(log2_digits(2852774907, 7631, 11) == log2_digits(3789702742, 15262, 10));
    assert(log2_digits(3789702742, 15262, 10) == log2_digits(3343878051, 30525, 9));
    assert(log2_digits(3343878051, 30525, 9) == log2_digits(2603400596, 61051, 8));
    assert(log2_digits(2603400596, 61051, 8) == log2_digits(3156110021, 122102, 7));
    assert(log2_digits(3156110021, 122102, 7) == log2_digits(2319233134, 244205, 6));
    assert(log2_digits(2319233134, 244205, 6) == log2_digits(2504718643, 488410, 5));
    assert(log2_digits(2504718643, 488410, 5) == log2_digits(2921379860, 976820, 4));
    assert(log2_digits(2921379860, 976820, 4) == log2_digits(3974167763, 1953640, 3));
    assert(log2_digits(3974167763, 1953640, 3) == log2_digits(3677329376, 3907281, 2));
    assert(log2_digits(3677329376, 3907281, 2) == log2_digits(3148510898, 7814563, 1));
    assert(log2_digits(3148510898, 7814563, 1) == log2_digits(2308078313, 15629127, 0));
}

/// The digits of the logarithm to base two of ten million.
proof fn lemma_log2_digits_of_ten_million()
    ensures
        normalized(10000000int * 0x8000_0000) == (2560000000int, 23int),
        log2_digits(2560000000, 0, 24) == 4252968,
{
    assert(log2_digits(2560000000, 0, 24) == log2_digits(3051757812, 0, 23));
    assert(log2_digits(3051757812, 0, 23) == log2_digits(2168404344, 1, 22));
    assert(log2_digits(2168404344, 1, 22) == log2_digits(2189528848, 2, 21));
    assert(log2_digits(2189528848, 2, 21) == log2_digits(2232397243, 4, 20));
    assert(log2_digits(2232397243, 4, 20) == log2_digits(2320668404, 8, 19));
    assert(log2_digits(2320668404, 8, 19) == log2_digits(2507819720, 16, 18));
    assert(log2_digits(2507819720, 16, 18) == log2_digits(2928618224, 32, 17));
    assert(log2_digits(2928618224, 32, 17) == log2_digits(3993885918, 64, 16));
    assert(log2_digits(3993885918, 64, 16) == log2_digits(3713910636, 129, 15));
    assert(log2_digits(3713910636, 129, 15) == log2_digits(3211463850, 259, 14));
    assert(log2_digits(3211463850, 259, 14) == log2_digits(2401298857, 519, 13));
    assert(log2_digits(2401298857, 519, 13) == log2_digits(2685112972, 1038, 12));
    assert(log2_digits(2685112972, 1038, 12) == log2_digits(3357339497, 2076, 11));
    assert(log2_digits(3357339497, 2076, 11) == log2_digits(2624403801, 4153, 10));
    assert(log2_digits(2624403801, 4153, 10) == log2_digits(3207239932, 8306, 9));
    assert(log2_digits(3207239932, 8306, 9) == log2_digits(2394986334, 16613, 8));
    assert(log2_digits(2394986334, 16613, 8) == log2_digits(2671014303, 33226, 7));
    assert(log2_digits(2671014303, 33226, 7) == log2_digits(3322175427, 66452, 6));
    assert(log2_digits(3322175427, 66452, 6) == log2_digits(2569716788, 132905, 5));
    assert(log2_digits(2569716788, 132905, 5) == log2_digits(3074968406, 265810, 4));
    assert(log2_digits(3074968406, 265810, 4) == log2_digits(2201514015, 531621, 3));
    assert(log2_digits(2201514015, 531621, 3) == log2_digits(2256903777, 1063242, 2));
    assert(log2_digits(2256903777, 1063242, 2) == log2_digits(2371899158, 2126484, 1));
    assert(log2_digits(2371899158, 2126484, 1) == log2_digits(2619766451, 4252968, 0));
}

/// The digits of the logarithm to base two of a hundred million.
proof fn lemma_log2_digits_of_a_hundred_million()
    ensures
        normalized(100000000int * 0x8000_0000) == (3200000000int, 26int),
        log2_digits(3200000000, 0, 24) == 9654025,
{
    assert(log2_digits(3200000000, 0, 24) == log2_digits(2384185791, 1, 23));
    assert(log2_digits(2384185791, 1, 23) == log2_digits(2646977960, 2, 22));
    assert(log2_digits(2646977960, 2, 22) == log2_digits(3262652233, 4, 21));
    assert(log2_digits(3262652233, 4, 21) == log2_digits(2478458823, 9, 20));
    assert(log2_digits(2478458823, 9, 20) == log2_digits(2860444661, 18, 19));
    assert(log2_digits(2860444661, 18, 19) == log2_digits(3810107549, 36, 18));
    assert(log2_digits(3810107549, 36, 18) == log2_digits(3379983719, 73, 17));
    assert(log2_digits(3379983719, 73, 17) == log2_digits(2659924780, 147, 16));
    assert(log2_digits(2659924780, 147, 16) == log2_digits(3294646663, 294, 15));
    assert(log2_digits(3294646663, 294, 15) == log2_digits(2527306003, 589, 14));
    assert(log2_digits(2527306003, 589, 14) == log2_digits(2974306993, 1178, 13));
    assert(log2_digits(2974306993, 1178, 13) == log2_digits(4119473550, 2356, 12));
    assert(log2_digits(4119473550, 2356, 12) == log2_digits(3951150534, 4713, 11));
    assert(log2_digits(3951150534, 4713, 11) == log2_digits(3634856674, 9427, 10));
    assert(log2_digits(3634856674, 9427, 10) == log2_digits(3076201081, 18855, 9));
    assert(log2_digits(3076201081, 18855, 9) == log2_digits(2203279428, 37711, 8));
    assert(log2_digits(2203279428, 37711, 8) == log2_digits(2260524890, 75422, 7));
    assert(log2_digits(2260524890, 75422, 7) == log2_digits(2379516502, 150844, 6));
    assert(log2_digits(2379516502, 150844, 6) == log2_digits(2636620208, 301688, 5));
    assert(log2_digits(2636620208, 301688, 5) == log2_digits(3237168361, 603376, 4));
    assert(log2_digits(3237168361, 603376, 4) == log2_digits(2439892617, 1206753, 3));
    assert(log2_digits(2439892617, 1206753, 3) == log2_digits(2772117025, 2413506, 2));
    assert(log2_digits(2772117025, 2413506, 2) == log2_digits(3578436002, 4827012, 1));
    assert(log2_digits(3578436002, 4827012, 1) == log2_digits(2981443940, 9654025, 0));
}

/// The digits of the logarithm to base two of a billion.
proof fn lemma_log2_digits_of_a_billion()
    ensures
        normalized(1000000000int * 0x8000_0000) == (4000000000int, 29int),
        log2_digits(4000000000, 0, 24) == 15055082,
{
    assert(log2_digits(4000000000, 0, 24) == log2_digits(3725290298, 1, 23));
    assert(log2_digits(3725290298, 1, 23) == log2_digits(3231174266, 3, 22));
    assert(log2_digits(3231174266, 3, 22) == log2_digits(2430865340, 7, 21));
    assert(log2_digits(2430865340, 7, 21) == log2_digits(2751642047, 14, 20));
    assert(log2_digits(2751642047, 14, 20) == log2_digits(3525770248, 28, 19));
    assert(log2_digits(3525770248, 28, 19) == log2_digits(2894330732, 57, 18));
    assert(log2_digits(2894330732, 57, 18) == log2_digits(3900914632, 114, 17));
    assert(log2_digits(3900914632, 114, 17) == log2_digits(3543015328, 229, 16));
    assert(log2_digits(3543015328, 229, 16) == log2_digits(2922713201, 459, 15));
    assert(log2_digits(2922713201, 459, 15) == log2_digits(3977796274, 918, 14));
    assert(log2_digits(3977796274, 918, 14) == log2_digits(3684047422, 1837, 13));
    assert(log2_digits(3684047422, 1837, 13) == log2_digits(3160025320, 3675, 12));
    assert(log2_digits(3160025320, 3675, 12) == log2_digits(2324990933, 7351, 11));
    assert(log2_digits(2324990933, 7351, 11) == log2_digits(2517170663, 14702, 10));
    assert(log2_digits(2517170663, 14702, 10) == log2_digits(2950498902, 29404, 9));
    assert(log2_digits(2950498902, 29404, 9) == log2_digits(4053788152, 58808, 8));
    assert(log2_digits(4053788152, 58808, 8) == log2_digits(3826152156, 117617, 7));
    assert(log2_digits(3826152156, 117617, 7) == log2_digits(3408510312, 235235, 6));
    assert(log2_digits(3408510312, 235235, 6) == log2_digits(2705013041, 470471, 5));
    assert(log2_digits(2705013041, 470471, 5) == log2_digits(3407288134, 940942, 4));
    assert(log2_digits(3407288134, 940942, 4) == log2_digits(2703073534, 1881885, 3));
    assert(log2_digits(2703073534, 1881885, 3) == log2_digits(3402403802, 3763770, 2));
    assert(log2_digits(3402403802, 3763770, 2) == log2_digits(2695329401, 7527541, 1));
    assert(log2_digits(2695329401, 7527541, 1) == log2_digits(3382936390, 15055082, 0));
}

/// At a power of ten the logarithm is the exponent, in millionths, to
/// within the last digit kept: exact at one, and at most one millionth
/// below the exponent elsewhere.
pub proof fn lemma_log10_of_powers_of_ten()
    ensures
        log10_millionths(1) == 0,
        999_999 <= log10_millionths(10) <= 1_000_000,
        1_999_999 <= log10_millionths(100) <= 2_000_000,
        2_999_999 <= log10_millionths(1_000) <= 3_000_000,
        3_999_999 <= log10_millionths(10_000) <= 4_000_000,
        4_999_999 <= log10_millionths(100_000) <= 5_000_000,
        5_999_999 <= log10_millionths(1_000_000) <= 6_000_000,
        6_999_999 <= log10_millionths(10_000_000) <= 7_000_000,
        7_999_999 <= log10_millionths(100_000_000) <= 8_000_000,
        8_999_999 <= log10_millionths(1_000_000_000) <= 9_000_000,
{
    lemma_log2_digits_of_one();
    lemma_log2_digits_of_ten();
    lemma_log2_digits_of_a_hundred();
    lemma_log2_digits_of_a_thousand();
    lemma_log2_digits_of_ten_thousand();
    lemma_log2_digits_of_a_hundred_thousand();
    lemma_log2_digits_of_a_million();
    lemma_log2_digits_of_ten_million();
    lemma_log2_digits_of_a_hundred_million();
    lemma_log2_digits_of_a_billion();
}

/// The logarithm to base ten of `value`, in millionths.
pub fn evaluate_log10(value: u32) -> (r: i64)
    ensures
        r == log10_millionths(value),
        0 <= r < 0x100_0000,
{
    if value == 0 {
        return 0;
    }
    let mut m: u64 = value as u64 * 0x8000_0000;
    let mut e: u64 = 0;
    if m >= 0x8000_0000_0000 {
        m = m / 0x1_0000;
        e = e + 16;
    }
    if m >= 0x80_0000_0000 {
        m = m / 0x100;
        e = e + 8;
    }
    if m >= 0x8_0000_0000 {
        m = m / 0x10;
        e = e + 4;
    }
    if m >= 0x2_0000_0000 {
        m = m / 4;
        e = e + 2;
    }
    if m >= 0x1_0000_0000 {
        m = m / 2;
        e = e + 1;
    }
    let ghost m0 = m;
    let mut digits: u64 = 0;
    proof {
        lemma2_to64();
    }
    for k in 0..24u32
        invariant
            0x8000_0000 <= m < 0x1_0000_0000,
            digits < pow2(k as nat),
            pow2(24) == 0x100_0000,
            log2_digits(m0 as int, 0, 24) == log2_digits(m as int, digits as int, (24 - k) as nat),
    {
        proof {
            lemma_pow2_unfold((k + 1) as nat);
            lemma_pow2_strictly_increases(k as nat, 24);
        }
        assert(0x4000_0000_0000_0000 <= m * m <= 0xffff_fffe_0000_0001) by (nonlinear_arith)
            requires
                0x8000_0000 <= m < 0x1_0000_0000,
        ;
        let square: u64 = m * m / 0x8000_0000;
        if square >= 0x1_0000_0000 {
            m = square / 2;
            digits = 2 * digits + 1;
        } else {
            m = square;
            digits = 2 * digits;
        }
    }
    let scaled: u128 = (e as u128 * 0x100_0000 + digits as u128) * 315652828733;
    (scaled / 0x1000_0000_0000) as i64
}

/// What one estimated chain link is worth: a hundred thousand points.
pub const CHAIN_WEIGHT: i64 = 100_000 * SCORE_UNIT;

/// What a knight's-move pair and a jump pair are worth: twenty and ten
/// points.
pub const KEIMA_WEIGHT: i64 = 20 * SCORE_UNIT;

pub const JUMP_WEIGHT: i64 = 10 * SCORE_UNIT;

/// What a numbered neighbour is worth: a tenth of a point.
pub const NEIGHBOR_WEIGHT: i64 = 100_000;

/// What a block that is not an obstacle is worth: a thousand points for the
/// player's own search (`kind == 0`), a tenth more otherwise.
pub open spec fn live_weight(kind: usize) -> int {
    if kind == 0 {
        1000 * SCORE_UNIT
    } else {
        1100 * SCORE_UNIT
    }
}

/// The weight of the small positional terms: a hundredth of a point for
/// the player's own search (`kind == 0`), a tenth otherwise.
pub open spec fn position_weight(kind: usize) -> int {
    if kind == 0 {
        SCORE_UNIT / 100
    } else {
        SCORE_UNIT / 10
    }
}

/// How far column `x` is from the nearer side wall.
pub open spec fn centrality(x: int) -> int {
    if x >= 5 {
        9 - x
    } else {
        x
    }
}

/// The number of numbered blocks among the four neighbours to the lower
/// right, the right, the upper right and above.
pub open spec fn forward_neighbors(g: Grid, y: int, x: int) -> int {
    count_of(y >= 1 && x + 1 < FIELD_WIDTH && is_numbered(g[y - 1][x + 1])) + count_of(
        x + 1 < FIELD_WIDTH && is_numbered(g[y][x + 1]),
    ) + count_of(y + 1 < FIELD_HEIGHT && x + 1 < FIELD_WIDTH && is_numbered(g[y + 1][x + 1]))
        + count_of(y + 1 < FIELD_HEIGHT && is_numbered(g[y + 1][x]))
}

/// What the block at `(y, x)` adds to the score for where it stands: more
/// towards the centre, and, unless it is an obstacle, for each numbered
/// block ahead of it.
pub open spec fn cell_term(g: Grid, kind: usize, y: int, x: int) -> int {
    centrality(x) * position_weight(kind) + if g[y][x] != OBSTACLE_BLOCK {
        forward_neighbors(g, y, x) * NEIGHBOR_WEIGHT
    } else {
        0
    }
}

/// The score of a board's shape: its blocks that are not obstacles, its
/// knight's-move and jump pairs, and small terms for height, centrality and
/// numbered neighbours.
pub open spec fn shape_score(g: Grid, heights: Seq<usize>, kind: usize) -> int {
    stack_count(g, heights, FIELD_WIDTH as int, false) * live_weight(kind) + stacks_sum(
        |y: int, x: int| keima_at(g, y, x),
        heights,
        FIELD_WIDTH as int,
    ) * KEIMA_WEIGHT + stacks_sum(
        |y: int, x: int| count_of(jump_at(g, y, x)),
        heights,
        FIELD_WIDTH as int,
    ) * JUMP_WEIGHT + height_sum(heights, FIELD_WIDTH as int) * position_weight(kind) + stacks_sum(
        |y: int, x: int| cell_term(g, kind, y, x),
        heights,
        FIELD_WIDTH as int,
    )
}

/// The largest value the shape score takes.
pub const MAX_SHAPE_SCORE: i64 = 300_000 * SCORE_UNIT;

proof fn lemma_height_sum_bound(heights: Seq<usize>, n: int)
    requires
        0 <= n <= heights.len(),
        forall|x: int| 0 <= x < heights.len() ==> #[trigger] heights[x] <= FIELD_HEIGHT,
    ensures
        0 <= height_sum(heights, n) <= n * FIELD_HEIGHT,
    decreases n,
{
    if n > 0 {
        lemma_height_sum_bound(heights, n - 1);
    }
}

proof fn lemma_cell_term_bound(g: Grid, kind: usize, y: int, x: int)
    requires
        0 <= x < FIELD_WIDTH,
    ensures
        0 <= cell_term(g, kind, y, x) <= 800_000,
{
    let c = centrality(x);
    let w = position_weight(kind);
    assert(0 <= c * w <= 400_000) by (nonlinear_arith)
        requires
            0 <= c <= 4,
            0 <= w <= 100_000,
    ;
}

/// The sum of the positional terms of the stacks.
fn evaluate_positions(board: &Board, kind: usize) -> (r: i64)
    requires
        forall|x: int| 0 <= x < FIELD_WIDTH ==> #[trigger] board.heights[x] <= FIELD_HEIGHT,
    ensures
        r == height_sum(board.heights@, FIELD_WIDTH as int) * position_weight(kind) + stacks_sum(
            |y: int, x: int| cell_term(board@, kind, y, x),
            board.heights@,
            FIELD_WIDTH as int,
        ),
        0 <= r <= 200 * SCORE_UNIT,
{
    let mut score: i64 = 0;
    let ghost g = board@;
    let ghost h = board.heights@;
    let ghost f = |y: int, x: int| cell_term(g, kind, y, x);
    let weight: i64 = if kind == 0 {
        10_000
    } else {
        100_000
    };
    for x in 0..FIELD_WIDTH
        invariant
            g == board@,
            h == board.heights@,
            f == |y: int, x: int| cell_term(g, kind, y, x),
            weight == position_weight(kind),
            forall|i: int| 0 <= i < FIELD_WIDTH ==> #[trigger] board.heights[i] <= FIELD_HEIGHT,
            score == height_sum(h, x as int) * weight + stacks_sum(f, h, x as int),
    {
        let height = board.heights[x];
        proof {
            assert forall|r: int, c: int| 0 <= r < FIELD_HEIGHT && 0 <= c < x implies 0
                <= #[trigger] f(r, c) <= 800_000 by {
                lemma_cell_term_bound(g, kind, r, c);
            }
            lemma_stacks_sum_bound(f, h, x as int, 800_000);
            lemma_height_sum_bound(h, x as int);
            assert(height_sum(h, x as int) * weight <= x * FIELD_HEIGHT * 100_000)
                by (nonlinear_arith)
                requires
                    0 <= height_sum(h, x as int) <= x * FIELD_HEIGHT,
                    0 <= weight <= 100_000,
            ;
            assert(0 <= height_sum(h, x as int) * weight) by (nonlinear_arith)
                requires
                    0 <= height_sum(h, x as int),
                    0 <= weight,
            ;
            assert(height_sum(h, x + 1) * weight == height_sum(h, x as int) * weight + height
                * weight) by (nonlinear_arith)
                requires
                    height_sum(h, x + 1) == height_sum(h, x as int) + height,
            ;
            assert(0 <= height * weight <= 1_900_000) by (nonlinear_arith)
                requires
                    0 <= height <= 19,
                    0 <= weight <= 100_000,
            ;
        }
        score += height as i64 * weight;
        let center: i64 = if x >= 5 {
            (9 - x) as i64
        } else {
            x as i64
        };
        for y in 0..height
            invariant
                x < FIELD_WIDTH,
                height == h[x as int],
                height <= FIELD_HEIGHT,
                g == board@,
                h == board.heights@,
                f == |y: int, x: int| cell_term(g, kind, y, x),
                weight == position_weight(kind),
                center == centrality(x as int),
                0 <= height_sum(h, x + 1) * weight <= (x + 1) * FIELD_HEIGHT * 100_000,
                0 <= stacks_sum(f, h, x as int) <= x * FIELD_HEIGHT * 800_000,
                score == height_sum(h, x + 1) * weight + stacks_sum(f, h, x as int) + column_sum(
                    f,
                    x as int,
                    y as int,
                ),
        {
            proof {
                assert forall|r: int| 0 <= r < y implies 0 <= #[trigger] f(r, x as int)
                    <= 800_000 by {
                    lemma_cell_term_bound(g, kind, r, x as int);
                }
                lemma_column_sum_bound(f, x as int, y as int, 0, 800_000);
                assert(0 <= center * weight <= 400_000) by (nonlinear_arith)
                    requires
                        0 <= center <= 4,
                        0 <= weight <= 100_000,
                ;
            }
            let block = board.get(y, x);
            let mut term: i64 = center * weight;
            if block != OBSTACLE_BLOCK {
                if y >= 1 && x + 1 < FIELD_WIDTH {
                    let target_block = board.get(y - 1, x + 1);
                    if target_block != OBSTACLE_BLOCK && target_block != EMPTY_BLOCK {
                        term += NEIGHBOR_WEIGHT;
                    }
                }
                if x + 1 < FIELD_WIDTH {
                    let target_block = board.get(y, x + 1);
                    if target_block != OBSTACLE_BLOCK && target_block != EMPTY_BLOCK {
                        term += NEIGHBOR_WEIGHT;
                    }
                }
                if y + 1 < FIELD_HEIGHT && x + 1 < FIELD_WIDTH {
                    let target_block = board.get(y + 1, x + 1);
                    if target_block != OBSTACLE_BLOCK && target_block != EMPTY_BLOCK {
                        term += NEIGHBOR_WEIGHT;
                    }
                }
                if y + 1 < FIELD_HEIGHT {
                    let target_block = board.get(y + 1, x);
                    if target_block != OBSTACLE_BLOCK && target_block != EMPTY_BLOCK {
                        term += NEIGHBOR_WEIGHT;
                    }
                }
            }
            assert(term == cell_term(g, kind, y as int, x as int));
            score += term;
        }
    }
    proof {
        assert forall|r: int, c: int| 0 <= r < FIELD_HEIGHT && 0 <= c < FIELD_WIDTH implies 0
            <= #[trigger] f(r, c) <= 800_000 by {
            lemma_cell_term_bound(g, kind, r, c);
        }
        lemma_stacks_sum_bound(f, h, FIELD_WIDTH as int, 800_000);
        lemma_height_sum_bound(h, FIELD_WIDTH as int);
        assert(0 <= height_sum(h, FIELD_WIDTH as int) * weight <= 19_000_000) by (nonlinear_arith)
            requires
                0 <= height_sum(h, FIELD_WIDTH as int) <= 190,
                0 <= weight <= 100_000,
        ;
    }
    score
}

/// The score of the board's shape, in millionths of a point.
pub fn evaluate_shape(board: &Board, kind: usize) -> (r: i64)
    requires
        forall|x: int| 0 <= x < FIELD_WIDTH ==> #[trigger] board.heights[x] <= FIELD_HEIGHT,
    ensures
        r == shape_score(board@, board.heights@, kind),
        0 <= r <= MAX_SHAPE_SCORE,
{
    let (live_block_count, _) = board.count_blocks();
    let (keima, jump, _) = evaluate_pattern_match_cnt(board);
    let positions = evaluate_positions(board, kind);
    proof {
        lemma_stack_count_bound(board@, board.heights@, FIELD_WIDTH as int, false);
    }
    let live: i64 = if kind == 0 {
        live_block_count as i64 * 1_000_000_000
    } else {
        live_block_count as i64 * 1_100_000_000
    };
    live + keima as i64 * KEIMA_WEIGHT + jump as i64 * JUMP_WEIGHT + positions
}

/// Some cell next to `c`, by a side or a corner, is empty.
pub open spec fn has_empty_neighbor(g: Grid, c: Cell) -> bool {
    exists|d: Cell| on_board(d) && #[trigger] adjacent(c, d) && g[d.0][d.1] == EMPTY_BLOCK
}

/// A numbered block of a stack that touches an empty cell.
pub open spec fn exposed(g: Grid, heights: Seq<usize>, c: Cell) -> bool {
    &&& on_board(c)
    &&& c.0 < heights[c.1]
    &&& is_numbered(g[c.0][c.1])
    &&& has_empty_neighbor(g, c)
}

/// The length of the chain that follows if the block at `c` alone is taken
/// away, its own removal counted as the first pass.
pub open spec fn chain_after_erasing(g: Grid, c: Cell) -> nat {
    let e = set![c];
    let after = settle(erase(g, e));
    cascade(after, moved(e, after)).1 + 1
}

/// The cell with number `k` when the stacks are walked column by column,
/// each from the bottom.
pub open spec fn cell_in_column_order(k: int) -> Cell {
    (k % (FIELD_HEIGHT as int), k / (FIELD_HEIGHT as int))
}

/// The longest chain that taking away one exposed block can start, among
/// the first `k` cells in column order; zero if none of them is exposed.
pub open spec fn erasing_all_upto(g: Grid, heights: Seq<usize>, k: int) -> nat
    decreases k,
{
    if k <= 0 {
        0
    } else {
        let rest = erasing_all_upto(g, heights, k - 1);
        let c = cell_in_column_order(k - 1);
        if exposed(g, heights, c) && chain_after_erasing(g, c) > rest {
            chain_after_erasing(g, c)
        } else {
            rest
        }
    }
}

/// The longest chain that taking away one exposed block can start: an upper
/// estimate of what the board can fire.
pub open spec fn erasing_all_estimate(g: Grid, heights: Seq<usize>) -> nat {
    erasing_all_upto(g, heights, (FIELD_WIDTH * FIELD_HEIGHT) as int)
}

proof fn lemma_erasing_all_upto(g: Grid, heights: Seq<usize>, k: int)
    requires
        0 <= k,
    ensures
        forall|j: int|
            0 <= j < k && exposed(g, heights, cell_in_column_order(j)) ==> chain_after_erasing(
                g,
                #[trigger] cell_in_column_order(j),
            ) <= erasing_all_upto(g, heights, k),
        erasing_all_upto(g, heights, k) > 0 ==> exists|j: int|
            0 <= j < k && exposed(g, heights, cell_in_column_order(j)) && chain_after_erasing(
                g,
                #[trigger] cell_in_column_order(j),
            ) == erasing_all_upto(g, heights, k),
    decreases k,
{
    if k > 0 {
        lemma_erasing_all_upto(g, heights, k - 1);
        let rest = erasing_all_upto(g, heights, k - 1);
        let now = erasing_all_upto(g, heights, k);
        let c = cell_in_column_order(k - 1);
        if now > 0 {
            if exposed(g, heights, c) && chain_after_erasing(g, c) > rest {
                assert(chain_after_erasing(g, cell_in_column_order(k - 1)) == now);
            } else {
                let j = choose|j: int|
                    0 <= j < k - 1 && exposed(g, heights, cell_in_column_order(j))
                        && chain_after_erasing(g, #[trigger] cell_in_column_order(j)) == rest;
                assert(chain_after_erasing(g, cell_in_column_order(j)) == now);
            }
        }
    }
}

/// The erase-one estimate is the longest chain that taking away one exposed
/// block starts: no exposed block starts a longer one, and unless the
/// estimate is zero some exposed block starts one of just that length.
pub proof fn lemma_erasing_all_is_maximum(g: Grid, heights: Seq<usize>)
    ensures
        forall|c: Cell| #[trigger]
            exposed(g, heights, c) ==> chain_after_erasing(g, c) <= erasing_all_estimate(g, heights),
        erasing_all_estimate(g, heights) > 0 ==> exists|c: Cell| #[trigger]
            exposed(g, heights, c) && chain_after_erasing(g, c) == erasing_all_estimate(g, heights),
{
    let total = (FIELD_WIDTH * FIELD_HEIGHT) as int;
    lemma_erasing_all_upto(g, heights, total);
    assert forall|c: Cell| #[trigger] exposed(g, heights, c) implies chain_after_erasing(g, c)
        <= erasing_all_estimate(g, heights) by {
        let j = c.1 * FIELD_HEIGHT + c.0;
        assert(cell_in_column_order(j) == c);
    }
    if erasing_all_estimate(g, heights) > 0 {
        let j = choose|j: int|
            0 <= j < total && exposed(g, heights, cell_in_column_order(j)) && chain_after_erasing(
                g,
                #[trigger] cell_in_column_order(j),
            ) == erasing_all_upto(g, heights, total);
        assert(exposed(g, heights, cell_in_column_order(j)));
    }
}

/// The piece that holds the single block `n`, in its bottom left cell, or
/// in its bottom right cell where it is meant for the last column.
pub open spec fn single_pack(x: int, n: u8) -> Seq<u8> {
    if x != FIELD_WIDTH - 1 {
        seq![0u8, 0u8, n, 0u8]
    } else {
        seq![0u8, 0u8, 0u8, n]
    }
}

/// The column on which to drop `single_pack(x, n)` for its block to land
/// on column `x`.
pub open spec fn single_point(x: int) -> int {
    if x != FIELD_WIDTH - 1 {
        x
    } else {
        x - 1
    }
}

/// The length of the chain that a single block `n` dropped on column `x`
/// sets off.
pub open spec fn single_drop_chain(g: Grid, heights: Seq<usize>, x: int, n: u8) -> nat {
    simulated(g, heights, single_point(x), single_pack(x, n)).1
}

/// Column `x` stands more than one row above both its neighbours: a block
/// dropped on it touches nothing beside it.
pub open spec fn towers(heights: Seq<usize>, x: int) -> bool {
    &&& x > 0 ==> heights[x] > heights[x - 1] + 1
    &&& x < FIELD_WIDTH - 1 ==> heights[x] > heights[x + 1] + 1
}

/// A block `n` dropped on column `x` would lie next to a numbered block
/// that completes it to ten. The cell straight above the landing cell does
/// not count.
pub open spec fn completes(g: Grid, heights: Seq<usize>, x: int, n: int) -> bool {
    let top = (heights[x] as int, x);
    exists|d: Cell|
        on_board(d) && #[trigger] adjacent(top, d) && d != (top.0 + 1, top.1) && is_numbered(
            g[d.0][d.1],
        ) && g[d.0][d.1] + n == ERASING_SUM
}

/// The column and the number that candidate `k` tries: nine numbers for
/// each of the ten columns.
pub open spec fn candidate_column(k: int) -> int {
    k / 9
}

pub open spec fn candidate_number(k: int) -> u8 {
    (k % 9 + 1) as u8
}

/// The chain that candidate `k` sets off; zero where the column towers or
/// the number completes nothing.
pub open spec fn candidate_chain(g: Grid, heights: Seq<usize>, k: int) -> nat {
    let x = candidate_column(k);
    let n = candidate_number(k);
    if !towers(heights, x) && completes(g, heights, x, n as int) {
        single_drop_chain(g, heights, x, n)
    } else {
        0
    }
}

/// The longest chain among the first `k` candidates and the number of
/// candidates that reach it; `(0, 0)` if none sets off a chain.
pub open spec fn max_chain_upto(g: Grid, heights: Seq<usize>, k: int) -> (nat, nat)
    decreases k,
{
    if k <= 0 {
        (0, 0)
    } else {
        let rest = max_chain_upto(g, heights, k - 1);
        let chain = candidate_chain(g, heights, k - 1);
        if chain > 0 && chain > rest.0 {
            (chain, 1)
        } else if chain > 0 && chain == rest.0 {
            (rest.0, rest.1 + 1)
        } else {
            rest
        }
    }
}

/// The longest chain that dropping one single block can set off, and how
/// many of the drops tried reach that length.
pub open spec fn max_chain_estimate(g: Grid, heights: Seq<usize>) -> (nat, nat) {
    max_chain_upto(g, heights, 9 * FIELD_WIDTH as int)
}

/// The single-drop estimate is the longest chain among the candidates: no
/// candidate sets off a longer one, unless the estimate is zero some
/// candidate sets off one of just that length, and a candidate is counted
/// only where there is a chain.
pub proof fn lemma_max_chain_is_maximum(g: Grid, heights: Seq<usize>, k: int)
    requires
        0 <= k,
    ensures
        forall|j: int| 0 <= j < k ==> #[trigger] candidate_chain(g, heights, j) <= max_chain_upto(
            g,
            heights,
            k,
        ).0,
        max_chain_upto(g, heights, k).0 > 0 ==> exists|j: int|
            0 <= j < k && #[trigger] candidate_chain(g, heights, j) == max_chain_upto(g, heights, k).0,
        max_chain_upto(g, heights, k).0 == 0 <==> max_chain_upto(g, heights, k).1 == 0,
    decreases k,
{
    if k > 0 {
        lemma_max_chain_is_maximum(g, heights, k - 1);
        let rest = max_chain_upto(g, heights, k - 1);
        let now = max_chain_upto(g, heights, k);
        let chain = candidate_chain(g, heights, k - 1);
        if now.0 > 0 {
            if chain > 0 && chain >= rest.0 {
                assert(candidate_chain(g, heights, k - 1) == now.0);
            } else {
                let j = choose|j: int|
                    0 <= j < k - 1 && #[trigger] candidate_chain(g, heights, j) == rest.0;
                assert(candidate_chain(g, heights, j) == now.0);
            }
        }
    }
}

/// No column of the board is full.
pub open spec fn has_headroom(heights: Seq<usize>) -> bool {
    forall|x: int| 0 <= x < FIELD_WIDTH ==> #[trigger] heights[x] < FIELD_HEIGHT
}

proof fn lemma_max_chain_bound(g: Grid, heights: Seq<usize>, k: int)
    requires
        0 <= k,
    ensures
        max_chain_upto(g, heights, k).1 <= k,
        max_chain_upto(g, heights, k).0 > 0 ==> max_chain_upto(g, heights, k).1 > 0,
    decreases k,
{
    if k > 0 {
        lemma_max_chain_bound(g, heights, k - 1);
    }
}

/// Whether some cell next to `(y, x)` is empty.
fn touches_empty(board: &Board, y: usize, x: usize) -> (r: bool)
    requires
        y < FIELD_HEIGHT,
        x < FIELD_WIDTH,
    ensures
        r == has_empty_neighbor(board@, (y as int, x as int)),
{
    let ghost c = (y as int, x as int);
    let ghost g = board@;
    let mut found = false;
    for k in 0..8usize
        invariant
            y < FIELD_HEIGHT,
            x < FIELD_WIDTH,
            c == (y as int, x as int),
            g == board@,
            found == exists|j: int|
                0 <= j < k && on_board(#[trigger] neighbor(c, j)) && g[neighbor(c, j).0][neighbor(
                    c,
                    j,
                ).1] == EMPTY_BLOCK,
    {
        let d = DIRECTION_YXS[k];
        let ny: i8 = y as i8 + d.0;
        let nx: i8 = x as i8 + d.1;
        if is_on_board(ny, nx) {
            if board.get(ny as usize, nx as usize) == EMPTY_BLOCK {
                found = true;
                assert(on_board(neighbor(c, k as int)));
            }
        }
    }
    proof {
        if found {
            let j = choose|j: int|
                0 <= j < 8 && on_board(#[trigger] neighbor(c, j)) && g[neighbor(c, j).0][neighbor(
                    c,
                    j,
                ).1] == EMPTY_BLOCK;
            assert(adjacent(c, neighbor(c, j)));
        }
        if has_empty_neighbor(g, c) {
            let d = choose|d: Cell| on_board(d) && #[trigger] adjacent(c, d) && g[d.0][d.1] == EMPTY_BLOCK;
            lemma_adjacent_direction(c, d);
            let j = choose|j: int| 0 <= j < 8 && #[trigger] neighbor(c, j) == d;
            assert(on_board(neighbor(c, j)));
        }
    }
    found
}

/// The longest chain that taking away one exposed block of the board can
/// start.
pub fn compute_erasing_all_max_chain_count(simulator: &mut Simulator, board: &Board) -> (r: u8)
    requires
        board.wf(),
    ensures
        r == erasing_all_estimate(board@, board.heights@),
{
    let mut max_chain_count: u8 = 0;
    let ghost g = board@;
    let ghost h = board.heights@;
    for x in 0..FIELD_WIDTH
        invariant
            board.wf(),
            g == board@,
            h == board.heights@,
            max_chain_count == erasing_all_upto(g, h, x * FIELD_HEIGHT),
            max_chain_count <= FIELD_WIDTH * FIELD_HEIGHT,
    {
        for y in 0..FIELD_HEIGHT
            invariant
                x < FIELD_WIDTH,
                board.wf(),
                g == board@,
                h == board.heights@,
                max_chain_count == erasing_all_upto(g, h, x * FIELD_HEIGHT + y),
                max_chain_count <= FIELD_WIDTH * FIELD_HEIGHT,
        {
            let ghost c = (y as int, x as int);
            assert(cell_in_column_order(x * FIELD_HEIGHT + y) == c);
            if y < board.heights[x] {
                let block = board.get(y, x);
                if block != OBSTACLE_BLOCK && block != EMPTY_BLOCK && touches_empty(board, y, x) {
                    let mut simulated_board = *board;
                    simulator.init();
                    simulator.set_erase_block(y, x);
                    proof {
                        let e = simulator.erasing();
                        assert(e[0] == (y, x));
                        assert forall|p: Cell| cells_of(e).contains(p) == set![c].contains(p) by {
                            if listed(e, p.0, p.1) {
                                let i = choose|i: int|
                                    0 <= i < e.len() && (#[trigger] e[i]).0 == p.0 && e[i].1 == p.1;
                                assert(i == 0);
                            }
                            if p == c {
                                assert(e[0].0 == p.0);
                            }
                        }
                        assert(cells_of(e) =~= set![c]);
                        lemma_occupied_is_height_sum(g, h, FIELD_WIDTH as int);
                    }
                    simulator.apply_erase_blocks(&mut simulated_board);
                    let chain_count = simulator.calculate_chain_count(&mut simulated_board);
                    if chain_count + 1 > max_chain_count {
                        max_chain_count = chain_count + 1;
                    }
                }
            }
        }
    }
    max_chain_count
}

/// Block `n` would complete one of the first `k` neighbours of the landing
/// cell of column `x`, the one straight above left out.
spec fn wanted_by(g: Grid, heights: Seq<usize>, x: int, n: int, k: int) -> bool {
    let top = (heights[x] as int, x);
    exists|j: int|
        0 <= j < k && j != 6 && on_board(#[trigger] neighbor(top, j)) && is_numbered(
            g[neighbor(top, j).0][neighbor(top, j).1],
        ) && g[neighbor(top, j).0][neighbor(top, j).1] + n == ERASING_SUM
}

proof fn lemma_wanted_all(g: Grid, heights: Seq<usize>, x: int, n: int)
    ensures
        wanted_by(g, heights, x, n, 8) == completes(g, heights, x, n),
{
    let top = (heights[x] as int, x);
    if wanted_by(g, heights, x, n, 8) {
        let j = choose|j: int|
            0 <= j < 8 && j != 6 && on_board(#[trigger] neighbor(top, j)) && is_numbered(
                g[neighbor(top, j).0][neighbor(top, j).1],
            ) && g[neighbor(top, j).0][neighbor(top, j).1] + n == ERASING_SUM;
        let d = neighbor(top, j);
        assert(adjacent(top, d));
        assert(d != (top.0 + 1, top.1));
    }
    if completes(g, heights, x, n) {
        let d = choose|d: Cell|
            on_board(d) && #[trigger] adjacent(top, d) && d != (top.0 + 1, top.1) && is_numbered(
                g[d.0][d.1],
            ) && g[d.0][d.1] + n == ERASING_SUM;
        lemma_adjacent_direction(top, d);
        let j = choose|j: int| 0 <= j < 8 && #[trigger] neighbor(top, j) == d;
        assert(neighbor(top, 6) == (top.0 + 1, top.1));
        assert(on_board(neighbor(top, j)));
    }
}

/// The numbers that would complete a neighbour of the landing cell of
/// column `x`: entry `n` of the result says whether `n` is one.
fn completing_numbers(board: &Board, x: usize) -> (wanted: [bool; 10])
    requires
        x < FIELD_WIDTH,
        board.heights[x as int] < FIELD_HEIGHT,
    ensures
        forall|n: int| 0 <= n < 10 ==> #[trigger] wanted[n] == completes(board@, board.heights@, x as int, n),
{
    let mut wanted: [bool; 10] = [false;10];
    let y = board.heights[x];
    let ghost g = board@;
    let ghost h = board.heights@;
    let ghost top = (y as int, x as int);
    for k in 0..8usize
        invariant
            x < FIELD_WIDTH,
            y < FIELD_HEIGHT,
            g == board@,
            h == board.heights@,
            y == h[x as int],
            top == (y as int, x as int),
            forall|n: int| 0 <= n < 10 ==> #[trigger] wanted[n] == wanted_by(g, h, x as int, n, k as int),
    {
        let d = DIRECTION_YXS[k];
        let ny: i8 = y as i8 + d.0;
        let nx: i8 = x as i8 + d.1;
        let ghost before = wanted;
        let ghost nb = neighbor(top, k as int);
        let mut num: usize = 10;
        if k != 6 && is_on_board(ny, nx) {
            let neighbor_block = board.get(ny as usize, nx as usize);
            if neighbor_block != EMPTY_BLOCK && neighbor_block != OBSTACLE_BLOCK && neighbor_block
                <= ERASING_SUM {
                num = (ERASING_SUM - neighbor_block) as usize;
                wanted[num] = true;
            }
        }
        proof {
            assert forall|n: int| 0 <= n < 10 implies #[trigger] wanted[n] == wanted_by(
                g,
                h,
                x as int,
                n,
                k + 1,
            ) by {
                assert(wanted[n] == (before[n] || n == num));
                let now = k != 6 && on_board(nb) && is_numbered(g[nb.0][nb.1]) && g[nb.0][nb.1] + n
                    == ERASING_SUM;
                assert(now == (n == num));
                if wanted_by(g, h, x as int, n, k + 1) {
                    let j = choose|j: int|
                        0 <= j < k + 1 && j != 6 && on_board(#[trigger] neighbor(top, j))
                            && is_numbered(g[neighbor(top, j).0][neighbor(top, j).1]) && g[neighbor(
                            top,
                            j,
                        ).0][neighbor(top, j).1] + n == ERASING_SUM;
                    if j < k {
                        assert(on_board(neighbor(top, j)));
                        assert(wanted_by(g, h, x as int, n, k as int));
                    }
                }
                if wanted_by(g, h, x as int, n, k as int) {
                    let j = choose|j: int|
                        0 <= j < k && j != 6 && on_board(#[trigger] neighbor(top, j)) && is_numbered(
                            g[neighbor(top, j).0][neighbor(top, j).1],
                        ) && g[neighbor(top, j).0][neighbor(top, j).1] + n == ERASING_SUM;
                    assert(on_board(neighbor(top, j)));
                }
                if now {
                    assert(on_board(neighbor(top, k as int)));
                }
            }
        }
    }
    proof {
        assert forall|n: int| 0 <= n < 10 implies #[trigger] wanted[n] == completes(
            g,
            h,
            x as int,
            n,
        ) by {
            lemma_wanted_all(g, h, x as int, n);
        }
    }
    wanted
}

/// The longest chain that dropping one single block on the board can set
/// off, and how many of the drops tried reach that length.
pub fn compute_max_chain_count(simulator: &mut Simulator, board: &Board) -> (r: (u8, u8))
    requires
        board.wf(),
        has_headroom(board.heights@),
    ensures
        (r.0 as nat, r.1 as nat) == max_chain_estimate(board@, board.heights@),
{
    let mut estimated_max_chain: (u8, u8) = (0, 0);
    let ghost g = board@;
    let ghost h = board.heights@;
    for x in 0..FIELD_WIDTH
        invariant
            board.wf(),
            has_headroom(board.heights@),
            g == board@,
            h == board.heights@,
            (estimated_max_chain.0 as nat, estimated_max_chain.1 as nat) == max_chain_upto(g, h, 9 * x),
    {
        let y = board.heights[x];
        let mut open = false;
        if x > 0 {
            if y <= board.heights[x - 1] + 1 {
                open = true;
            }
        }
        if x < FIELD_WIDTH - 1 {
            if y <= board.heights[x + 1] + 1 {
                open = true;
            }
        }
        assert(open == !towers(h, x as int));
        let wanted = completing_numbers(board, x);
        for n in 1..10u8
            invariant
                x < FIELD_WIDTH,
                board.wf(),
                has_headroom(board.heights@),
                g == board@,
                h == board.heights@,
                open == !towers(h, x as int),
                forall|m: int| 0 <= m < 10 ==> #[trigger] wanted[m] == completes(g, h, x as int, m),
                (estimated_max_chain.0 as nat, estimated_max_chain.1 as nat) == max_chain_upto(
                    g,
                    h,
                    9 * x + n - 1,
                ),
        {
            let ghost k = 9 * x + n - 1;
            proof {
                assert(candidate_column(k) == x);
                assert(candidate_number(k) == n);
                lemma_max_chain_bound(g, h, k);
            }
            if open && wanted[n as usize] {
                let mut pack = Pack::default();
                let mut point = x;
                if x != FIELD_WIDTH - 1 {
                    pack.set(2, n);
                } else {
                    point = x - 1;
                    pack.set(3, n);
                }
                proof {
                    assert(pack@ =~= single_pack(x as int, n));
                    lemma_stack_two(pack@[2], pack@[0]);
                    lemma_stack_two(pack@[3], pack@[1]);
                }
                let mut simulated_board = *board;
                let chain_count = simulator.simulate(&mut simulated_board, point, &pack);
                if chain_count > 0 {
                    if chain_count > estimated_max_chain.0 {
                        estimated_max_chain = (chain_count, 1);
                    } else if chain_count == estimated_max_chain.0 {
                        estimated_max_chain = (estimated_max_chain.0, estimated_max_chain.1 + 1);
                    }
                }
            }
        }
    }
    estimated_max_chain
}

/// The most a move's gain counts for: what a chain of the lethal length
/// sends.
pub open spec fn fatal_gain() -> int {
    (CHAIN_CUMULATIVE_SCORES[DEFAULT_FATAL_FIRE_MAX_CHAIN_COUNT as int] / 2) as int
}

/// The most a move's gain counts for while hunting the opponent's special:
/// what a chain of three sends.
pub open spec fn bomber_gain() -> int {
    (CHAIN_CUMULATIVE_SCORES[3] / 2) as int
}

pub open spec fn min_of(a: int, b: int) -> int {
    if a <= b {
        a
    } else {
        b
    }
}

/// A score discounted for lying `depth` moves ahead, rounded towards zero.
pub open spec fn discounted(score: int, depth: int) -> int {
    if score >= 0 {
        score * GAME_SCORE_DEPTH_RATES[depth] / 1_000_000_000
    } else {
        -((-score) * GAME_SCORE_DEPTH_RATES[depth] / 1_000_000_000)
    }
}

/// What a gain of `game_score` points `depth` moves ahead is worth, in
/// millionths: the gain, capped at the lethal gain, discounted by depth,
/// plus its logarithm to base ten.
pub open spec fn depth_score(game_score: u32, depth: int) -> int {
    discounted(min_of(fatal_gain(), game_score as int) * SCORE_UNIT, depth) + log10_millionths(
        game_score,
    )
}

/// What a chain of `chain_count` is worth `depth` moves ahead while hunting
/// the opponent's special: chains of one and two barely count, a chain of
/// one a little more than a chain of two; longer chains count by their
/// score, capped at what a chain of three sends, and discounted by depth.
pub open spec fn bomber_score(chain_count: u8, depth: int) -> int {
    if chain_count == 1 {
        2
    } else if chain_count == 2 {
        1
    } else {
        discounted(
            min_of(bomber_gain(), CHAIN_CUMULATIVE_SCORES[chain_count as int] as int) * SCORE_UNIT,
            depth,
        )
    }
}

/// A score times the decay of `depth`, rounded towards zero.
fn discount(score: i64, depth: usize) -> (r: i64)
    requires
        depth < MAX_SEARCH_DEPTH,
    ensures
        r == discounted(score as int, depth as int),
        score >= 0 ==> 0 <= r <= score,
        score < 0 ==> score <= r <= 0,
{
    let rate: u128 = GAME_SCORE_DEPTH_RATES[depth] as u128;
    assert(0 < rate <= 1_000_000_000);
    if score >= 0 {
        let magnitude: u128 = score as u128;
        assert(magnitude * rate <= magnitude * 1_000_000_000) by (nonlinear_arith)
            requires
                0 <= magnitude,
                0 < rate <= 1_000_000_000,
        ;
        (magnitude * rate / 1_000_000_000) as i64
    } else {
        let magnitude: u128 = (-(score as i128)) as u128;
        assert(magnitude * rate <= magnitude * 1_000_000_000) by (nonlinear_arith)
            requires
                0 <= magnitude,
                0 < rate <= 1_000_000_000,
        ;
        let quotient: u128 = magnitude * rate / 1_000_000_000;
        if quotient > 0x7fff_ffff_ffff_ffff {
            i64::MIN
        } else {
            -(quotient as i64)
        }
    }
}

/// The pair by which candidate results are ranked while hunting the
/// opponent's special: the worth of the chain first, the discounted
/// heuristic score second.
pub fn evaluate_search_result_score_for_bomber(chain_count: u8, search_score: i64, depth: usize) -> (r:
    (i64, i64))
    requires
        chain_count < MAX_CHAIN_COUNT,
        depth < MAX_SEARCH_DEPTH,
    ensures
        r.0 == bomber_score(chain_count, depth as int),
        r.1 == discounted(search_score as int, depth as int),
{
    (evaluate_game_score_for_bomber(chain_count, depth), discount(search_score, depth))
}

/// The pair by which candidate results are ranked: the worth of the gain
/// first, the discounted heuristic score second.
pub fn evaluate_search_result_score(chain_game_score: u32, search_score: i64, depth: usize) -> (r: (
    i64,
    i64,
))
    requires
        depth < MAX_SEARCH_DEPTH,
    ensures
        r.0 == depth_score(chain_game_score, depth as int),
        r.1 == discounted(search_score as int, depth as int),
{
    (evaluate_game_score_by_depth(chain_game_score, depth), discount(search_score, depth))
}

pub fn evaluate_game_score_for_bomber(chain_count: u8, depth: usize) -> (r: i64)
    requires
        chain_count < MAX_CHAIN_COUNT,
        depth < MAX_SEARCH_DEPTH,
    ensures
        r == bomber_score(chain_count, depth as int),
        0 <= r <= 2 * SCORE_UNIT,
{
    if chain_count == 1 {
        return 2;
    } else if chain_count == 2 {
        return 1;
    }
    let game_score = calculate_game_score(chain_count);
    let max_score = calculate_obstacle_count_from_chain_count(3);
    let capped = if game_score < max_score {
        game_score
    } else {
        max_score
    };
    discount(capped as i64 * SCORE_UNIT, depth)
}

pub fn evaluate_game_score_by_depth(game_score: u32, depth: usize) -> (r: i64)
    requires
        depth < MAX_SEARCH_DEPTH,
    ensures
        r == depth_score(game_score, depth as int),
        0 <= r <= 200 * SCORE_UNIT,
{
    let max_fatal_gain_score = calculate_obstacle_count_from_chain_count(
        DEFAULT_FATAL_FIRE_MAX_CHAIN_COUNT,
    );
    let capped = if game_score < max_fatal_gain_score {
        game_score
    } else {
        max_fatal_gain_score
    };
    discount(capped as i64 * SCORE_UNIT, depth) + evaluate_log10(game_score)
}

/// The cache `after` holds what `before` held and, if `key` was not
/// remembered, an entry for `key` besides.
pub open spec fn remembers<V>(before: Map<u64, V>, after: Map<u64, V>, key: u64) -> bool {
    &&& after.contains_key(key)
    &&& before.contains_key(key) ==> after == before
    &&& !before.contains_key(key) ==> after == before.insert(key, after[key])
}

/// The grid a state is judged by: if at least a full row of attack blocks
/// is owed, a row of obstacles lands first.
pub open spec fn judged_grid(state: SearchState) -> Grid {
    if state.obstacle_block_count >= FIELD_WIDTH {
        obstacles_dropped(state.board@, state.board.heights@)
    } else {
        state.board@
    }
}

/// The heights of the grid a state is judged by.
pub open spec fn judged_heights(state: SearchState) -> Seq<usize> {
    if state.obstacle_block_count >= FIELD_WIDTH {
        Seq::new(FIELD_WIDTH as nat, |x: int| (state.board.heights[x] + 1) as usize)
    } else {
        state.board.heights@
    }
}

pub struct EvaluateCache {
    cache_estimate_max_chain_count: FnvHashMap<ZobristHash, (u8, u8)>,
    cache_estimate_with_erasing_all_max_chain_count: FnvHashMap<ZobristHash, u8>,
}

impl EvaluateCache {
    /// The remembered single-drop estimates, by structural hash.
    pub closed spec fn max_chain_counts(&self) -> Map<u64, (u8, u8)> {
        self.cache_estimate_max_chain_count@
    }

    /// The remembered erase-one estimates, by structural hash.
    pub closed spec fn erasing_all_max_chain_counts(&self) -> Map<u64, u8> {
        self.cache_estimate_with_erasing_all_max_chain_count@
    }

    /// Nothing is remembered.
    pub open spec fn is_empty(&self) -> bool {
        &&& self.max_chain_counts().dom() == Set::<u64>::empty()
        &&& self.erasing_all_max_chain_counts().dom() == Set::<u64>::empty()
    }

    pub fn new() -> (r: EvaluateCache)
        ensures
            r.is_empty(),
    {
        EvaluateCache {
            cache_estimate_max_chain_count: map_new(),
            cache_estimate_with_erasing_all_max_chain_count: map_new(),
        }
    }

    pub fn default() -> (r: EvaluateCache)
        ensures
            r.is_empty(),
    {
        EvaluateCache::new()
    }

    pub fn len_estimate_max_chain_count(&self) -> (r: usize)
        ensures
            r == self.max_chain_counts().dom().len(),
    {
        map_len(&self.cache_estimate_max_chain_count)
    }

    pub fn len_estimate_with_erasing_all_max_chain_count(&self) -> (r: usize)
        ensures
            r == self.erasing_all_max_chain_counts().dom().len(),
    {
        map_len(&self.cache_estimate_with_erasing_all_max_chain_count)
    }

    /// Forgets every estimate.
    pub fn clear(&mut self)
        ensures
            final(self).is_empty(),
    {
        map_clear(&mut self.cache_estimate_with_erasing_all_max_chain_count);
        map_clear(&mut self.cache_estimate_max_chain_count);
    }

    /// The erase-one estimate of the board: what is remembered under the
    /// board's hash if anything is, else the estimate computed afresh, which
    /// is then remembered.
    pub fn estimate_with_erasing_all_max_chain_count(
        &mut self,
        simulator: &mut Simulator,
        board: &Board,
    ) -> (r: u8)
        requires
            board.wf(),
        ensures
            final(self).max_chain_counts() == old(self).max_chain_counts(),
            old(self).erasing_all_max_chain_counts().contains_key(board.hash()) ==> r == old(
                self,
            ).erasing_all_max_chain_counts()[board.hash()]
                && final(self).erasing_all_max_chain_counts() == old(
                self,
            ).erasing_all_max_chain_counts(),
            !old(self).erasing_all_max_chain_counts().contains_key(board.hash()) ==> r
                == erasing_all_estimate(board@, board.heights@)
                && final(self).erasing_all_max_chain_counts() == old(
                self,
            ).erasing_all_max_chain_counts().insert(board.hash(), r),
    {
        let key = board.zobrist_hash();
        match map_get(&self.cache_estimate_with_erasing_all_max_chain_count, key) {
            Some(chain_count) => chain_count,
            None => {
                let max_chain_count = compute_erasing_all_max_chain_count(simulator, board);
                map_insert(
                    &mut self.cache_estimate_with_erasing_all_max_chain_count,
                    key,
                    max_chain_count,
                );
                max_chain_count
            },
        }
    }

    /// The heuristic score of a state, in millionths of a point: the chain
    /// estimate of the board it is judged by, a hundred thousand points a
    /// link, plus the score of that board's shape. `kind == 0` takes the
    /// single-drop estimate, any other kind the erase-one estimate. The
    /// estimate comes from the cache where the board's hash is remembered
    /// and is remembered where it was not.
    pub fn evaluate_search_score(
        &mut self,
        simulator: &mut Simulator,
        search_state: &SearchState,
        kind: usize,
    ) -> (r: i64)
        requires
            search_state.board.wf(),
            !danger(search_state.board.heights@, 0),
        ensures
            0 <= r <= u8::MAX * CHAIN_WEIGHT + MAX_SHAPE_SCORE,
            kind == 0 ==> final(self).erasing_all_max_chain_counts() == old(
                self,
            ).erasing_all_max_chain_counts() && r == final(self).max_chain_counts()[grid_hash(
                judged_grid(*search_state),
            )].0 * CHAIN_WEIGHT + shape_score(
                judged_grid(*search_state),
                judged_heights(*search_state),
                kind,
            ),
            kind != 0 ==> final(self).max_chain_counts() == old(self).max_chain_counts() && r
                == final(self).erasing_all_max_chain_counts()[grid_hash(judged_grid(*search_state))]
                * CHAIN_WEIGHT + shape_score(
                judged_grid(*search_state),
                judged_heights(*search_state),
                kind,
            ),
            kind == 0 ==> remembers(
                old(self).max_chain_counts(),
                final(self).max_chain_counts(),
                grid_hash(judged_grid(*search_state)),
            ),
            kind == 0 && !old(self).max_chain_counts().contains_key(
                grid_hash(judged_grid(*search_state)),
            ) ==> (
                final(self).max_chain_counts()[grid_hash(judged_grid(*search_state))].0 as nat,
                final(self).max_chain_counts()[grid_hash(judged_grid(*search_state))].1 as nat,
            ) == max_chain_estimate(judged_grid(*search_state), judged_heights(*search_state)),
            kind != 0 ==> remembers(
                old(self).erasing_all_max_chain_counts(),
                final(self).erasing_all_max_chain_counts(),
                grid_hash(judged_grid(*search_state)),
            ),
            kind != 0 && !old(self).erasing_all_max_chain_counts().contains_key(
                grid_hash(judged_grid(*search_state)),
            ) ==> final(self).erasing_all_max_chain_counts()[grid_hash(judged_grid(*search_state))]
                == erasing_all_estimate(judged_grid(*search_state), judged_heights(*search_state)),
    {
        let mut board = search_state.board();
        proof {
            assert forall|x: int| 0 <= x < FIELD_WIDTH implies #[trigger] board.heights[x]
                < DANGER_LINE_HEIGHT by {
                if board.heights[x] >= DANGER_LINE_HEIGHT {
                    assert(board.heights@[x] + 0 >= DANGER_LINE_HEIGHT);
                }
            }
        }
        if search_state.obstacle_block_count() >= 10 {
            board.drop_obstacles();
        }
        board.recall();
        proof {
            assert(board.heights@ =~= judged_heights(*search_state));
        }
        let estimate: u8 = if kind == 0 {
            let (estimated_max_chain_count, _) = self.estimate_max_chain_count(simulator, &board);
            estimated_max_chain_count
        } else {
            self.estimate_with_erasing_all_max_chain_count(simulator, &board)
        };
        let shape = evaluate_shape(&board, kind);
        estimate as i64 * CHAIN_WEIGHT + shape
    }

    /// The single-drop estimate of the board: what is remembered under the
    /// board's hash if anything is, else the estimate computed afresh, which
    /// is then remembered.
    pub fn estimate_max_chain_count(&mut self, simulator: &mut Simulator, board: &Board) -> (r: (
        u8,
        u8,
    ))
        requires
            board.wf(),
            has_headroom(board.heights@),
        ensures
            final(self).erasing_all_max_chain_counts() == old(self).erasing_all_max_chain_counts(),
            old(self).max_chain_counts().contains_key(board.hash()) ==> r == old(
                self,
            ).max_chain_counts()[board.hash()] && final(self).max_chain_counts() == old(
                self,
            ).max_chain_counts(),
            !old(self).max_chain_counts().contains_key(board.hash()) ==> (r.0 as nat, r.1 as nat)
                == max_chain_estimate(board@, board.heights@) && final(self).max_chain_counts()
                == old(self).max_chain_counts().insert(board.hash(), r),
    {
        let key = board.zobrist_hash();
        match map_get(&self.cache_estimate_max_chain_count, key) {
            Some(estimate) => estimate,
            None => {
                let estimate = compute_max_chain_count(simulator, board);
                map_insert(&mut self.cache_estimate_max_chain_count, key, estimate);
                estimate
            },
        }
    }
}

} // verus!
