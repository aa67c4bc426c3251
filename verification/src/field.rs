//! A board kept as a plain array of cells, one byte per cell.
use vstd::prelude::*;
use vstd::std_specs::cmp::PartialEqSpecImpl;
use crate::bit_board::{input_grid, Grid};
use crate::board::{
    danger, lowest_empty_row, obstacles_dropped, DANGER_LINE_HEIGHT, EMPTY_BLOCK, FIELD_HEIGHT,
    FIELD_WIDTH, INPUT_FIELD_HEIGHT, OBSTACLE_BLOCK,
};

verus! {

/// The number of numbered blocks among the first `n` cells of the grid in
/// reading order (row by row from the bottom, left to right).
pub open spec fn live_count(g: Grid, n: int) -> int
    decreases n,
{
    if n <= 0 {
        0
    } else {
        let v = g[(n - 1) / 10][(n - 1) % 10];
        live_count(g, n - 1) + if v != EMPTY_BLOCK && v != OBSTACLE_BLOCK {
            1int
        } else {
            0int
        }
    }
}

proof fn lemma_live_count_bound(g: Grid, n: int)
    requires
        0 <= n,
    ensures
        0 <= live_count(g, n) <= n,
    decreases n,
{
    if n > 0 {
        lemma_live_count_bound(g, n - 1);
    }
}

#[derive(Debug, Copy, Clone)]
pub struct Field {
    /// The cells, bottom row first.
    pub field: [[u8; FIELD_WIDTH]; FIELD_HEIGHT],
    /// The height of every column, counted from the bottom row.
    pub heights: [usize; FIELD_WIDTH],
}

impl View for Field {
    type V = Grid;

    open spec fn view(&self) -> Grid {
        Seq::new(FIELD_HEIGHT as nat, |y: int| Seq::new(FIELD_WIDTH as nat, |x: int| self.field[y][x]))
    }
}

impl Field {
    /// Builds a field from a picture of the visible rows, top row first.
    /// The height of a column is its lowest empty row.
    pub fn new(input_field: [[u8; FIELD_WIDTH]; INPUT_FIELD_HEIGHT]) -> (r: Field)
        ensures
            r@ == input_grid(input_field),
            forall|x: int|
                0 <= x < FIELD_WIDTH ==> lowest_empty_row(r@, x, #[trigger] r.heights[x] as int),
            forall|x: int| 0 <= x < FIELD_WIDTH ==> #[trigger] r.heights[x] <= INPUT_FIELD_HEIGHT,
    {
        let mut heights: [usize; FIELD_WIDTH] = [0;FIELD_WIDTH];
        let ghost g = input_grid(input_field);
        for x in 0..FIELD_WIDTH
            invariant
                g == input_grid(input_field),
                forall|i: int| 0 <= i < x ==> lowest_empty_row(g, i, #[trigger] heights[i] as int),
                forall|i: int| 0 <= i < x ==> #[trigger] heights[i] <= INPUT_FIELD_HEIGHT,
        {
            let mut y: usize = 0;
            while y < INPUT_FIELD_HEIGHT && input_field[INPUT_FIELD_HEIGHT - 1 - y][x] != EMPTY_BLOCK
                invariant
                    x < FIELD_WIDTH,
                    y <= INPUT_FIELD_HEIGHT,
                    g == input_grid(input_field),
                    forall|j: int| 0 <= j < y ==> (#[trigger] g[j])[x as int] != EMPTY_BLOCK,
                decreases INPUT_FIELD_HEIGHT - y,
            {
                assert(g[y as int][x as int] == input_field[INPUT_FIELD_HEIGHT - 1 - y][x as int]);
                y += 1;
            }
            assert(g[y as int][x as int] == EMPTY_BLOCK);
            heights[x] = y;
        }
        let mut field: [[u8; FIELD_WIDTH]; FIELD_HEIGHT] = [[0;FIELD_WIDTH];FIELD_HEIGHT];
        for y in 0..INPUT_FIELD_HEIGHT
            invariant
                forall|j: int, i: int|
                    0 <= j < FIELD_HEIGHT && 0 <= i < FIELD_WIDTH ==> #[trigger] field[j][i] == if j
                        < y {
                        input_field[INPUT_FIELD_HEIGHT - 1 - j][i]
                    } else {
                        0u8
                    },
        {
            for x in 0..FIELD_WIDTH
                invariant
                    y < INPUT_FIELD_HEIGHT,
                    forall|j: int, i: int|
                        0 <= j < FIELD_HEIGHT && 0 <= i < FIELD_WIDTH ==> #[trigger] field[j][i]
                            == if j < y || (j == y && i < x) {
                            input_field[INPUT_FIELD_HEIGHT - 1 - j][i]
                        } else {
                            0u8
                        },
            {
                field[y][x] = input_field[INPUT_FIELD_HEIGHT - 1 - y][x];
            }
        }
        let r = Field { field, heights };
        assert(r@ =~~= g);
        r
    }

    /// Lands one obstacle block on every column.
    pub fn drop_obstacles(&mut self)
        requires
            forall|x: int| 0 <= x < FIELD_WIDTH ==> #[trigger] old(self).heights[x] < FIELD_HEIGHT,
        ensures
            final(self)@ == obstacles_dropped(old(self)@, old(self).heights@),
            forall|x: int|
                0 <= x < FIELD_WIDTH ==> #[trigger] final(self).heights[x] == old(self).heights[x] + 1,
    {
        for x in 0..FIELD_WIDTH
            invariant
                forall|i: int| 0 <= i < FIELD_WIDTH ==> #[trigger] old(self).heights[i] < FIELD_HEIGHT,
                forall|i: int|
                    0 <= i < FIELD_WIDTH ==> #[trigger] self.heights[i] == old(self).heights[i] + if i
                        < x {
                        1int
                    } else {
                        0int
                    },
                forall|y: int, i: int|
                    0 <= y < FIELD_HEIGHT && 0 <= i < FIELD_WIDTH ==> #[trigger] self.field[y][i]
                        == if i < x && y == old(self).heights[i] {
                        OBSTACLE_BLOCK
                    } else {
                        old(self).field[y][i]
                    },
        {
            let h = self.heights[x];
            self.field[h][x] = OBSTACLE_BLOCK;
            self.heights[x] = h + 1;
        }
        assert(self@ =~~= obstacles_dropped(old(self)@, old(self).heights@));
    }

    /// Counts the numbered blocks of the whole grid.
    pub fn count_live_blocks(&self) -> (r: u8)
        ensures
            r == live_count(self@, (FIELD_HEIGHT * FIELD_WIDTH) as int),
    {
        let mut count: u8 = 0;
        for y in 0..FIELD_HEIGHT
            invariant
                count == live_count(self@, y * FIELD_WIDTH),
        {
            for x in 0..FIELD_WIDTH
                invariant
                    y < FIELD_HEIGHT,
                    count == live_count(self@, y * FIELD_WIDTH + x),
            {
                proof {
                    lemma_live_count_bound(self@, y * FIELD_WIDTH + x);
                }
                if self.field[y][x] != EMPTY_BLOCK && self.field[y][x] != OBSTACLE_BLOCK {
                    count += 1;
                }
            }
        }
        count
    }

    /// Whether some column has reached the danger line.
    pub fn is_game_over(&self) -> (r: bool)
        ensures
            r == danger(self.heights@, 0),
    {
        for x in 0..FIELD_WIDTH
            invariant
                forall|i: int| 0 <= i < x ==> #[trigger] self.heights[i] < DANGER_LINE_HEIGHT,
        {
            if self.heights[x] >= DANGER_LINE_HEIGHT {
                return true;
            }
        }
        false
    }
}

impl PartialEq for Field {
    fn eq(&self, other: &Field) -> (r: bool) {
        let mut same = true;
        for x in 0..FIELD_WIDTH
            invariant
                same == (forall|i: int| 0 <= i < x ==> self.heights[i] == other.heights[i]),
        {
            if self.heights[x] != other.heights[x] {
                same = false;
            }
        }
        proof {
            if same {
                assert(self.heights@ =~= other.heights@);
            }
        }
        if !same {
            return false;
        }
        for y in 0..FIELD_HEIGHT
            invariant
                self.heights@ == other.heights@,
                same == (forall|j: int, i: int|
                    0 <= j < y && 0 <= i < FIELD_WIDTH ==> self.field[j][i] == other.field[j][i]),
        {
            for x in 0..FIELD_WIDTH
                invariant
                    y < FIELD_HEIGHT,
                    self.heights@ == other.heights@,
                    same == (forall|j: int, i: int|
                        (0 <= j < y && 0 <= i < FIELD_WIDTH) || (j == y && 0 <= i < x)
                            ==> self.field[j][i] == other.field[j][i]),
            {
                if self.field[y][x] != other.field[y][x] {
                    same = false;
                }
            }
        }
        proof {
            if same {
                assert(self@ =~~= other@);
            } else {
                let (j, i) = choose|j: int, i: int|
                    0 <= j < FIELD_HEIGHT && 0 <= i < FIELD_WIDTH && self.field[j][i]
                        != other.field[j][i];
                assert(self@[j][i] != other@[j][i]);
            }
        }
        same
    }
}

impl PartialEqSpecImpl for Field {
    open spec fn obeys_eq_spec() -> bool {
        true
    }

    /// Fields are equal when they hold the same cells and the same heights.
    open spec fn eq_spec(&self, other: &Field) -> bool {
        self@ == other@ && self.heights@ == other.heights@
    }
}

impl Eq for Field {

}

} // verus!
