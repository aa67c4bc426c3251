//! The bit-packed grid of a board: four bits per cell, two cells per byte,
//! with the structural hash kept up to date by every write.
use vstd::prelude::*;
use vstd::std_specs::cmp::PartialEqSpecImpl;
use crate::zobrist_hash_table::{board_entry, lemma_xor_laws, zobrist_board_entry, ZobristHash};

verus! {

pub const FIELD_WIDTH: usize = 10;

pub const INPUT_FIELD_HEIGHT: usize = 16;

pub const FIELD_HEIGHT: usize = 19;

/// Bytes per row: two cells share one byte.
pub const BIT_FIELD_WIDTH: usize = 5;

/// Largest value a cell can hold (the obstacle block).
pub const MAX_BLOCK: u8 = 11;

/// A grid of cell values, bottom row first: `grid[y][x]`.
pub type Grid = Seq<Seq<u8>>;

/// The grid has the dimensions of a board and holds no value above eleven.
pub open spec fn grid_valid(g: Grid) -> bool {
    &&& g.len() == FIELD_HEIGHT
    &&& forall|y: int| 0 <= y < FIELD_HEIGHT ==> (#[trigger] g[y]).len() == FIELD_WIDTH
    &&& forall|y: int, x: int|
        0 <= y < FIELD_HEIGHT && 0 <= x < FIELD_WIDTH ==> #[trigger] g[y][x] <= MAX_BLOCK
}

/// The grid with cell `(y, x)` replaced by `value`.
pub open spec fn grid_set(g: Grid, y: int, x: int, value: u8) -> Grid {
    g.update(y, g[y].update(x, value))
}

/// A cell that was written reads back as the value written, and every
/// other cell as before.
pub proof fn lemma_set_then_get(g: Grid, y: int, x: int, value: u8, j: int, i: int)
    requires
        grid_valid(g),
        0 <= y < FIELD_HEIGHT,
        0 <= x < FIELD_WIDTH,
        0 <= j < FIELD_HEIGHT,
        0 <= i < FIELD_WIDTH,
    ensures
        grid_set(g, y, x, value)[j][i] == if j == y && i == x {
            value
        } else {
            g[j][i]
        },
        value <= MAX_BLOCK ==> grid_valid(grid_set(g, y, x, value)),
{
}

/// The byte that packs the two cells of slot `slot`: row `slot / 5`, columns
/// `2 * (slot % 5)` (high half) and `2 * (slot % 5) + 1` (low half).
pub open spec fn slot_byte(g: Grid, slot: int) -> u8 {
    let row = g[slot / 5];
    let x = 2 * (slot % 5);
    (row[x] * 16 + row[x + 1]) as u8
}

/// XOR of the table entries of the first `n` slots.
pub open spec fn grid_hash_upto(g: Grid, n: int) -> u64
    decreases n,
{
    if n <= 0 {
        0
    } else {
        grid_hash_upto(g, n - 1) ^ board_entry(n - 1, slot_byte(g, n - 1))
    }
}

/// The structural hash of a grid: the XOR of one table entry per occupied
/// slot, whatever the order in which the cells were written.
pub open spec fn grid_hash(g: Grid) -> u64 {
    grid_hash_upto(g, 95)
}

/// The cell in column `x` of the row byte `byte`.
pub open spec fn cell_of(byte: u8, x: int) -> u8 {
    if x % 2 == 0 {
        byte >> 4
    } else {
        byte & 0xf
    }
}

proof fn lemma_byte_halves(b: u8, v: u8)
    by (bit_vector)
    requires
        v <= 15,
    ensures
        ((b & 0x0f) | (v << 4)) >> 4 == v,
        ((b & 0x0f) | (v << 4)) & 0xf == b & 0xf,
        ((b & 0xf0) | v) >> 4 == b >> 4,
        ((b & 0xf0) | v) & 0xf == v,
        (b >> 4) * 16 + (b & 0xf) == b,
        b >> 4 <= 15,
        b & 0xf <= 15,
{
}

/// Changing the byte of one slot changes the hash by the two entries of
/// that slot.
proof fn lemma_hash_update(g: Grid, h: Grid, slot: int, n: int)
    requires
        0 <= slot < 95,
        0 <= n <= 95,
        forall|s: int| 0 <= s < 95 && s != slot ==> slot_byte(g, s) == slot_byte(h, s),
    ensures
        grid_hash_upto(h, n) == if n > slot {
            grid_hash_upto(g, n) ^ board_entry(slot, slot_byte(g, slot)) ^ board_entry(
                slot,
                slot_byte(h, slot),
            )
        } else {
            grid_hash_upto(g, n)
        },
    decreases n,
{
    if n > 0 {
        lemma_hash_update(g, h, slot, n - 1);
        let a = grid_hash_upto(g, n - 1);
        let eg = board_entry(slot, slot_byte(g, slot));
        let eh = board_entry(slot, slot_byte(h, slot));
        if n - 1 == slot {
            lemma_xor_laws(a, eg, eg);
            lemma_xor_laws(a ^ eg, eg, eh);
            lemma_xor_laws(eg, eg, eh);
            lemma_xor_laws(a, eg ^ eg, eh);
            lemma_xor_laws(a, 0, eh);
            assert((a ^ eg) ^ eg == a);
        } else if n - 1 > slot {
            let e = board_entry(n - 1, slot_byte(g, n - 1));
            lemma_xor_laws(a ^ eg, eh, e);
            lemma_xor_laws(eh, e, 0);
            lemma_xor_laws(a ^ eg, e, eh);
            lemma_xor_laws(a, eg, e);
            lemma_xor_laws(eg, e, 0);
            lemma_xor_laws(a, e, eg);
        }
    }
}

/// Grids with the same slot bytes have the same hash.
pub proof fn lemma_hash_same(g: Grid, h: Grid, n: int)
    requires
        0 <= n <= 95,
        forall|s: int| 0 <= s < 95 ==> slot_byte(g, s) == slot_byte(h, s),
    ensures
        grid_hash_upto(h, n) == grid_hash_upto(g, n),
    decreases n,
{
    if n > 0 {
        lemma_hash_same(g, h, n - 1);
    }
}

#[derive(Debug, Copy, Clone, Hash, PartialOrd, Ord)]
pub struct BitBoard {
    bits: [[u8; BIT_FIELD_WIDTH]; FIELD_HEIGHT],
    zobrist_hash: ZobristHash,
}

impl View for BitBoard {
    type V = Grid;

    closed spec fn view(&self) -> Grid {
        Seq::new(
            FIELD_HEIGHT as nat,
            |y: int| Seq::new(FIELD_WIDTH as nat, |x: int| cell_of(self.bits[y][x / 2], x)),
        )
    }
}

impl BitBoard {
    #[verifier::type_invariant]
    spec fn inv(self) -> bool {
        &&& grid_valid(self@)
        &&& self.zobrist_hash == grid_hash(self@)
    }

    /// The hash the board carries.
    pub closed spec fn hash(&self) -> u64 {
        self.zobrist_hash
    }

    proof fn lemma_slot_byte(self, slot: int)
        requires
            0 <= slot < 95,
        ensures
            slot_byte(self@, slot) == self.bits[slot / 5][slot % 5],
    {
        let b = self.bits[slot / 5][slot % 5];
        lemma_byte_halves(b, 0);
        let x = 2 * (slot % 5);
        assert(self@[slot / 5][x] == cell_of(b, x));
        assert(self@[slot / 5][x + 1] == cell_of(b, x + 1));
    }

    /// The empty board.
    pub fn default() -> (r: BitBoard)
        ensures
            r@ == Seq::new(FIELD_HEIGHT as nat, |y: int| Seq::new(FIELD_WIDTH as nat, |x: int| 0u8)),
            r.hash() == 0,
    {
        let bits: [[u8; BIT_FIELD_WIDTH]; FIELD_HEIGHT] = [[0; BIT_FIELD_WIDTH]; FIELD_HEIGHT];
        let ghost g = Seq::new(FIELD_HEIGHT as nat, |y: int| Seq::new(FIELD_WIDTH as nat, |x: int| 0u8));
        proof {
            let b = BitBoard { bits, zobrist_hash: 0 };
            lemma_byte_halves(0, 0);
            assert(forall|y: int, x: int| 0 <= y < 19 && 0 <= x < 5 ==> bits[y][x] == 0);
            assert(b@ =~~= g);
            lemma_zero_hash(g, 95);
        }
        BitBoard { bits, zobrist_hash: 0 }
    }
}

/// The grid an input picture describes: the picture lists the visible rows
/// top row first, the grid holds them bottom row first below three empty
/// rows.
pub open spec fn input_grid(input: [[u8; FIELD_WIDTH]; INPUT_FIELD_HEIGHT]) -> Grid {
    Seq::new(
        FIELD_HEIGHT as nat,
        |y: int|
            Seq::new(
                FIELD_WIDTH as nat,
                |x: int|
                    if y < INPUT_FIELD_HEIGHT {
                        input[INPUT_FIELD_HEIGHT - 1 - y][x]
                    } else {
                        0u8
                    },
            ),
    )
}

/// No cell of the picture is above eleven.
pub open spec fn input_valid(input: [[u8; FIELD_WIDTH]; INPUT_FIELD_HEIGHT]) -> bool {
    forall|r: int, x: int|
        0 <= r < INPUT_FIELD_HEIGHT && 0 <= x < FIELD_WIDTH ==> #[trigger] input[r][x] <= MAX_BLOCK
}

impl BitBoard {
    pub fn new(input_board: [[u8; FIELD_WIDTH]; INPUT_FIELD_HEIGHT]) -> (r: BitBoard)
        requires
            input_valid(input_board),
        ensures
            r@ == input_grid(input_board),
            r.hash() == grid_hash(r@),
    {
        let mut bit_board = BitBoard::default();
        for y in 0..INPUT_FIELD_HEIGHT
            invariant
                input_valid(input_board),
                grid_valid(bit_board@),
                forall|j: int, i: int|
                    0 <= j < FIELD_HEIGHT && 0 <= i < FIELD_WIDTH ==> #[trigger] bit_board@[j][i]
                        == if j < y {
                        input_board[INPUT_FIELD_HEIGHT - 1 - j][i]
                    } else {
                        0u8
                    },
        {
            for x in 0..FIELD_WIDTH
                invariant
                    y < INPUT_FIELD_HEIGHT,
                    input_valid(input_board),
                    grid_valid(bit_board@),
                    forall|j: int, i: int|
                        0 <= j < FIELD_HEIGHT && 0 <= i < FIELD_WIDTH ==> #[trigger] bit_board@[j][i]
                            == if j < y || (j == y && i < x) {
                            input_board[INPUT_FIELD_HEIGHT - 1 - j][i]
                        } else {
                            0u8
                        },
            {
                bit_board.set(y, x, input_board[INPUT_FIELD_HEIGHT - 1 - y][x]);
            }
        }
        proof {
            use_type_invariant(&bit_board);
            assert(bit_board@ =~~= input_grid(input_board));
        }
        bit_board
    }

    /// Writes `value` into cell `(y, x)` and folds the change into the hash.
    pub fn set(&mut self, y: usize, x: usize, value: u8)
        requires
            y < FIELD_HEIGHT,
            x < FIELD_WIDTH,
            value <= MAX_BLOCK,
        ensures
            final(self)@ == grid_set(old(self)@, y as int, x as int, value),
            grid_valid(final(self)@),
            final(self).hash() == grid_hash(final(self)@),
    {
        proof {
            use_type_invariant(&*self);
        }
        let x_idx = x / 2;
        let slot = y * BIT_FIELD_WIDTH + x_idx;
        let old_byte = self.bits[y][x_idx];
        let new_byte = if x % 2 == 0 {
            (old_byte & 0x0f) | (value << 4)
        } else {
            (old_byte & 0xf0) | value
        };
        let hash = self.zobrist_hash ^ zobrist_board_entry(slot, old_byte) ^ zobrist_board_entry(
            slot,
            new_byte,
        );
        let mut bits = self.bits;
        bits[y][x_idx] = new_byte;
        proof {
            let after = BitBoard { bits, zobrist_hash: hash };
            let target = grid_set(self@, y as int, x as int, value);
            lemma_byte_halves(old_byte, value);
            assert(after@ =~~= target) by {
                assert forall|j: int, i: int|
                    0 <= j < FIELD_HEIGHT && 0 <= i < FIELD_WIDTH implies after@[j][i]
                    == target[j][i] by {
                    if j == y && i / 2 == x_idx {
                        assert(bits[j][i / 2] == new_byte);
                    } else {
                        assert(bits[j][i / 2] == self.bits[j][i / 2]);
                    }
                }
            }
            assert forall|s: int| 0 <= s < 95 && s != slot implies slot_byte(self@, s)
                == slot_byte(after@, s) by {
                self.lemma_slot_byte(s);
                after.lemma_slot_byte(s);
            }
            self.lemma_slot_byte(slot as int);
            after.lemma_slot_byte(slot as int);
            lemma_hash_update(self@, after@, slot as int, 95);
        }
        *self = BitBoard { bits, zobrist_hash: hash };
    }

    /// The value of cell `(y, x)`.
    pub fn get(&self, y: usize, x: usize) -> (r: u8)
        requires
            y < FIELD_HEIGHT,
            x < FIELD_WIDTH,
        ensures
            r == self@[y as int][x as int],
            r <= MAX_BLOCK,
            grid_valid(self@),
    {
        proof {
            use_type_invariant(self);
        }
        let x_idx = x / 2;
        let bit = self.bits[y][x_idx];
        if x % 2 == 0 {
            bit >> 4
        } else {
            bit & 0x0f
        }
    }

    /// Recalls what holds of every packed grid: no cell is above eleven, and
    /// the hash carried is the XOR-fold over the cells.
    pub fn recall(&self)
        ensures
            grid_valid(self@),
            self.hash() == grid_hash(self@),
    {
        proof {
            use_type_invariant(self);
        }
    }

    /// The structural hash, always the XOR-fold over the cells the board
    /// holds now.
    pub fn zobrist_hash(&self) -> (h: ZobristHash)
        ensures
            h == self.hash(),
            h == grid_hash(self@),
            grid_valid(self@),
    {
        proof {
            use_type_invariant(self);
        }
        self.zobrist_hash
    }
}

impl PartialEq for BitBoard {
    fn eq(&self, other: &BitBoard) -> (r: bool) {
        proof {
            use_type_invariant(self);
            use_type_invariant(other);
        }
        let mut same = true;
        for y in 0..FIELD_HEIGHT
            invariant
                same == (forall|j: int, i: int|
                    0 <= j < y && 0 <= i < BIT_FIELD_WIDTH ==> self.bits[j][i] == other.bits[j][i]),
        {
            for x in 0..BIT_FIELD_WIDTH
                invariant
                    y < FIELD_HEIGHT,
                    same == (forall|j: int, i: int|
                        (0 <= j < y && 0 <= i < BIT_FIELD_WIDTH) || (j == y && 0 <= i < x)
                            ==> self.bits[j][i] == other.bits[j][i]),
            {
                if self.bits[y][x] != other.bits[y][x] {
                    same = false;
                }
            }
        }
        proof {
            if same {
                assert(self@ =~~= other@);
            } else {
                let (j, i) = choose|j: int, i: int|
                    0 <= j < FIELD_HEIGHT && 0 <= i < BIT_FIELD_WIDTH && self.bits[j][i]
                        != other.bits[j][i];
                self.lemma_slot_byte(j * 5 + i);
                other.lemma_slot_byte(j * 5 + i);
                assert(self@[j] != other@[j]);
            }
        }
        same && self.zobrist_hash == other.zobrist_hash
    }
}

impl PartialEqSpecImpl for BitBoard {
    open spec fn obeys_eq_spec() -> bool {
        true
    }

    /// Boards are equal when they hold the same cells and carry the same hash.
    open spec fn eq_spec(&self, other: &BitBoard) -> bool {
        self@ == other@ && self.hash() == other.hash()
    }
}

impl Eq for BitBoard {

}

/// A grid of empty cells hashes to zero.
proof fn lemma_zero_hash(g: Grid, n: int)
    requires
        0 <= n <= 95,
        forall|s: int| 0 <= s < 95 ==> slot_byte(g, s) == 0,
    ensures
        grid_hash_upto(g, n) == 0,
    decreases n,
{
    if n > 0 {
        lemma_zero_hash(g, n - 1);
        lemma_xor_laws(0, 0, 0);
    }
}

} // verus!
