//! The falling piece: a 2x2 block of up to four numbered cells.
use vstd::prelude::*;
use crate::xorshift::{xorshift_step, Xorshift};
use crate::zobrist_hash_table::ZobristHash;

verus! {

pub type Block = u8;

pub type BitBlock = u16;

/// Largest value a cell of a piece can hold.
pub const MAX_PACK_BLOCK: u8 = 9;

/// The four-bit field of `bits` that starts at bit `4 * idx`.
pub open spec fn nibble(bits: u16, idx: int) -> u8 {
    ((bits >> ((4 * idx) as u16)) & 0xf) as u8
}

/// The packed form of four cells, cell 0 in the lowest four bits.
pub open spec fn encode(cells: Seq<u8>) -> int {
    cells[0] + 16 * cells[1] + 256 * cells[2] + 4096 * cells[3]
}

/// The cells after one clockwise quarter turn.
pub open spec fn rotated(cells: Seq<u8>) -> Seq<u8> {
    seq![cells[2], cells[0], cells[3], cells[1]]
}

/// The cells after `n` clockwise quarter turns.
pub open spec fn rotated_by(cells: Seq<u8>, n: nat) -> Seq<u8>
    decreases n,
{
    if n == 0 {
        cells
    } else {
        rotated(rotated_by(cells, (n - 1) as nat))
    }
}

/// The cells after gravity: in each column a top cell above an empty bottom
/// slot falls into it.
pub open spec fn gravity(cells: Seq<u8>) -> Seq<u8> {
    let left_falls = cells[2] == 0;
    let right_falls = cells[3] == 0;
    seq![
        if left_falls { 0u8 } else { cells[0] },
        if right_falls { 0u8 } else { cells[1] },
        if left_falls { cells[0] } else { cells[2] },
        if right_falls { cells[1] } else { cells[3] },
    ]
}

proof fn lemma_nibble_write(bits: u16, s: u16, t: u16, v: u16)
    by (bit_vector)
    requires
        s == 0 || s == 4 || s == 8 || s == 12,
        t == 0 || t == 4 || t == 8 || t == 12,
        v <= 15,
    ensures
        (((bits & !(0xfu16 << s)) | (v << s)) >> t) & 0xf == if t == s {
            v
        } else {
            (bits >> t) & 0xf
        },
        (bits >> t) & 0xf <= 15,
{
}

proof fn lemma_nibbles_encode(bits: u16)
    by (bit_vector)
    ensures
        bits == ((bits >> 0) & 0xf) + 16 * ((bits >> 4) & 0xf) + 256 * ((bits >> 8) & 0xf) + 4096
            * ((bits >> 12) & 0xf),
        (bits >> 0) & 0xf <= 15,
        (bits >> 4) & 0xf <= 15,
        (bits >> 8) & 0xf <= 15,
        (bits >> 12) & 0xf <= 15,
        (0u16 >> 0) & 0xf == 0,
        (0u16 >> 4) & 0xf == 0,
        (0u16 >> 8) & 0xf == 0,
        (0u16 >> 12) & 0xf == 0,
{
}

#[derive(Clone, Copy, Debug, PartialEq, Eq, Hash, PartialOrd, Ord)]
pub struct Pack {
    // cell 0 | cell 1      low bits first:
    // cell 2 | cell 3      0x3210
    bit_block: BitBlock,
}

impl View for Pack {
    type V = Seq<u8>;

    /// The four cells: top-left, top-right, bottom-left, bottom-right.
    closed spec fn view(&self) -> Seq<u8> {
        Seq::new(4, |i: int| nibble(self.bit_block, i))
    }
}

impl Pack {
    #[verifier::type_invariant]
    spec fn inv(self) -> bool {
        forall|i: int| 0 <= i < 4 ==> nibble(self.bit_block, i) <= MAX_PACK_BLOCK
    }

    /// The empty piece.
    pub fn default() -> (r: Pack)
        ensures
            r@ == seq![0u8, 0u8, 0u8, 0u8],
    {
        proof {
            lemma_nibbles_encode(0);
        }
        let r = Pack { bit_block: 0 };
        assert(r@ =~= seq![0u8, 0u8, 0u8, 0u8]);
        r
    }

    /// The piece with the given cells: top-left, top-right, bottom-left,
    /// bottom-right.
    pub fn new(blocks: &[Block; 4]) -> (r: Pack)
        requires
            forall|i: int| 0 <= i < 4 ==> blocks[i] <= MAX_PACK_BLOCK,
        ensures
            r@ == blocks@,
    {
        let mut pack = Pack::default();
        for i in 0..4usize
            invariant
                pack@.len() == 4,
                forall|j: int| 0 <= j < 4 ==> blocks[j] <= MAX_PACK_BLOCK,
                forall|j: int| 0 <= j < i ==> pack@[j] == blocks[j],
        {
            pack.set(i, blocks[i]);
        }
        assert(pack@ =~= blocks@);
        pack
    }

    /// Empties all four cells.
    pub fn clear(&mut self)
        ensures
            final(self)@ == seq![0u8, 0u8, 0u8, 0u8],
    {
        *self = Pack::default();
    }

    /// A hash of the piece, a function of its four cells alone.
    pub fn hash(&self) -> (h: ZobristHash)
        ensures
            h == xorshift_step(encode(self@) as u64),
    {
        proof {
            use_type_invariant(self);
            lemma_nibbles_encode(self.bit_block);
            assert(self@[0] == nibble(self.bit_block, 0));
            assert(self@[1] == nibble(self.bit_block, 1));
            assert(self@[2] == nibble(self.bit_block, 2));
            assert(self@[3] == nibble(self.bit_block, 3));
            assert(encode(self@) == self.bit_block);
        }
        let mut rnd = Xorshift::with_seed(self.bit_block as u64);
        rnd.next()
    }

    /// Recalls what holds of every piece: it has four cells, none above
    /// nine.
    pub fn recall(&self)
        ensures
            self@.len() == 4,
            forall|i: int| 0 <= i < 4 ==> #[trigger] self@[i] <= MAX_PACK_BLOCK,
    {
        proof {
            use_type_invariant(self);
        }
    }

    /// The value of cell `idx`.
    pub fn get(&self, idx: usize) -> (r: Block)
        requires
            idx < 4,
        ensures
            r == self@[idx as int],
            r <= MAX_PACK_BLOCK,
            self@.len() == 4,
    {
        proof {
            use_type_invariant(self);
        }
        let shift_bit: u16 = 4 * (idx as u16);
        ((self.bit_block >> shift_bit) & 0xf) as Block
    }

    /// Writes `value` into cell `idx`.
    pub fn set(&mut self, idx: usize, value: Block)
        requires
            idx < 4,
            value <= MAX_PACK_BLOCK,
        ensures
            final(self)@ == old(self)@.update(idx as int, value),
            final(self)@.len() == 4,
    {
        proof {
            use_type_invariant(&*self);
        }
        let shift_bit: u16 = 4 * (idx as u16);
        let clear_bit: u16 = !(0xfu16 << shift_bit);
        let bits: u16 = (self.bit_block & clear_bit) | ((value as u16) << shift_bit);
        proof {
            assert forall|j: int| 0 <= j < 4 implies nibble(bits, j) == if j == idx {
                value
            } else {
                nibble(self.bit_block, j)
            } by {
                lemma_nibble_write(self.bit_block, shift_bit, (4 * j) as u16, value as u16);
            }
        }
        self.bit_block = bits;
        assert(self@ =~= old(self)@.update(idx as int, value));
    }

    /// Lets the top cell of each column fall into an empty bottom slot.
    pub fn drop(&mut self)
        ensures
            final(self)@ == gravity(old(self)@),
    {
        if self.get(2) == 0 {
            let top = self.get(0);
            self.set(2, top);
            self.set(0, 0);
        }
        if self.get(3) == 0 {
            let top = self.get(1);
            self.set(3, top);
            self.set(1, 0);
        }
        assert(self@ =~= gravity(old(self)@));
    }

    /// Turns the piece clockwise by `rotate_count` quarter turns.
    pub fn rotates(&mut self, rotate_count: usize)
        ensures
            final(self)@ == rotated_by(old(self)@, rotate_count as nat),
    {
        for i in 0..rotate_count
            invariant
                self@ == rotated_by(old(self)@, i as nat),
        {
            self.rotate();
        }
    }

    /// Turns the piece clockwise by one quarter turn.
    pub fn rotate(&mut self)
        ensures
            final(self)@ == rotated(old(self)@),
    {
        let a = self.get(0);
        let b = self.get(1);
        let c = self.get(2);
        let d = self.get(3);
        self.set(0, c);
        self.set(1, a);
        self.set(3, b);
        self.set(2, d);
        assert(self@ =~= rotated(old(self)@));
    }

    /// The four cells in reading order.
    pub fn vec(&self) -> (r: Vec<Block>)
        ensures
            r@ == self@,
    {
        let r = vec![self.get(0), self.get(1), self.get(2), self.get(3)];
        assert(r@ =~= self@);
        r
    }
}

} // verus!
