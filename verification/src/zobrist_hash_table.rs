//! The table of pseudo-random 64-bit values behind the structural hashes.
//!
//! Entries are not stored: each one is derived from its index by a fixed
//! avalanche mix, so the table is the same in every process.
use vstd::prelude::*;

verus! {

pub type ZobristHash = u64;

/// Number of packed bytes a board holds.
pub const BOARD_SLOTS: usize = 95;

/// Number of entries of the score table.
pub const SCORE_SLOTS: usize = 1024;

/// A 64-bit finaliser: every input bit influences every output bit.
pub open spec fn mix64(x: u64) -> u64 {
    let a = x.wrapping_add(0x9E3779B97F4A7C15);
    let b = (a ^ (a >> 30)).wrapping_mul(0xBF58476D1CE4E5B9);
    let c = (b ^ (b >> 27)).wrapping_mul(0x94D049BB133111EB);
    c ^ (c >> 31)
}

/// The table entry for byte value `byte` stored in slot `slot` of a board.
/// A zero byte (two empty cells) contributes nothing.
pub open spec fn board_entry(slot: int, byte: u8) -> u64 {
    if byte == 0 {
        0
    } else {
        mix64((slot * 256 + byte) as u64)
    }
}

/// The table entry for cumulative score `score`; scores beyond the table
/// share its last entry.
pub open spec fn score_entry(score: u32) -> u64 {
    if score < SCORE_SLOTS {
        mix64((0x1_0000_0000 + score) as u64)
    } else {
        mix64((0x1_0000_0000 + SCORE_SLOTS - 1) as u64)
    }
}

fn mix(x: u64) -> (r: u64)
    ensures
        r == mix64(x),
{
    let a: u64 = x.wrapping_add(0x9E3779B97F4A7C15);
    let b: u64 = (a ^ (a >> 30)).wrapping_mul(0xBF58476D1CE4E5B9);
    let c: u64 = (b ^ (b >> 27)).wrapping_mul(0x94D049BB133111EB);
    c ^ (c >> 31)
}

pub fn zobrist_board_entry(slot: usize, byte: u8) -> (r: ZobristHash)
    requires
        slot < BOARD_SLOTS,
    ensures
        r == board_entry(slot as int, byte),
{
    if byte == 0 {
        0
    } else {
        mix((slot * 256 + byte as usize) as u64)
    }
}

pub fn zobrist_score_entry(score: u32) -> (r: ZobristHash)
    ensures
        r == score_entry(score),
{
    if score < 1024 {
        mix(0x1_0000_0000 + score as u64)
    } else {
        mix(0x1_0000_0000 + 1023)
    }
}

/// XOR of two hashes is commutative and associative, and every hash is its
/// own inverse.
pub proof fn lemma_xor_laws(a: u64, b: u64, c: u64)
    by (bit_vector)
    ensures
        a ^ b == b ^ a,
        (a ^ b) ^ c == a ^ (b ^ c),
        a ^ a == 0,
        a ^ 0 == a,
{
}

} // verus!
