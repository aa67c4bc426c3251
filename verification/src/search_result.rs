//! What a search hands back: the chosen command and what is known of it.
use vstd::prelude::*;
use crate::board::{is_empty_board, Board, FIELD_WIDTH};
use crate::command::Command;

verus! {

#[derive(Debug, Copy, Clone)]
pub struct SearchResult {
    /// The score the result was chosen by, in millionths of a point.
    pub search_result_score: i64,
    /// The length of the chain of the last move on the way to the result.
    pub last_chain_count: u8,
    pub cumulative_game_score: u32,
    /// The score of the chain of the last move.
    pub gain_game_score: u32,
    /// The number of moves on the way to the result.
    pub search_depth: usize,
    pub board: Board,
    pub command: Command,
    /// The command was committed to at once, without searching deeper.
    pub fire_right_now: bool,
}

impl SearchResult {
    /// The result of a search that found nothing: the fallback command on an
    /// empty board.
    pub fn default() -> (r: SearchResult)
        ensures
            r.search_result_score == 0,
            r.last_chain_count == 0,
            r.cumulative_game_score == 0,
            r.gain_game_score == 0,
            r.search_depth == 0,
            is_empty_board(r.board),
            r.board.wf(),
            forall|x: int| 0 <= x < FIELD_WIDTH ==> r.board.heights[x] == 0,
            r.command == Command::Drop((0usize, 0usize)),
            !r.fire_right_now,
    {
        SearchResult {
            search_result_score: 0,
            last_chain_count: 0,
            cumulative_game_score: 0,
            gain_game_score: 0,
            search_depth: 0,
            board: Board::default(),
            command: Command::default(),
            fire_right_now: false,
        }
    }

    /// The record a benchmark keeps of the result: cumulative score, length
    /// of the last chain, depth.
    pub fn to_record(&self) -> (r: Vec<u32>)
        requires
            self.search_depth <= u32::MAX,
        ensures
            r@ == seq![
                self.cumulative_game_score,
                self.last_chain_count as u32,
                self.search_depth as u32,
            ],
    {
        let r = vec![
            self.cumulative_game_score,
            self.last_chain_count as u32,
            self.search_depth as u32,
        ];
        assert(r@ =~= seq![
            self.cumulative_game_score,
            self.last_chain_count as u32,
            self.search_depth as u32,
        ]);
        r
    }
}

} // verus!
