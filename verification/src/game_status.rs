//! What the game reports about one player at the start of a turn.
use vstd::prelude::*;
use crate::board::{is_empty_board, Board};

verus! {

#[derive(Debug, Copy, Clone)]
pub struct GameStatus {
    pub rest_time_milliseconds: u32,
    pub obstacle_block_count: u32,
    pub skill_point: u32,
    pub cumulative_game_score: u32,
    pub board: Board,
}

impl GameStatus {
    /// An empty board and all counters at zero.
    pub fn default() -> (r: GameStatus)
        ensures
            r.rest_time_milliseconds == 0,
            r.obstacle_block_count == 0,
            r.skill_point == 0,
            r.cumulative_game_score == 0,
            is_empty_board(r.board),
            r.board.wf(),
            forall|x: int| 0 <= x < r.board.heights@.len() ==> r.board.heights[x] == 0,
    {
        GameStatus {
            rest_time_milliseconds: 0,
            obstacle_block_count: 0,
            skill_point: 0,
            cumulative_game_score: 0,
            board: Board::default(),
        }
    }

    pub fn rest_time_milliseconds(&self) -> (r: u32)
        ensures
            r == self.rest_time_milliseconds,
    {
        self.rest_time_milliseconds
    }

    pub fn with_rest_time_milliseconds(self, rest_time_milliseconds: u32) -> (r: GameStatus)
        ensures
            r == (GameStatus { rest_time_milliseconds, ..self }),
    {
        let mut status = self;
        status.rest_time_milliseconds = rest_time_milliseconds;
        status
    }

    pub fn obstacle_block_count(&self) -> (r: u32)
        ensures
            r == self.obstacle_block_count,
    {
        self.obstacle_block_count
    }

    pub fn with_obstacle_block_count(self, obstacle_block_count: u32) -> (r: GameStatus)
        ensures
            r == (GameStatus { obstacle_block_count, ..self }),
    {
        let mut status = self;
        status.obstacle_block_count = obstacle_block_count;
        status
    }

    pub fn skill_point(&self) -> (r: u32)
        ensures
            r == self.skill_point,
    {
        self.skill_point
    }

    pub fn with_skill_point(self, skill_point: u32) -> (r: GameStatus)
        ensures
            r == (GameStatus { skill_point, ..self }),
    {
        let mut status = self;
        status.skill_point = skill_point;
        status
    }

    pub fn cumulative_game_score(&self) -> (r: u32)
        ensures
            r == self.cumulative_game_score,
    {
        self.cumulative_game_score
    }

    pub fn with_cumulative_game_score(self, cumulative_game_score: u32) -> (r: GameStatus)
        ensures
            r == (GameStatus { cumulative_game_score, ..self }),
    {
        let mut status = self;
        status.cumulative_game_score = cumulative_game_score;
        status
    }

    pub fn board(&self) -> (r: Board)
        ensures
            r == self.board,
    {
        self.board
    }

    pub fn with_board(self, board: Board) -> (r: GameStatus)
        ensures
            r == (GameStatus { board, ..self }),
    {
        let mut status = self;
        status.board = board;
        status
    }
}

} // verus!
