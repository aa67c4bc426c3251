//! A node of the search: a board, the attack blocks still to be settled
//! between the players, the score so far, and the first move that led here.
use vstd::prelude::*;
use crate::bit_board::grid_hash;
use crate::board::{is_empty_board, obstacles_dropped, Board, FIELD_HEIGHT, FIELD_WIDTH};
use crate::command::Command;
use crate::pack::{encode, Pack};
use crate::simulator::{calculate_game_score, CHAIN_CUMULATIVE_SCORES, MAX_CHAIN_COUNT};
use crate::xorshift::{xorshift_step, Xorshift};
use crate::zobrist_hash_table::{score_entry, zobrist_score_entry, ZobristHash};

verus! {

/// The attack blocks owed to the player once what the player has sent is set
/// against them.
pub open spec fn netted_owed(owed: u32, sent: u32) -> u32 {
    if sent >= owed {
        0
    } else {
        (owed - sent) as u32
    }
}

/// The attack blocks the player has sent once they are set against what is
/// owed to the player.
pub open spec fn netted_sent(owed: u32, sent: u32) -> u32 {
    if sent >= owed {
        (sent - owed) as u32
    } else {
        0
    }
}

#[derive(Debug, Copy, Clone, PartialEq, Eq, PartialOrd, Ord)]
pub struct SearchState {
    /// The heuristic score, in millionths; states are ordered by it first.
    pub search_score: i64,
    pub board: Board,
    /// Attack blocks the opponent has sent and the player still owes.
    pub obstacle_block_count: u32,
    /// Attack blocks the player has sent.
    pub spawn_obstacle_block_count: u32,
    pub skill_point: u32,
    pub cumulative_game_score: u32,
    /// The first move on the way to this state.
    pub command: Option<Command>,
    /// The length of the chain of the last move.
    pub chain_count: u8,
    /// The column of the last move.
    pub point: usize,
    /// The piece of the last move.
    pub pack: Pack,
}

impl SearchState {
    pub fn default() -> (r: SearchState)
        ensures
            r.search_score == 0,
            is_empty_board(r.board),
            r.board.wf(),
            forall|x: int| 0 <= x < FIELD_WIDTH ==> r.board.heights[x] == 0,
            r.obstacle_block_count == 0,
            r.spawn_obstacle_block_count == 0,
            r.skill_point == 0,
            r.cumulative_game_score == 0,
            r.command is None,
            r.chain_count == 0,
            r.point == 0,
            r.pack@ == seq![0u8, 0u8, 0u8, 0u8],
    {
        SearchState {
            search_score: 0,
            board: Board::default(),
            obstacle_block_count: 0,
            spawn_obstacle_block_count: 0,
            skill_point: 0,
            cumulative_game_score: 0,
            command: None,
            chain_count: 0,
            point: 0,
            pack: Pack::default(),
        }
    }

    pub fn new(
        board: Board,
        obstacle_block_count: u32,
        spawn_obstacle_block_count: u32,
        skill_point: u32,
        cumulative_game_score: u32,
        command: Option<Command>,
        chain_count: u8,
        point: usize,
        pack: Pack,
        search_score: i64,
    ) -> (r: SearchState)
        ensures
            r == (SearchState {
                search_score,
                board,
                obstacle_block_count,
                spawn_obstacle_block_count,
                skill_point,
                cumulative_game_score,
                command,
                chain_count,
                point,
                pack,
            }),
    {
        SearchState {
            search_score,
            board,
            obstacle_block_count,
            spawn_obstacle_block_count,
            skill_point,
            cumulative_game_score,
            command,
            chain_count,
            point,
            pack,
        }
    }

    /// Sets the blocks sent against the blocks owed; if a full row is still
    /// owed afterwards, one row of obstacles lands and is paid off.
    pub fn update_obstacle_block_and_drop(&mut self)
        requires
            netted_owed(old(self).obstacle_block_count, old(self).spawn_obstacle_block_count)
                >= FIELD_WIDTH ==> forall|x: int|
                0 <= x < FIELD_WIDTH ==> #[trigger] old(self).board.heights[x] < FIELD_HEIGHT,
        ensures
            final(self).spawn_obstacle_block_count == netted_sent(
                old(self).obstacle_block_count,
                old(self).spawn_obstacle_block_count,
            ),
            final(self).obstacle_block_count == if netted_owed(
                old(self).obstacle_block_count,
                old(self).spawn_obstacle_block_count,
            ) >= FIELD_WIDTH {
                netted_owed(old(self).obstacle_block_count, old(self).spawn_obstacle_block_count)
                    - FIELD_WIDTH
            } else {
                netted_owed(old(self).obstacle_block_count, old(self).spawn_obstacle_block_count)
                    as int
            },
            netted_owed(old(self).obstacle_block_count, old(self).spawn_obstacle_block_count)
                >= FIELD_WIDTH ==> final(self).board@ == obstacles_dropped(
                old(self).board@,
                old(self).board.heights@,
            ) && (forall|x: int|
                0 <= x < FIELD_WIDTH ==> #[trigger] final(self).board.heights[x] == old(
                    self,
                ).board.heights[x] + 1) && final(self).board.hash() == grid_hash(final(self).board@),
            netted_owed(old(self).obstacle_block_count, old(self).spawn_obstacle_block_count)
                < FIELD_WIDTH ==> final(self).board == old(self).board,
            old(self).board.wf() ==> final(self).board.wf(),
            final(self).search_score == old(self).search_score,
            final(self).skill_point == old(self).skill_point,
            final(self).cumulative_game_score == old(self).cumulative_game_score,
            final(self).command == old(self).command,
            final(self).chain_count == old(self).chain_count,
            final(self).point == old(self).point,
            final(self).pack == old(self).pack,
    {
        self.update_obstacle_block();
        if self.obstacle_block_count >= 10 {
            self.board.drop_obstacles();
            self.obstacle_block_count -= 10;
        }
    }

    /// Sets the blocks sent against the blocks owed: the smaller of the two
    /// counters is taken off both.
    pub fn update_obstacle_block(&mut self)
        ensures
            final(self).obstacle_block_count == netted_owed(
                old(self).obstacle_block_count,
                old(self).spawn_obstacle_block_count,
            ),
            final(self).spawn_obstacle_block_count == netted_sent(
                old(self).obstacle_block_count,
                old(self).spawn_obstacle_block_count,
            ),
            final(self).board == old(self).board,
            final(self).search_score == old(self).search_score,
            final(self).skill_point == old(self).skill_point,
            final(self).cumulative_game_score == old(self).cumulative_game_score,
            final(self).command == old(self).command,
            final(self).chain_count == old(self).chain_count,
            final(self).point == old(self).point,
            final(self).pack == old(self).pack,
    {
        if self.spawn_obstacle_block_count >= self.obstacle_block_count {
            self.spawn_obstacle_block_count -= self.obstacle_block_count;
            self.obstacle_block_count = 0;
        } else {
            self.obstacle_block_count -= self.spawn_obstacle_block_count;
            self.spawn_obstacle_block_count = 0;
        }
    }

    pub fn obstacle_block_count(&self) -> (r: u32)
        ensures
            r == self.obstacle_block_count,
    {
        self.obstacle_block_count
    }

    pub fn with_obstacle_block_count(self, count: u32) -> (r: SearchState)
        ensures
            r == (SearchState { obstacle_block_count: count, ..self }),
    {
        let mut state = self;
        state.obstacle_block_count = count;
        state
    }

    pub fn spawn_obstacle_block_count(&self) -> (r: u32)
        ensures
            r == self.spawn_obstacle_block_count,
    {
        self.spawn_obstacle_block_count
    }

    /// Adds `count` to the attack blocks the player has sent.
    pub fn with_spawn_obstacle_block_count(self, count: u32) -> (r: SearchState)
        requires
            self.spawn_obstacle_block_count + count <= u32::MAX,
        ensures
            r == (SearchState {
                spawn_obstacle_block_count: (self.spawn_obstacle_block_count + count) as u32,
                ..self
            }),
    {
        let mut state = self;
        state.spawn_obstacle_block_count += count;
        state
    }

    pub fn board(&self) -> (r: Board)
        ensures
            r == self.board,
    {
        self.board
    }

    pub fn with_board(self, board: Board) -> (r: SearchState)
        ensures
            r == (SearchState { board, ..self }),
    {
        let mut state = self;
        state.board = board;
        state
    }

    pub fn cumulative_game_score(&self) -> (r: u32)
        ensures
            r == self.cumulative_game_score,
    {
        self.cumulative_game_score
    }

    pub fn with_cumulative_game_score(self, cumulative_game_score: u32) -> (r: SearchState)
        ensures
            r == (SearchState { cumulative_game_score, ..self }),
    {
        let mut state = self;
        state.cumulative_game_score = cumulative_game_score;
        state
    }

    pub fn search_score(&self) -> (r: i64)
        ensures
            r == self.search_score,
    {
        self.search_score
    }

    pub fn set_search_score(&mut self, search_score: i64)
        ensures
            *final(self) == (SearchState { search_score, ..*old(self) }),
    {
        self.search_score = search_score;
    }

    pub fn with_search_score(self, search_score: i64) -> (r: SearchState)
        ensures
            r == (SearchState { search_score, ..self }),
    {
        let mut state = self;
        state.search_score = search_score;
        state
    }

    pub fn set_command(&mut self, command: Command)
        ensures
            *final(self) == (SearchState { command: Some(command), ..*old(self) }),
    {
        self.command = Some(command);
    }

    /// Records the first move of a state that has none yet.
    pub fn with_command(self, command: Command) -> (r: SearchState)
        requires
            self.command is None,
        ensures
            r == (SearchState { command: Some(command), ..self }),
    {
        let mut state = self;
        state.command = Some(command);
        state
    }

    pub fn chain_count(&self) -> (r: u8)
        ensures
            r == self.chain_count,
    {
        self.chain_count
    }

    pub fn set_chain_count(&mut self, chain_count: u8)
        ensures
            *final(self) == (SearchState { chain_count, ..*old(self) }),
    {
        self.chain_count = chain_count;
    }

    pub fn with_chain_count(self, chain_count: u8) -> (r: SearchState)
        ensures
            r == (SearchState { chain_count, ..self }),
    {
        let mut state = self;
        state.chain_count = chain_count;
        state
    }

    /// The score of the chain of the last move.
    pub fn chain_game_score(&self) -> (r: u32)
        requires
            self.chain_count < MAX_CHAIN_COUNT,
        ensures
            r == CHAIN_CUMULATIVE_SCORES[self.chain_count as int],
    {
        calculate_game_score(self.chain_count)
    }

    pub fn set_point(&mut self, point: usize)
        ensures
            *final(self) == (SearchState { point, ..*old(self) }),
    {
        self.point = point;
    }

    pub fn with_point(self, point: usize) -> (r: SearchState)
        ensures
            r == (SearchState { point, ..self }),
    {
        let mut state = self;
        state.point = point;
        state
    }

    pub fn set_pack(&mut self, pack: Pack)
        ensures
            *final(self) == (SearchState { pack, ..*old(self) }),
    {
        self.pack = pack;
    }

    pub fn with_pack(self, pack: Pack) -> (r: SearchState)
        ensures
            r == (SearchState { pack, ..self }),
    {
        let mut state = self;
        state.pack = pack;
        state
    }

    pub fn is_command(&self) -> (r: bool)
        ensures
            r == (self.command is Some),
    {
        self.command.is_some()
    }

    pub fn command(&self) -> (r: Option<Command>)
        ensures
            r == self.command,
    {
        self.command
    }

    /// The hash under which the search recognises a state it has seen: the
    /// board's hash combined with the entry of the cumulative score.
    pub fn zobrist_hash(&self) -> (h: ZobristHash)
        ensures
            h == grid_hash(self.board@) ^ score_entry(self.cumulative_game_score),
    {
        self.board.zobrist_hash() ^ zobrist_score_entry(self.cumulative_game_score)
    }

    /// The state's hash combined with the move that led to it.
    pub fn transition_zobrist_hash(&self) -> (h: ZobristHash)
        ensures
            h == grid_hash(self.board@) ^ score_entry(self.cumulative_game_score) ^ xorshift_step(
                self.point as u64,
            ) ^ xorshift_step(encode(self.pack@) as u64),
    {
        let mut rnd = Xorshift::with_seed(self.point as u64);
        self.zobrist_hash() ^ rnd.next() ^ self.pack.hash()
    }
}

} // verus!
