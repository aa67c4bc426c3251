//! The beam-search driver: given both players' status and the pieces to
//! come, it chooses the command for the turn.
use vstd::prelude::*;
use fnv::FnvHashSet;
use crate::bit_board::{grid_valid, Grid};
use crate::board::{
    heights_of, lemma_heights_of, column_settled, danger, is_empty_board, obstacles_dropped, settled, DANGER_LINE_HEIGHT,
    EMPTY_BLOCK,
    FIELD_HEIGHT, FIELD_WIDTH, OBSTACLE_BLOCK,
};
use crate::cascade::{lemma_stack_two, simulated};
use vstd::multiset::Multiset;
use crate::beam::{evicted, top_pair, Beam, Frontier};
use crate::bit_board::grid_hash;
use crate::evaluation::{
    bomber_score, depth_score, discounted, evaluate_search_result_score,
    evaluate_search_result_score_for_bomber, judged_grid,
    judged_heights, min_of, remembers, shape_score, CHAIN_WEIGHT, MAX_SEARCH_DEPTH,
};
use crate::zobrist_hash_table::score_entry;
use crate::xorshift::{xorshift_step, xorshift_steps, Xorshift};
use crate::search_state::{netted_owed, netted_sent, SearchState};
use crate::command::Command;
use crate::evaluation::EvaluateCache;
use crate::game_status::GameStatus;
use crate::hash_tables::{set_contains, set_insert, set_new};
use crate::pack::{encode, gravity, rotated_by, Pack, MAX_PACK_BLOCK};
use crate::search_result::SearchResult;
use crate::simulator::{
    calculate_game_score, lemma_scores_increasing, calculate_obstacle_count_from_chain_count,
    calculate_spawn_obstacle_line_from_obstacle_count, Simulator, CHAIN_CUMULATIVE_SCORES,
    MAX_CHAIN_COUNT,
};
use crate::solver_config::{default_config, SolverConfig, DEFAULT_FATAL_FIRE_MAX_CHAIN_COUNT};

verus! {

/// The number of estimates a cache may hold before it is emptied.
pub const CACHE_LIMIT: usize = 512 * 1024 * 1024;

/// The variant of a piece for rotation `rotation`: turned, then settled.
pub open spec fn variant(cells: Seq<u8>, rotation: nat) -> Seq<u8> {
    gravity(rotated_by(cells, rotation))
}

/// No smaller rotation gives the same variant.
pub open spec fn is_first_variant(cells: Seq<u8>, rotation: nat) -> bool {
    forall|earlier: nat| earlier < rotation ==> #[trigger] variant(cells, earlier) != variant(
        cells,
        rotation,
    )
}

/// The distinct variants among the first `n` rotations, each with the
/// smallest rotation that gives it.
pub open spec fn variants_upto(cells: Seq<u8>, n: nat) -> Seq<(Seq<u8>, usize)>
    decreases n,
{
    if n == 0 {
        Seq::empty()
    } else {
        let rest = variants_upto(cells, (n - 1) as nat);
        if is_first_variant(cells, (n - 1) as nat) {
            rest.push((variant(cells, (n - 1) as nat), (n - 1) as usize))
        } else {
            rest
        }
    }
}

/// The cells and the rotation of every entry of a list of variants.
pub open spec fn variant_views(list: Seq<(Pack, usize)>) -> Seq<(Seq<u8>, usize)> {
    Seq::new(list.len(), |i: int| (list[i].0@, list[i].1))
}

/// Two digits that differ by a multiple of sixteen are the same digit.
proof fn lemma_same_digit(x: int, y: int, rest: int)
    requires
        0 <= x <= 15,
        0 <= y <= 15,
        x - y == 16 * rest,
    ensures
        x == y,
        rest == 0,
{
}

/// The packed form tells pieces apart.
proof fn lemma_encode_injective(a: Seq<u8>, b: Seq<u8>)
    requires
        a.len() == 4,
        b.len() == 4,
        forall|i: int| 0 <= i < 4 ==> a[i] <= 15 && b[i] <= 15,
        encode(a) == encode(b),
    ensures
        a == b,
{
    let (a0, a1, a2, a3) = (a[0] as int, a[1] as int, a[2] as int, a[3] as int);
    let (b0, b1, b2, b3) = (b[0] as int, b[1] as int, b[2] as int, b[3] as int);
    assert(a0 + 16 * a1 + 256 * a2 + 4096 * a3 == b0 + 16 * b1 + 256 * b2 + 4096 * b3);
    lemma_same_digit(a0, b0, (b1 - a1) + 16 * (b2 - a2) + 256 * (b3 - a3));
    lemma_same_digit(a1, b1, (b2 - a2) + 16 * (b3 - a3));
    lemma_same_digit(a2, b2, b3 - a3);
    assert(a =~= b);
}

/// The distinct variants of a piece: for each rotation the piece turned and
/// settled, left out where a smaller rotation gives the same cells.
pub fn pack_variants(blocks: &[u8; 4]) -> (r: Vec<(Pack, usize)>)
    requires
        forall|i: int| 0 <= i < 4 ==> blocks[i] <= MAX_PACK_BLOCK,
    ensures
        variant_views(r@) == variants_upto(blocks@, 4),
        r@.len() <= 4,
        forall|i: int| 0 <= i < r@.len() ==> (#[trigger] r@[i]).1 < 4,
{
    let mut seen: FnvHashSet<u64> = set_new();
    let mut res: Vec<(Pack, usize)> = Vec::new();
    let ghost cells = blocks@;
    for i in 0..4usize
        invariant
            cells == blocks@,
            forall|j: int| 0 <= j < 4 ==> blocks[j] <= MAX_PACK_BLOCK,
            variant_views(res@) == variants_upto(cells, i as nat),
            res@.len() <= i,
            forall|j: int| 0 <= j < res@.len() ==> (#[trigger] res@[j]).1 < 4,
            forall|key: u64|
                seen@.contains(key) <==> exists|earlier: nat|
                    earlier < i && key == encode(#[trigger] variant(cells, earlier)),
    {
        let mut pack = Pack::new(blocks);
        pack.rotates(i);
        pack.drop();
        let cell0 = pack.get(0);
        let cell1 = pack.get(1);
        let cell2 = pack.get(2);
        let cell3 = pack.get(3);
        let key: u64 = cell0 as u64 + 16 * (cell1 as u64) + 256 * (cell2 as u64) + 4096 * (
        cell3 as u64);
        let ghost v = variant(cells, i as nat);
        assert(pack@ == v);
        assert(key == encode(v));
        let known = set_contains(&seen, key);
        proof {
            if known {
                let earlier = choose|earlier: nat|
                    earlier < i && key == encode(#[trigger] variant(cells, earlier));
                lemma_variant_valid(cells, earlier);
                lemma_variant_valid(cells, i as nat);
                lemma_encode_injective(variant(cells, earlier), v);
                assert(!is_first_variant(cells, i as nat));
            } else {
                assert forall|earlier: nat| earlier < i implies #[trigger] variant(cells, earlier)
                    != v by {
                    if variant(cells, earlier) == v {
                        assert(key == encode(variant(cells, earlier)));
                    }
                }
                assert(is_first_variant(cells, i as nat));
            }
        }
        if !known {
            let ghost before = res@;
            res.push((pack, i));
            set_insert(&mut seen, key);
            proof {
                assert(variant_views(res@) =~= variant_views(before).push((v, i)));
            }
        }
        proof {
            assert forall|k: u64|
                seen@.contains(k) <==> exists|earlier: nat|
                    earlier < i + 1 && k == encode(#[trigger] variant(cells, earlier)) by {
                if exists|earlier: nat|
                    earlier < i + 1 && k == encode(#[trigger] variant(cells, earlier)) {
                    let earlier = choose|earlier: nat|
                        earlier < i + 1 && k == encode(#[trigger] variant(cells, earlier));
                    if earlier < i {
                        assert(seen@.contains(k));
                    }
                }
                if seen@.contains(k) {
                    if k == key {
                        assert(k == encode(variant(cells, i as nat)));
                    }
                }
            }
        }
    }
    res
}

/// The highest row, counted from one, at which column `x` holds an obstacle
/// among its lowest `n` cells; zero if it holds none.
pub open spec fn obstacle_top(g: Grid, x: int, n: int) -> int
    decreases n,
{
    if n <= 0 {
        0
    } else if g[n - 1][x] == OBSTACLE_BLOCK {
        n
    } else {
        obstacle_top(g, x, n - 1)
    }
}

/// The highest row, counted from one, that an obstacle of the stacks of the
/// first `n` columns reaches.
pub open spec fn obstacle_reach(g: Grid, heights: Seq<usize>, n: int) -> int
    decreases n,
{
    if n <= 0 {
        0
    } else {
        let rest = obstacle_reach(g, heights, n - 1);
        let top = obstacle_top(g, n - 1, heights[n - 1] as int);
        if top > rest {
            top
        } else {
            rest
        }
    }
}

/// The rows of obstacles still missing for the board to be lost: the rows
/// between its highest obstacle and the danger line.
pub open spec fn rows_to_kill(g: Grid, heights: Seq<usize>) -> int {
    let reach = obstacle_reach(g, heights, FIELD_WIDTH as int);
    if reach >= DANGER_LINE_HEIGHT {
        0
    } else {
        DANGER_LINE_HEIGHT - reach
    }
}

/// The full rows of obstacles a chain of the given length sends.
pub open spec fn rows_sent(chain_count: int) -> int {
    (CHAIN_CUMULATIVE_SCORES[chain_count] / 2 / 10) as int
}

/// The shortest chain from `chain_count` on that sends `rows` full rows of
/// obstacles or more; the lethal length if none below it does.
pub open spec fn shortest_sending(rows: int, chain_count: int) -> int
    decreases DEFAULT_FATAL_FIRE_MAX_CHAIN_COUNT - chain_count,
{
    if chain_count >= DEFAULT_FATAL_FIRE_MAX_CHAIN_COUNT || chain_count < 0 {
        DEFAULT_FATAL_FIRE_MAX_CHAIN_COUNT as int
    } else if rows_sent(chain_count) >= rows {
        chain_count
    } else {
        shortest_sending(rows, chain_count + 1)
    }
}

/// The chain length that kills the opponent: the shortest chain that sends
/// the rows still missing between the opponent's highest obstacle and the
/// danger line.
pub open spec fn kill_threshold(g: Grid, heights: Seq<usize>) -> int {
    shortest_sending(rows_to_kill(g, heights), 0)
}

/// The longest chain that dropping one of the first `k` of the variants'
/// drops sets off, the drops counted variant by variant and within a
/// variant column by column.
pub open spec fn longest_drop_upto(
    g: Grid,
    heights: Seq<usize>,
    variants: Seq<(Seq<u8>, usize)>,
    k: int,
) -> nat
    decreases k,
{
    if k <= 0 {
        0
    } else {
        let rest = longest_drop_upto(g, heights, variants, k - 1);
        let chain = simulated(g, heights, (k - 1) % 9, variants[(k - 1) / 9].0).1;
        if chain > rest {
            chain
        } else {
            rest
        }
    }
}

/// The search budget: the configured depth and width while thirty seconds
/// or more are left, except that after a turn whose best result lay
/// `last_depth > 0` moves ahead and promised a chain above ten the depth is
/// no more than two beyond that; five by a hundred while ten seconds or more
/// are left; three by a hundred below that.
pub open spec fn search_budget(
    rest_time_milliseconds: u32,
    last: Option<(u8, usize)>,
    config: SolverConfig,
) -> (usize, usize) {
    if rest_time_milliseconds >= 30000 {
        match last {
            Some((last_chain_count, last_depth)) => {
                if last_depth != 0 && last_chain_count > 10 && last_depth + 2 < config.beam_depth {
                    ((last_depth + 2) as usize, config.beam_width)
                } else {
                    (config.beam_depth, config.beam_width)
                }
            },
            None => (config.beam_depth, config.beam_width),
        }
    } else if rest_time_milliseconds >= 10000 {
        (5, 100)
    } else {
        (3, 100)
    }
}

/// The opponent is close to casting the special and the player leads by
/// fifty points or more: the search then hunts the special.
pub open spec fn hunting_bomber(player: GameStatus, enemy: GameStatus) -> bool {
    enemy.skill_point >= 48 && player.cumulative_game_score >= enemy.cumulative_game_score + 50
}

/// Some cell of the grid holds a five.
pub open spec fn holds_five(g: Grid) -> bool {
    exists|y: int, x: int| 0 <= y < FIELD_HEIGHT && 0 <= x < FIELD_WIDTH && #[trigger] g[y][x] == 5
}

/// The spell is due: the skill meter is full, a five is on the board, and
/// the search is not hunting the opponent's special.
pub open spec fn spell_due(player: GameStatus, enemy: GameStatus) -> bool {
    !hunting_bomber(player, enemy) && player.skill_point >= 80 && holds_five(player.board@)
}

/// A chain of `chain_count` is worth committing to at once: it reaches the
/// length that kills the opponent, whatever the opponent can answer with;
/// or, while the opponent owes less than a full row and can answer with no
/// longer a chain, it sends three full rows more than the opponent's answer
/// and debt can cancel. Chains beyond the score table send what the longest
/// chain of the table sends.
pub open spec fn fires_now(
    player: GameStatus,
    enemy: GameStatus,
    chain_count: u8,
    max_enemy_chain_count: u8,
    need_kill_chain_count: u8,
) -> bool {
    ||| chain_count >= need_kill_chain_count
    ||| {
        &&& enemy.obstacle_block_count < 10
        &&& chain_count >= max_enemy_chain_count
        &&& CHAIN_CUMULATIVE_SCORES[covered(chain_count) as int] / 2 - player.obstacle_block_count
            - (CHAIN_CUMULATIVE_SCORES[covered(max_enemy_chain_count) as int] / 2
            + enemy.obstacle_block_count) >= 30
    }
}

/// What is known of a solver from outside.
pub struct SolverView {
    /// The variants of the piece of every turn: cells and rotation.
    pub packs: Seq<Seq<(Seq<u8>, usize)>>,
    pub player: GameStatus,
    pub enemy: GameStatus,
    pub config: SolverConfig,
    pub turn: usize,
    /// Chain length and depth of the last turn's result.
    pub last_best_search_result: Option<(u8, usize)>,
    pub seed: u64,
    pub debug: bool,
    /// The remembered chain estimates.
    pub max_chain_counts: Map<u64, (u8, u8)>,
    pub erasing_all_max_chain_counts: Map<u64, u8>,
}

pub struct Solver {
    packs: Vec<Vec<(Pack, usize)>>,
    player: GameStatus,
    enemy: GameStatus,
    config: SolverConfig,
    simulator: Simulator,
    evaluate_cache: EvaluateCache,
    turn: usize,
    last_best_search_result: Option<(u8, usize)>,
    seed: u64,
    debug: bool,
}

impl View for Solver {
    type V = SolverView;

    closed spec fn view(&self) -> SolverView {
        SolverView {
            packs: Seq::new(self.packs@.len(), |t: int| variant_views(self.packs@[t]@)),
            player: self.player,
            enemy: self.enemy,
            config: self.config,
            turn: self.turn,
            last_best_search_result: self.last_best_search_result,
            seed: self.seed,
            debug: self.debug,
            max_chain_counts: self.evaluate_cache.max_chain_counts(),
            erasing_all_max_chain_counts: self.evaluate_cache.erasing_all_max_chain_counts(),
        }
    }
}

impl Solver {
    pub fn default() -> (r: Solver)
        ensures
            r@.packs.len() == 0,
            r@.config == default_config(),
            r@.turn == 0,
            r@.last_best_search_result is None,
            r@.seed == 1024,
            !r@.debug,
            r@.max_chain_counts.dom() == Set::<u64>::empty(),
            r@.erasing_all_max_chain_counts.dom() == Set::<u64>::empty(),
            r@.player.board.wf(),
            r@.enemy.board.wf(),
    {
        Solver {
            packs: Vec::new(),
            player: GameStatus::default(),
            enemy: GameStatus::default(),
            config: SolverConfig::default(),
            simulator: Simulator::default(),
            evaluate_cache: EvaluateCache::new(),
            turn: 0,
            last_best_search_result: None,
            seed: 1024,
            debug: false,
        }
    }

    pub fn new(
        packs: Vec<Vec<(Pack, usize)>>,
        player: GameStatus,
        enemy: GameStatus,
        config: SolverConfig,
        seed: u64,
        debug: bool,
    ) -> (r: Solver)
        ensures
            r@.packs == Seq::new(packs@.len(), |t: int| variant_views(packs@[t]@)),
            r@.player == player,
            r@.enemy == enemy,
            r@.config == config,
            r@.turn == 0,
            r@.last_best_search_result is None,
            r@.seed == seed,
            r@.debug == debug,
            r@.max_chain_counts.dom() == Set::<u64>::empty(),
            r@.erasing_all_max_chain_counts.dom() == Set::<u64>::empty(),
    {
        Solver {
            packs,
            player,
            enemy,
            config,
            simulator: Simulator::new(),
            evaluate_cache: EvaluateCache::new(),
            turn: 0,
            last_best_search_result: None,
            seed,
            debug,
        }
    }

    pub fn turn(&self) -> (r: usize)
        ensures
            r == self@.turn,
    {
        self.turn
    }

    pub fn with_turn(self, turn: usize) -> (r: Solver)
        ensures
            r@ == (SolverView { turn, ..self@ }),
    {
        let mut solver = self;
        solver.turn = turn;
        solver
    }

    pub fn set_turn(&mut self, turn: usize)
        ensures
            final(self)@ == (SolverView { turn, ..old(self)@ }),
    {
        self.turn = turn;
    }

    pub fn with_seed(self, seed: u64) -> (r: Solver)
        ensures
            r@ == (SolverView { seed, ..self@ }),
    {
        let mut solver = self;
        solver.seed = seed;
        solver
    }

    pub fn set_packs(&mut self, packs: Vec<Vec<(Pack, usize)>>)
        ensures
            final(self)@ == (SolverView {
                packs: Seq::new(packs@.len(), |t: int| variant_views(packs@[t]@)),
                ..old(self)@
            }),
    {
        self.packs = packs;
    }

    pub fn set_config(&mut self, config: SolverConfig)
        ensures
            final(self)@ == (SolverView { config, ..old(self)@ }),
    {
        self.config = config;
    }

    pub fn set_debug(&mut self, debug: bool)
        ensures
            final(self)@ == (SolverView { debug, ..old(self)@ }),
    {
        self.debug = debug;
    }

    /// Takes in the status of both players for the turn. The estimates
    /// remembered so far are forgotten if the opponent has just sent a full
    /// row of obstacles to a player who owed none, or if either cache has
    /// outgrown its limit; in the first case the hint from the last turn is
    /// forgotten too.
    pub fn set_game_status(&mut self, player: GameStatus, enemy: GameStatus)
        ensures
            final(self)@.player == player,
            final(self)@.enemy == enemy,
            final(self)@.packs == old(self)@.packs,
            final(self)@.config == old(self)@.config,
            final(self)@.turn == old(self)@.turn,
            final(self)@.seed == old(self)@.seed,
            final(self)@.debug == old(self)@.debug,
            final(self)@.last_best_search_result == if board_disturbed(old(self)@.player, player) {
                None
            } else {
                old(self)@.last_best_search_result
            },
            cache_outdated(old(self)@, player) ==> final(self)@.max_chain_counts.dom() == Set::<
                u64,
            >::empty() && final(self)@.erasing_all_max_chain_counts.dom() == Set::<u64>::empty(),
            !cache_outdated(old(self)@, player) ==> final(self)@.max_chain_counts == old(
                self,
            )@.max_chain_counts && final(self)@.erasing_all_max_chain_counts == old(
                self,
            )@.erasing_all_max_chain_counts,
    {
        self.clear_cache_if_needed(&player);
        self.player = player;
        self.enemy = enemy;
    }

    fn clear_cache_if_needed(&mut self, player: &GameStatus)
        ensures
            final(self)@.player == old(self)@.player,
            final(self)@.enemy == old(self)@.enemy,
            final(self)@.packs == old(self)@.packs,
            final(self)@.config == old(self)@.config,
            final(self)@.turn == old(self)@.turn,
            final(self)@.seed == old(self)@.seed,
            final(self)@.debug == old(self)@.debug,
            final(self)@.last_best_search_result == if board_disturbed(old(self)@.player, *player) {
                None
            } else {
                old(self)@.last_best_search_result
            },
            cache_outdated(old(self)@, *player) ==> final(self)@.max_chain_counts.dom() == Set::<
                u64,
            >::empty() && final(self)@.erasing_all_max_chain_counts.dom() == Set::<u64>::empty(),
            !cache_outdated(old(self)@, *player) ==> final(self)@.max_chain_counts == old(
                self,
            )@.max_chain_counts && final(self)@.erasing_all_max_chain_counts == old(
                self,
            )@.erasing_all_max_chain_counts,
    {
        let previous_obstacle_count = self.player.obstacle_block_count();
        let mut cleared = false;
        if previous_obstacle_count == 0 {
            let line_block = calculate_spawn_obstacle_line_from_obstacle_count(
                player.obstacle_block_count(),
            );
            if line_block > 0 {
                self.evaluate_cache.clear();
                self.last_best_search_result = None;
                cleared = true;
            }
        }
        if !cleared && self.evaluate_cache.len_estimate_max_chain_count() > CACHE_LIMIT {
            self.evaluate_cache.clear();
            cleared = true;
        }
        if !cleared && self.evaluate_cache.len_estimate_with_erasing_all_max_chain_count()
            > CACHE_LIMIT {
            self.evaluate_cache.clear();
        }
    }

    /// The variants of every piece of a feed, turn by turn.
    pub fn read_packs(blocks: &Vec<[u8; 4]>) -> (r: Vec<Vec<(Pack, usize)>>)
        requires
            forall|t: int, i: int| 0 <= t < blocks@.len() && 0 <= i < 4 ==> #[trigger] blocks@[t][i]
                <= MAX_PACK_BLOCK,
        ensures
            r@.len() == blocks@.len(),
            forall|t: int|
                0 <= t < r@.len() ==> variant_views((#[trigger] r@[t])@) == variants_upto(
                    blocks@[t]@,
                    4,
                ),
    {
        let mut packs: Vec<Vec<(Pack, usize)>> = Vec::new();
        for t in 0..blocks.len()
            invariant
                forall|k: int, i: int|
                    0 <= k < blocks@.len() && 0 <= i < 4 ==> #[trigger] blocks@[k][i]
                        <= MAX_PACK_BLOCK,
                packs@.len() == t,
                forall|k: int|
                    0 <= k < t ==> variant_views((#[trigger] packs@[k])@) == variants_upto(
                        blocks@[k]@,
                        4,
                    ),
        {
            assert forall|i: int| 0 <= i < 4 implies blocks@[t as int][i] <= MAX_PACK_BLOCK by {
                assert(blocks@[t as int][i] <= MAX_PACK_BLOCK);
            }
            let variants = pack_variants(&blocks[t]);
            packs.push(variants);
        }
        packs
    }

    /// The longest chain the opponent can set off with this turn's piece.
    pub fn gaze_enemy_max_chain_count(&mut self) -> (r: u8)
        requires
            old(self)@.enemy.board.wf(),
            !danger(old(self)@.enemy.board.heights@, 0),
            old(self)@.turn < old(self)@.packs.len(),
        ensures
            final(self)@ == old(self)@,
            r == longest_drop_upto(
                old(self)@.enemy.board@,
                old(self)@.enemy.board.heights@,
                old(self)@.packs[old(self)@.turn as int],
                9 * (old(self)@.packs[old(self)@.turn as int].len() as int),
            ),
    {
        let ghost view = self@;
        let enemy_board = self.enemy.board();
        let ghost g = enemy_board@;
        let ghost h = enemy_board.heights@;
        let ghost variants = view.packs[view.turn as int];
        let current_turn = self.turn;
        let count = self.packs[current_turn].len();
        let mut max_chain_count: u8 = 0;
        proof {
            assert(variants == variant_views(self.packs@[current_turn as int]@));
            assert forall|x: int| 0 <= x < FIELD_WIDTH implies #[trigger] h[x]
                < DANGER_LINE_HEIGHT by {
                if h[x] >= DANGER_LINE_HEIGHT {
                    assert(h[x] + 0 >= DANGER_LINE_HEIGHT);
                }
            }
        }
        for i in 0..count
            invariant
                self@ == view,
                current_turn == view.turn,
                count == self.packs@[current_turn as int]@.len(),
                current_turn < self.packs@.len(),
                variants == variant_views(self.packs@[current_turn as int]@),
                enemy_board.wf(),
                g == enemy_board@,
                h == enemy_board.heights@,
                forall|x: int| 0 <= x < FIELD_WIDTH ==> #[trigger] h[x] < DANGER_LINE_HEIGHT,
                max_chain_count == longest_drop_upto(g, h, variants, 9 * i),
        {
            for point in 0..9usize
                invariant
                    i < count,
                    self@ == view,
                    current_turn == view.turn,
                    count == self.packs@[current_turn as int]@.len(),
                    current_turn < self.packs@.len(),
                    variants == variant_views(self.packs@[current_turn as int]@),
                    enemy_board.wf(),
                    g == enemy_board@,
                    h == enemy_board.heights@,
                    forall|x: int| 0 <= x < FIELD_WIDTH ==> #[trigger] h[x] < DANGER_LINE_HEIGHT,
                    max_chain_count == longest_drop_upto(g, h, variants, 9 * i + point),
            {
                let mut board = enemy_board;
                let pack = &self.packs[current_turn][i].0;
                pack.recall();
                proof {
                    lemma_stack_two(pack@[2], pack@[0]);
                    lemma_stack_two(pack@[3], pack@[1]);
                    assert(h[point as int] < DANGER_LINE_HEIGHT);
                    assert(h[point + 1] < DANGER_LINE_HEIGHT);
                    assert(variants[i as int].0 == pack@);
                    assert((9 * i + point) % 9 == point && (9 * i + point) / 9 == i);
                }
                let chain_count = self.simulator.simulate(&mut board, point, pack);
                if chain_count > max_chain_count {
                    max_chain_count = chain_count;
                }
            }
        }
        max_chain_count
    }

    /// The depth and the width of this turn's search.
    pub fn beam_search_config(&self) -> (r: (usize, usize))
        ensures
            r == search_budget(
                self@.player.rest_time_milliseconds,
                self@.last_best_search_result,
                self@.config,
            ),
    {
        if self.player.rest_time_milliseconds() >= 30000 {
            let (max_beam_depth, max_beam_width) = self.config.beam();
            match self.last_best_search_result {
                Some((last_chain_count, last_search_depth)) => {
                    if last_search_depth == 0 {
                        return (max_beam_depth, max_beam_width);
                    }
                    if last_chain_count <= 10 {
                        return (max_beam_depth, max_beam_width);
                    }
                    if max_beam_depth >= 2 && last_search_depth < max_beam_depth - 2 {
                        return (last_search_depth + 2, max_beam_width);
                    }
                    return (max_beam_depth, max_beam_width);
                },
                None => {
                    return (max_beam_depth, max_beam_width);
                },
            }
        }
        if self.player.rest_time_milliseconds() >= 10000 {
            return (5, 100);
        }
        (3, 100)
    }

    /// Whether the search hunts the opponent's special.
    pub fn kill_bomber_mode(&self) -> (r: bool)
        ensures
            r == hunting_bomber(self@.player, self@.enemy),
    {
        if self.enemy.skill_point() >= 48 {
            if self.player.cumulative_game_score() >= self.enemy.cumulative_game_score() {
                let diff = self.player.cumulative_game_score() - self.enemy.cumulative_game_score();
                if diff >= 50 {
                    return true;
                }
            }
        }
        false
    }

    /// Whether the spell is due.
    pub fn should_spell_magic(&self) -> (r: bool)
        ensures
            r == spell_due(self@.player, self@.enemy),
    {
        if !self.kill_bomber_mode() && self.player.skill_point() >= 80 {
            let board = self.player.board();
            board.recall();
            for y in 0..FIELD_HEIGHT
                invariant
                    board == self@.player.board,
                    !hunting_bomber(self@.player, self@.enemy),
                    self@.player.skill_point >= 80,
                    grid_valid(board@),
                    forall|j: int, i: int|
                        0 <= j < y && 0 <= i < FIELD_WIDTH ==> #[trigger] board@[j][i] != 5,
            {
                for x in 0..FIELD_WIDTH
                    invariant
                        y < FIELD_HEIGHT,
                        board == self@.player.board,
                        !hunting_bomber(self@.player, self@.enemy),
                        self@.player.skill_point >= 80,
                        grid_valid(board@),
                        forall|j: int, i: int|
                            (0 <= j < y && 0 <= i < FIELD_WIDTH) || (j == y && 0 <= i < x)
                                ==> #[trigger] board@[j][i] != 5,
                {
                    if board.get(y, x) == 5 {
                        assert(board@[y as int][x as int] == 5);
                        return true;
                    }
                }
            }
        }
        false
    }

    /// Whether a chain of `chain_count` is worth committing to at once.
    pub fn should_fire_right_now(
        &self,
        chain_count: u8,
        max_enemy_chain_count: u8,
        need_kill_chain_count: u8,
    ) -> (r: bool)
        ensures
            r == fires_now(
                self@.player,
                self@.enemy,
                chain_count,
                max_enemy_chain_count,
                need_kill_chain_count,
            ),
    {
        fires(&self.player, &self.enemy, chain_count, max_enemy_chain_count, need_kill_chain_count)
    }

    /// Whether the solver is set up for a turn, so that it can think.
    pub fn is_ready(&self) -> (r: bool)
        ensures
            r == ready(self@),
    {
        self.player.board().is_well_formed() && !self.player.board().is_game_over()
            && self.enemy.board().is_well_formed() && self.turn < self.packs.len()
            && self.config.beam().0 <= MAX_SEARCH_DEPTH && self.player.cumulative_game_score()
            <= COUNTER_LIMIT && self.player.obstacle_block_count() <= COUNTER_LIMIT
            && self.enemy.obstacle_block_count() <= COUNTER_LIMIT
    }

    /// Chooses the command for the turn.
    ///
    /// If the spell is due, the command is the spell. Otherwise a beam search
    /// runs from the player's board: depth by depth, every state of the
    /// frontier is expanded by every variant of that depth's piece on every
    /// column, and the best-ranked states, no more than the width, form the
    /// next frontier. The search stops at the depth of the budget, where the
    /// feed of pieces ends, or at once when a first move is worth committing
    /// to. The result is the committed move if there is one, else the
    /// highest-ranked state of the last frontier, else the best result seen on
    /// the way, else the fallback.
    ///
    /// Whenever some first move does not end the game and the budget allows a
    /// first move at all, the command is such a move; if every first move
    /// ends the game, the command is the fallback. Which result comes back is
    /// fixed by `reached` and `concluded`: the search stands on some frontier
    /// with some ledger after a number of depths, and the result is what
    /// concluding on them gives.
    pub fn think(&mut self) -> (r: SearchResult)
        requires
            spell_due(old(self)@.player, old(self)@.enemy) || ready(old(self)@),
        ensures
            final(self)@.packs == old(self)@.packs,
            final(self)@.player == old(self)@.player,
            final(self)@.enemy == old(self)@.enemy,
            final(self)@.config == old(self)@.config,
            final(self)@.turn == old(self)@.turn,
            final(self)@.seed == old(self)@.seed,
            final(self)@.debug == old(self)@.debug,
            spell_due(old(self)@.player, old(self)@.enemy) ==> r.command == Command::Spell
                && final(self)@.last_best_search_result is None && final(self)@.max_chain_counts
                == old(self)@.max_chain_counts && final(self)@.erasing_all_max_chain_counts == old(
                self,
            )@.erasing_all_max_chain_counts,
            !spell_due(old(self)@.player, old(self)@.enemy) ==> r.command != Command::Spell
                && final(self)@.last_best_search_result == Some(
                (r.last_chain_count, r.search_depth),
            ),
            !spell_due(old(self)@.player, old(self)@.enemy) && has_legal_move(root_of(old(self)@))
                && search_budget(
                old(self)@.player.rest_time_milliseconds,
                old(self)@.last_best_search_result,
                old(self)@.config,
            ).0 >= 1 ==> legal(root_of(old(self)@), r.command),
            !spell_due(old(self)@.player, old(self)@.enemy) && has_legal_move(root_of(old(self)@))
                && search_budget(
                old(self)@.player.rest_time_milliseconds,
                old(self)@.last_best_search_result,
                old(self)@.config,
            ).0 >= 1 ==> found(
                root_of(old(self)@),
                r,
                search_budget(
                    old(self)@.player.rest_time_milliseconds,
                    old(self)@.last_best_search_result,
                    old(self)@.config,
                ).0 as int,
            ),
            !spell_due(old(self)@.player, old(self)@.enemy) ==> remembers(
                old(self)@.erasing_all_max_chain_counts,
                final(self)@.erasing_all_max_chain_counts,
                old(self)@.enemy.board.hash(),
            ),
            !spell_due(old(self)@.player, old(self)@.enemy) && r.fire_right_now ==> fires_now(
                old(self)@.player,
                old(self)@.enemy,
                covered(r.last_chain_count),
                covered(final(self)@.erasing_all_max_chain_counts[old(self)@.enemy.board.hash()]),
                kill_threshold(old(self)@.enemy.board@, old(self)@.enemy.board.heights@) as u8,
            ),
            !spell_due(old(self)@.player, old(self)@.enemy) && !has_legal_move(root_of(old(self)@))
                ==> r.command == Command::Drop((0usize, 0usize)) && r.search_result_score == 0
                && r.last_chain_count == 0 && r.cumulative_game_score == 0 && r.gain_game_score == 0
                && r.search_depth == 0 && !r.fire_right_now,
            !spell_due(old(self)@.player, old(self)@.enemy) ==> exists|
                depth: usize,
                frontier: Frontier,
                ledger: Ledger,
                fired: bool,
            |
                #[trigger] reached(
                    hunt_of(old(self)@, final(self)@),
                    depth as int,
                    frontier,
                    ledger,
                    fired,
                ) && (fired || depth == horizon(old(self)@)) && ledger.cache
                    == final(self)@.max_chain_counts && concluded(
                    frontier,
                    depth,
                    fired,
                    ledger.best,
                    r,
                ),
            r.search_depth <= MAX_SEARCH_DEPTH,
    {
        let ghost view = self@;
        let ghost root = root_of(view);
        if self.should_spell_magic() {
            let mut result = SearchResult::default();
            result.command = Command::Spell;
            self.last_best_search_result = None;
            return result;
        }
        let (beam_depth, beam_width) = self.beam_search_config();
        self.last_best_search_result = None;
        proof {
            assert forall|x: int| 0 <= x < FIELD_WIDTH implies #[trigger] self@.enemy.board.heights[x]
                <= FIELD_HEIGHT by {
                assert(column_settled(
                    self@.enemy.board@,
                    x,
                    self@.enemy.board.heights@[x] as int,
                ));
            }
        }
        let need_kill_chain_count = self.gaze_enemy_need_kill_chain_count();
        let enemy_board = self.enemy.board();
        let estimate = self.evaluate_cache.estimate_with_erasing_all_max_chain_count(
            &mut self.simulator,
            &enemy_board,
        );
        let max_enemy_chain_count: u8 = if estimate < 50 {
            estimate
        } else {
            49
        };
        let bomber = self.kill_bomber_mode();
        let player = self.player;
        let enemy = self.enemy;
        let seed = (self.turn as u64).wrapping_add(self.seed);
        let ghost h = Hunt {
            packs: view.packs,
            turn: view.turn as int,
            player: view.player,
            enemy: view.enemy,
            width: beam_width,
            max_enemy_chain_count,
            need_kill_chain_count,
            seed,
            cache: view.max_chain_counts,
        };
        proof {
            assert(root.heights =~= root_of(view).heights);
            assert(roots(h, root));
        }
        let (last, depth, fired, best, Ghost(ledger)) = search(
            &mut self.simulator,
            &mut self.evaluate_cache,
            &self.packs,
            self.turn,
            &player,
            &enemy,
            beam_depth,
            beam_width,
            seed,
            bomber,
            max_enemy_chain_count,
            need_kill_chain_count,
            Ghost(root),
            Ghost(h),
        );
        let ghost frontier = last@;
        let ghost states = last.states();
        let result = conclude(last, depth, fired, best);
        proof {
            if takes_top(frontier, depth, fired) {
                let i = choose|i: int| 0 <= i < states.len() && states[i] == frontier.top();
                assert(node_ok(root, states[i], depth as int));
            }
        }
        proof {
            lemma_legal_is_move(root, result.command);
        }
        self.last_best_search_result = Some((result.last_chain_count, result.search_depth));
        proof {
            assert(h == hunt_of(view, self@));
            assert(reached(hunt_of(view, self@), depth as int, frontier, ledger, fired));
        }
        result
    }

    /// The shortest chain that sends the opponent enough full rows of
    /// obstacles to push the highest obstacle of the opponent's board over the
    /// danger line; the lethal length if no shorter chain does.
    pub fn gaze_enemy_need_kill_chain_count(&self) -> (r: u8)
        requires
            forall|x: int| 0 <= x < FIELD_WIDTH ==> #[trigger] self@.enemy.board.heights[x] <= FIELD_HEIGHT,
        ensures
            r == kill_threshold(self@.enemy.board@, self@.enemy.board.heights@),
            r <= DEFAULT_FATAL_FIRE_MAX_CHAIN_COUNT,
            forall|shorter: int|
                0 <= shorter < r ==> #[trigger] rows_sent(shorter) < rows_to_kill(
                    self@.enemy.board@,
                    self@.enemy.board.heights@,
                ),
            r < DEFAULT_FATAL_FIRE_MAX_CHAIN_COUNT ==> rows_sent(r as int) >= rows_to_kill(
                self@.enemy.board@,
                self@.enemy.board.heights@,
            ),
    {
        let board = self.enemy.board();
        let ghost g = board@;
        let ghost h = board.heights@;
        let mut spawned_obstacle_count: usize = 0;
        board.recall();
        proof {
            assert(board == self@.enemy.board);
            assert forall|i: int| 0 <= i < FIELD_WIDTH implies #[trigger] h[i] <= FIELD_HEIGHT by {
                assert(self@.enemy.board.heights[i] <= FIELD_HEIGHT);
            }
        }
        for x in 0..FIELD_WIDTH
            invariant
                g == board@,
                grid_valid(g),
                h == board.heights@,
                forall|i: int| 0 <= i < FIELD_WIDTH ==> #[trigger] h[i] <= FIELD_HEIGHT,
                spawned_obstacle_count == obstacle_reach(g, h, x as int),
                spawned_obstacle_count <= FIELD_HEIGHT,
        {
            let mut y = board.heights[x];
            let mut top: usize = 0;
            while y > 0
                invariant_except_break
                    top == 0,
                    obstacle_top(g, x as int, h[x as int] as int) == obstacle_top(
                        g,
                        x as int,
                        y as int,
                    ),
                invariant
                    x < FIELD_WIDTH,
                    g == board@,
                    grid_valid(g),
                    h.len() == FIELD_WIDTH,
                    y <= h[x as int] <= FIELD_HEIGHT,
                ensures
                    top == obstacle_top(g, x as int, h[x as int] as int),
                    top <= FIELD_HEIGHT,
                decreases y,
            {
                if board.get(y - 1, x) == OBSTACLE_BLOCK {
                    top = y;
                    break ;
                }
                y -= 1;
            }
            if top > spawned_obstacle_count {
                spawned_obstacle_count = top;
            }
        }
        let need_kill_line: u32 = if spawned_obstacle_count >= DANGER_LINE_HEIGHT {
            0
        } else {
            (DANGER_LINE_HEIGHT - spawned_obstacle_count) as u32
        };
        for chain_count in 0..DEFAULT_FATAL_FIRE_MAX_CHAIN_COUNT
            invariant
                need_kill_line == rows_to_kill(g, h),
                g == self@.enemy.board@,
                h == self@.enemy.board.heights@,
                forall|shorter: int|
                    0 <= shorter < chain_count ==> #[trigger] rows_sent(shorter) < need_kill_line,
                kill_threshold(g, h) == shortest_sending(need_kill_line as int, chain_count as int),
        {
            let spawned_obstacle_count = calculate_obstacle_count_from_chain_count(chain_count);
            let spawned_line = calculate_spawn_obstacle_line_from_obstacle_count(
                spawned_obstacle_count,
            );
            if spawned_line >= need_kill_line {
                return chain_count;
            }
        }
        DEFAULT_FATAL_FIRE_MAX_CHAIN_COUNT
    }
}

/// The longest chain a state may end on and still be built on: a state
/// reached by a longer chain is kept out of the next frontier.
pub const FIRE_CHAIN_COUNT: u8 = 10;

/// The counters a turn starts with may not exceed this, so that the sums a
/// search builds on them fit their type.
pub const COUNTER_LIMIT: u32 = 0x4000_0000;

/// The highest score of the table.
pub const MAX_GAIN: u32 = 1659735;

/// The chain length by which a chain is scored: the score table ends at
/// forty-nine, and a longer chain scores as one of forty-nine.
pub open spec fn covered(chain_count: u8) -> u8 {
    if chain_count < MAX_CHAIN_COUNT {
        chain_count
    } else {
        (MAX_CHAIN_COUNT - 1) as u8
    }
}

/// Some column of the grid holds a block on the danger line.
pub open spec fn overflows(g: Grid) -> bool {
    exists|x: int| 0 <= x < FIELD_WIDTH && #[trigger] g[DANGER_LINE_HEIGHT - 1][x] != EMPTY_BLOCK
}

/// On a settled board the game is over exactly if the grid overflows.
pub proof fn lemma_danger_is_overflow(g: Grid, heights: Seq<usize>)
    requires
        settled(g, heights),
    ensures
        danger(heights, 0) == overflows(g),
{
    if danger(heights, 0) {
        let x = choose|x: int| 0 <= x < heights.len() && #[trigger] heights[x] + 0 >= DANGER_LINE_HEIGHT;
        assert(column_settled(g, x, heights[x] as int));
        assert(g[DANGER_LINE_HEIGHT - 1][x] != EMPTY_BLOCK);
    }
    if overflows(g) {
        let x = choose|x: int|
            0 <= x < FIELD_WIDTH && #[trigger] g[DANGER_LINE_HEIGHT - 1][x] != EMPTY_BLOCK;
        assert(column_settled(g, x, heights[x] as int));
        assert(heights[x] + 0 >= DANGER_LINE_HEIGHT);
    }
}

/// Where a turn's search starts: the variants of the turn's piece and the
/// player's board once the attack blocks are settled.
pub struct Root {
    pub variants: Seq<(Seq<u8>, usize)>,
    pub grid: Grid,
    pub heights: Seq<usize>,
    /// The player's cumulative score at the start of the turn.
    pub score: u32,
}

/// The root of the turn a solver is set up for: the blocks the player owes
/// are set against the blocks the opponent owes, and a row of obstacles
/// lands on the player's board if a full row is still owed.
pub open spec fn root_of(solver: SolverView) -> Root {
    let owed = netted_owed(solver.player.obstacle_block_count, solver.enemy.obstacle_block_count);
    let board = solver.player.board;
    Root {
        variants: solver.packs[solver.turn as int],
        grid: if owed >= FIELD_WIDTH {
            obstacles_dropped(board@, board.heights@)
        } else {
            board@
        },
        heights: if owed >= FIELD_WIDTH {
            Seq::new(FIELD_WIDTH as nat, |x: int| (board.heights[x] + 1) as usize)
        } else {
            board.heights@
        },
        score: solver.player.cumulative_game_score,
    }
}

/// A result the search has found: it names a legal first move, lies no
/// deeper than `depth` moves ahead, shows a board whose game is not over,
/// carries the score of its last chain and a cumulative score no lower than
/// the turn started with, and is committed to at once only as a first move.
pub open spec fn found(root: Root, result: SearchResult, depth: int) -> bool {
    &&& legal(root, result.command)
    &&& result.search_depth <= depth
    &&& result.board.wf()
    &&& !danger(result.board.heights@, 0)
    &&& result.gain_game_score == CHAIN_CUMULATIVE_SCORES[covered(result.last_chain_count) as int]
    &&& result.cumulative_game_score >= root.score
    &&& result.fire_right_now ==> result.search_depth == 0
}

/// Dropping variant `i` on column `point` does not end the game.
pub open spec fn survives(root: Root, point: int, i: int) -> bool {
    !overflows(simulated(root.grid, root.heights, point, root.variants[i].0).0)
}

/// The command is a first move that does not end the game: a drop of one
/// of the turn's variants, named by its rotation, on one of the nine columns.
pub open spec fn legal(root: Root, command: Command) -> bool {
    match command {
        Command::Drop((point, rotation)) => point <= FIELD_WIDTH - 2 && exists|i: int|
            0 <= i < root.variants.len() && (#[trigger] root.variants[i]).1 == rotation && survives(
                root,
                point as int,
                i,
            ),
        Command::Spell => false,
    }
}

/// Some first move does not end the game.
pub open spec fn has_legal_move(root: Root) -> bool {
    exists|point: int, i: int|
        0 <= point <= FIELD_WIDTH - 2 && 0 <= i < root.variants.len() && #[trigger] survives(
            root,
            point,
            i,
        )
}

/// The solver is set up for a turn: both boards are settled, the player's
/// game is not over, the feed holds the turn's piece, the configured depth
/// lies within the decay table, and the counters are within their limit.
pub open spec fn ready(solver: SolverView) -> bool {
    &&& solver.player.board.wf()
    &&& !danger(solver.player.board.heights@, 0)
    &&& solver.enemy.board.wf()
    &&& solver.turn < solver.packs.len()
    &&& solver.config.beam_depth <= MAX_SEARCH_DEPTH
    &&& solver.player.cumulative_game_score <= COUNTER_LIMIT
    &&& solver.player.obstacle_block_count <= COUNTER_LIMIT
    &&& solver.enemy.obstacle_block_count <= COUNTER_LIMIT
}

/// A state `depth` moves into the search: its game is not over, its
/// counters are within what `depth` moves can add, and from the first move
/// on it carries a legal first move.
spec fn node_ok(root: Root, state: SearchState, depth: int) -> bool {
    &&& state.board.wf()
    &&& !danger(state.board.heights@, 0)
    &&& root.score <= state.cumulative_game_score <= COUNTER_LIMIT + depth * MAX_GAIN
    &&& state.obstacle_block_count <= COUNTER_LIMIT
    &&& state.spawn_obstacle_block_count <= COUNTER_LIMIT + depth * MAX_GAIN
    &&& depth >= 1 ==> state.command is Some && legal(root, state.command->0)
}

/// A state ready to be expanded: its attack blocks are settled, so that its
/// stacks may stand one row higher than a state's at rest.
spec fn expandable(root: Root, state: SearchState, depth: int) -> bool {
    &&& state.board.wf()
    &&& forall|x: int| 0 <= x < FIELD_WIDTH ==> #[trigger] state.board.heights[x] <= DANGER_LINE_HEIGHT
    &&& root.score <= state.cumulative_game_score <= COUNTER_LIMIT + depth * MAX_GAIN
    &&& state.obstacle_block_count <= COUNTER_LIMIT
    &&& state.spawn_obstacle_block_count <= COUNTER_LIMIT + depth * MAX_GAIN
    &&& depth >= 1 ==> state.command is Some && legal(root, state.command->0)
    &&& depth == 0 ==> state.command is None && state.board@ == root.grid && state.board.heights@
        == root.heights
}

/// A legal command is a first move that does not end the game.
proof fn lemma_legal_is_move(root: Root, command: Command)
    ensures
        legal(root, command) ==> has_legal_move(root) && command != Command::Spell,
{
    if legal(root, command) {
        match command {
            Command::Drop((point, rotation)) => {
                let i = choose|i: int|
                    0 <= i < root.variants.len() && (#[trigger] root.variants[i]).1 == rotation
                        && survives(root, point as int, i);
                assert(survives(root, point as int, i));
            },
            Command::Spell => {},
        }
    }
}

proof fn lemma_max_gain(chain_count: int)
    requires
        0 <= chain_count < MAX_CHAIN_COUNT,
    ensures
        CHAIN_CUMULATIVE_SCORES[chain_count] <= MAX_GAIN,
{
    if chain_count < MAX_CHAIN_COUNT - 1 {
        lemma_scores_increasing(chain_count, MAX_CHAIN_COUNT - 1);
    }
}

/// The state that follows when a piece is dropped on column `point` of a
/// state whose attack blocks are settled, or nothing if the drop ends the
/// game. The chain's score is added to the cumulative score and half of it
/// to the blocks sent, which are then set against the blocks owed. A state
/// without a first move takes this drop for its first move.
pub fn next_state(
    simulator: &mut Simulator,
    state: &SearchState,
    pack: &Pack,
    rotate_count: usize,
    point: usize,
) -> (r: Option<SearchState>)
    requires
        state.board.wf(),
        forall|x: int| 0 <= x < FIELD_WIDTH ==> #[trigger] state.board.heights[x] <= DANGER_LINE_HEIGHT,
        point <= FIELD_WIDTH - 2,
        state.cumulative_game_score + MAX_GAIN <= u32::MAX,
        state.spawn_obstacle_block_count + MAX_GAIN <= u32::MAX,
    ensures
        r is None <==> overflows(
            simulated(state.board@, state.board.heights@, point as int, pack@).0,
        ),
        r is Some ==> r->0.board.wf() && !danger(r->0.board.heights@, 0),
        r is Some ==> (r->0.board@, r->0.chain_count as nat) == simulated(
            state.board@,
            state.board.heights@,
            point as int,
            pack@,
        ),
        r is Some ==> r->0.cumulative_game_score == state.cumulative_game_score
            + CHAIN_CUMULATIVE_SCORES[covered(r->0.chain_count) as int],
        r is Some ==> r->0.obstacle_block_count == netted_owed(
            state.obstacle_block_count,
            (state.spawn_obstacle_block_count + CHAIN_CUMULATIVE_SCORES[covered(
                r->0.chain_count,
            ) as int] / 2) as u32,
        ),
        r is Some ==> r->0.spawn_obstacle_block_count == netted_sent(
            state.obstacle_block_count,
            (state.spawn_obstacle_block_count + CHAIN_CUMULATIVE_SCORES[covered(
                r->0.chain_count,
            ) as int] / 2) as u32,
        ),
        r is Some ==> r->0.command == match state.command {
            Some(command) => Some(command),
            None => Some(Command::Drop((point, rotate_count))),
        },
        r is Some ==> r->0.point == point && r->0.pack == *pack && r->0.skill_point
            == state.skill_point && r->0.search_score == state.search_score,
{
    let mut board = state.board();
    pack.recall();
    proof {
        lemma_stack_two(pack@[2], pack@[0]);
        lemma_stack_two(pack@[3], pack@[1]);
        assert(state.board.heights[point as int] <= DANGER_LINE_HEIGHT);
        assert(state.board.heights[point + 1] <= DANGER_LINE_HEIGHT);
    }
    let chain_count = simulator.simulate(&mut board, point, pack);
    proof {
        lemma_danger_is_overflow(board@, board.heights@);
    }
    if board.is_game_over() {
        return None;
    }
    let scored: u8 = if chain_count < 50 {
        chain_count
    } else {
        49
    };
    proof {
        lemma_max_gain(scored as int);
    }
    let gain_chain_game_score = calculate_game_score(scored);
    let mut next = state.with_board(board).with_cumulative_game_score(
        gain_chain_game_score + state.cumulative_game_score(),
    ).with_spawn_obstacle_block_count(calculate_obstacle_count_from_chain_count(scored))
        .with_chain_count(chain_count).with_point(point).with_pack(*pack);
    next.update_obstacle_block();
    if !next.is_command() {
        next.set_command(Command::Drop((point, rotate_count)));
    }
    Some(next)
}

/// The result that stands for a state `depth` moves ahead: its score, its
/// last chain and that chain's score, its cumulative score and board, and
/// the first move on the way to it.
pub open spec fn result_of(state: SearchState, depth: usize) -> SearchResult {
    SearchResult {
        search_result_score: state.search_score,
        last_chain_count: state.chain_count,
        cumulative_game_score: state.cumulative_game_score,
        gain_game_score: CHAIN_CUMULATIVE_SCORES[covered(state.chain_count) as int],
        search_depth: depth,
        board: state.board,
        command: state.command->0,
        fire_right_now: false,
    }
}

/// The result of a search that found nothing: the fallback command, an empty
/// board, and every number at zero.
pub open spec fn is_fallback(result: SearchResult) -> bool {
    &&& result.search_result_score == 0
    &&& result.last_chain_count == 0
    &&& result.cumulative_game_score == 0
    &&& result.gain_game_score == 0
    &&& result.search_depth == 0
    &&& is_empty_board(result.board)
    &&& result.command == Command::Drop((0usize, 0usize))
    &&& !result.fire_right_now
}

/// The search ends on its last frontier: no move was committed to at once,
/// at least one move was searched, and the frontier's highest-ranked state
/// carries a first move.
pub open spec fn takes_top(frontier: Frontier, depth: usize, fired: bool) -> bool {
    !fired && depth >= 1 && frontier.kept.len() > 0 && frontier.top().command is Some
}

/// `result` is the result of a search that ended on `frontier` after `depth`
/// moves, having committed to a move at once or not, with `best` the best
/// result seen on the way.
pub open spec fn concluded(
    frontier: Frontier,
    depth: usize,
    fired: bool,
    best: Option<SearchResult>,
    result: SearchResult,
) -> bool {
    &&& takes_top(frontier, depth, fired) ==> result == result_of(frontier.top(), depth)
    &&& !takes_top(frontier, depth, fired) && best is Some ==> result == best->0
    &&& !takes_top(frontier, depth, fired) && best is None ==> is_fallback(result)
}

/// The result of a finished search. Where the search ends on its last
/// frontier, the result stands for the frontier's highest-ranked state;
/// otherwise it is the best result seen on the way (the move committed to,
/// if one was), or the fallback if none was recorded.
pub fn conclude(frontier: Beam, depth: usize, fired: bool, best: Option<SearchResult>) -> (r:
    SearchResult)
    requires
        frontier.wf(),
    ensures
        concluded(frontier@, depth, fired, best, r),
        takes_top(frontier@, depth, fired) ==> exists|i: int|
            0 <= i < frontier.states().len() && #[trigger] frontier.states()[i] == frontier@.top(),
{
    let mut frontier = frontier;
    if !fired && depth >= 1 {
        match frontier.pop_max() {
            Some(top) => {
                match top.command() {
                    Some(command) => {
                        let chain_count = top.chain_count();
                        let scored: u8 = if chain_count < 50 {
                            chain_count
                        } else {
                            49
                        };
                        return SearchResult {
                            search_result_score: top.search_score(),
                            last_chain_count: chain_count,
                            cumulative_game_score: top.cumulative_game_score(),
                            gain_game_score: calculate_game_score(scored),
                            search_depth: depth,
                            board: top.board(),
                            command,
                            fire_right_now: false,
                        };
                    },
                    None => {},
                }
            },
            None => {},
        }
    }
    match best {
        Some(result) => result,
        None => SearchResult::default(),
    }
}

/// One expansion as it starts: the state expanded, with its attack blocks
/// settled; the variants of the piece; the hashes already recorded as
/// searched; the state of the jitter's generator; and the states the next
/// frontier has been offered so far.
pub struct Expansion {
    pub state: SearchState,
    pub variants: Seq<(Seq<u8>, usize)>,
    pub searched: Set<u64>,
    pub seed: u64,
    pub frontier: Seq<SearchState>,
}

/// The chain length by which a chain of `n` passes is scored.
pub open spec fn scored_chain(n: nat) -> u8 {
    if n < MAX_CHAIN_COUNT {
        n as u8
    } else {
        (MAX_CHAIN_COUNT - 1) as u8
    }
}

/// The grid and the chain that drop `k` of an expansion leaves: the drops
/// are numbered variant by variant, and within a variant column by column.
pub open spec fn drop_outcome(e: Expansion, k: int) -> (Grid, nat) {
    simulated(e.state.board@, e.state.board.heights@, k % 9, e.variants[k / 9].0)
}

/// Drop `k` does not end the game.
pub open spec fn drop_survives(e: Expansion, k: int) -> bool {
    !overflows(drop_outcome(e, k).0)
}

/// The cumulative score after drop `k`.
pub open spec fn drop_total(e: Expansion, k: int) -> int {
    e.state.cumulative_game_score + CHAIN_CUMULATIVE_SCORES[scored_chain(
        drop_outcome(e, k).1,
    ) as int]
}

/// The hash under which the state after drop `k` is recorded as searched.
pub open spec fn drop_key(e: Expansion, k: int) -> u64 {
    grid_hash(drop_outcome(e, k).0) ^ score_entry(drop_total(e, k) as u32)
}

/// Some surviving drop before `k` leads to a state recorded under `key`.
pub open spec fn reached_before(e: Expansion, k: int, key: u64) -> bool {
    exists|j: int| 0 <= j < k && drop_survives(e, j) && #[trigger] drop_key(e, j) == key
}

/// Drop `k` leads to a state not reached before: it does not end the game,
/// and its hash was neither recorded when the expansion started nor is the
/// hash of an earlier surviving drop.
pub open spec fn is_new(e: Expansion, k: int) -> bool {
    drop_survives(e, k) && !e.searched.contains(drop_key(e, k)) && !reached_before(
        e,
        k,
        drop_key(e, k),
    )
}

/// Drop `k` is offered to the next frontier: it leads to a new state, and
/// its chain is short enough to be built on rather than fired.
pub open spec fn is_offered(e: Expansion, k: int) -> bool {
    is_new(e, k) && drop_outcome(e, k).1 <= FIRE_CHAIN_COUNT
}

/// The number of drops before `k` that lead to a new state.
pub open spec fn count_new(e: Expansion, k: int) -> nat
    decreases k,
{
    if k <= 0 {
        0
    } else {
        count_new(e, k - 1) + if is_new(e, k - 1) {
            1nat
        } else {
            0nat
        }
    }
}

/// The number of drops before `k` that are offered to the next frontier.
pub open spec fn count_offered(e: Expansion, k: int) -> nat
    decreases k,
{
    if k <= 0 {
        0
    } else {
        count_offered(e, k - 1) + if is_offered(e, k - 1) {
            1nat
        } else {
            0nat
        }
    }
}

/// The place in the next frontier's states at which drop `k` stands if it
/// is offered: behind what was offered before the expansion and the drops
/// offered before `k`.
pub open spec fn place_of(e: Expansion, k: int) -> int {
    (e.frontier.len() + count_offered(e, k)) as int
}

/// `child` is the state that follows drop `k`: the board the drop leaves,
/// the chain's length, its score added to the cumulative score and half of
/// it to the blocks sent, the blocks sent set against the blocks owed, and
/// the first move, which is this drop where the state expanded had none.
pub open spec fn is_child(e: Expansion, k: int, child: SearchState) -> bool {
    let gain = CHAIN_CUMULATIVE_SCORES[scored_chain(drop_outcome(e, k).1) as int];
    let sent = (e.state.spawn_obstacle_block_count + gain / 2) as u32;
    &&& child.board@ == drop_outcome(e, k).0
    &&& child.board.wf()
    &&& child.chain_count as nat == drop_outcome(e, k).1
    &&& child.cumulative_game_score == drop_total(e, k)
    &&& child.obstacle_block_count == netted_owed(e.state.obstacle_block_count, sent)
    &&& child.spawn_obstacle_block_count == netted_sent(e.state.obstacle_block_count, sent)
    &&& child.command == match e.state.command {
        Some(command) => Some(command),
        None => Some(Command::Drop(((k % 9) as usize, e.variants[k / 9].1))),
    }
    &&& child.point == k % 9
    &&& child.pack@ == e.variants[k / 9].0
    &&& child.skill_point == e.state.skill_point
}

/// The heuristic score `child` carries is the remembered single-drop
/// estimate of the board it is judged by, a hundred thousand points a link,
/// plus the score of that board's shape, plus `jitter`.
pub open spec fn is_scored(cache: Map<u64, (u8, u8)>, child: SearchState, jitter: int) -> bool {
    let key = grid_hash(judged_grid(child));
    cache.contains_key(key) && child.search_score == cache[key].0 * CHAIN_WEIGHT + shape_score(
        judged_grid(child),
        judged_heights(child),
        0,
    ) + jitter
}

/// The jitter of the `n`-th new state of an expansion, counted from zero:
/// the generator's output after `n + 1` rounds, reduced to less than a point.
pub open spec fn jitter_of(e: Expansion, n: nat) -> int {
    (xorshift_steps(e.seed, n + 1) % 1_000_000) as int
}

/// How far an expansion has come after its first `k` drops. The next
/// frontier has been offered, behind what it had been offered before, the
/// states of the offered drops in order, each scored with its jitter; the
/// hashes recorded as searched are those recorded before and those of the
/// surviving drops; and the generator has made one round for each new state.
#[verifier::opaque]
pub open spec fn progress(
    e: Expansion,
    k: int,
    frontier: Seq<SearchState>,
    searched: Set<u64>,
    seed: u64,
    cache: Map<u64, (u8, u8)>,
) -> bool {
    &&& frontier.len() == e.frontier.len() + count_offered(e, k)
    &&& forall|i: int| 0 <= i < e.frontier.len() ==> #[trigger] frontier[i] == e.frontier[i]
    &&& forall|j: int|
        0 <= j < k && #[trigger] is_offered(e, j) ==> is_child(
            e,
            j,
            frontier[place_of(e, j)],
        ) && is_scored(
            cache,
            frontier[place_of(e, j)],
            jitter_of(e, count_new(e, j)),
        )
    &&& forall|key: u64| #[trigger]
        searched.contains(key) <==> e.searched.contains(key) || reached_before(e, k, key)
    &&& seed == xorshift_steps(e.seed, count_new(e, k))
}

proof fn lemma_counts_grow(e: Expansion, j: int, k: int)
    requires
        0 <= j <= k,
    ensures
        count_offered(e, j) <= count_offered(e, k),
        count_new(e, j) <= count_new(e, k),
        j < k && is_offered(e, j) ==> count_offered(e, j) < count_offered(e, k),
    decreases k - j,
{
    if j < k {
        lemma_counts_grow(e, j, k - 1);
    }
}

/// A drop that ends the game, or leads to a state recorded already, leaves
/// the expansion where it was.
proof fn lemma_progress_skip(
    e: Expansion,
    k: int,
    frontier: Seq<SearchState>,
    searched: Set<u64>,
    seed: u64,
    cache: Map<u64, (u8, u8)>,
)
    requires
        0 <= k,
        progress(e, k, frontier, searched, seed, cache),
        !drop_survives(e, k) || searched.contains(drop_key(e, k)),
    ensures
        !is_new(e, k),
        progress(e, k + 1, frontier, searched, seed, cache),
{
    reveal(progress);
    assert(!is_new(e, k));
    assert(count_offered(e, k + 1) == count_offered(e, k));
    assert(count_new(e, k + 1) == count_new(e, k));
    assert forall|key: u64| #[trigger]
        searched.contains(key) <==> e.searched.contains(key) || reached_before(e, k + 1, key) by {
        if reached_before(e, k + 1, key) {
            let j = choose|j: int| 0 <= j < k + 1 && drop_survives(e, j) && #[trigger] drop_key(e, j) == key;
            if j < k {
                assert(reached_before(e, k, key));
            }
        }
        if reached_before(e, k, key) {
            let j = choose|j: int| 0 <= j < k && drop_survives(e, j) && #[trigger] drop_key(e, j) == key;
            assert(drop_key(e, j) == key);
        }
    }
}

/// A drop that leads to a new state records its hash, takes one round of
/// jitter, and offers the state to the next frontier unless its chain is to
/// be fired.
proof fn lemma_progress_take(
    e: Expansion,
    k: int,
    frontier: Seq<SearchState>,
    searched: Set<u64>,
    seed: u64,
    cache: Map<u64, (u8, u8)>,
    child: SearchState,
    after: Map<u64, (u8, u8)>,
)
    requires
        0 <= k,
        progress(e, k, frontier, searched, seed, cache),
        drop_survives(e, k),
        !searched.contains(drop_key(e, k)),
        is_child(e, k, child),
        remembers(cache, after, grid_hash(judged_grid(child))),
        is_scored(after, child, (xorshift_step(seed) % 1_000_000) as int),
    ensures
        is_new(e, k),
        frontier.len() == place_of(e, k),
        jitter_of(e, count_new(e, k)) == (xorshift_step(seed) % 1_000_000) as int,
        progress(
            e,
            k + 1,
            if is_offered(e, k) {
                frontier.push(child)
            } else {
                frontier
            },
            searched.insert(drop_key(e, k)),
            xorshift_step(seed),
            after,
        ),
{
    reveal(progress);
    let grown = if is_offered(e, k) {
        frontier.push(child)
    } else {
        frontier
    };
    let base = e.frontier.len() as int;
    assert(is_new(e, k));
    assert(count_new(e, k + 1) == count_new(e, k) + 1);
    assert(jitter_of(e, count_new(e, k)) == (xorshift_step(seed) % 1_000_000) as int);
    assert forall|j: int| 0 <= j < k + 1 && #[trigger] is_offered(e, j) implies is_child(
        e,
        j,
        grown[place_of(e, j)],
    ) && is_scored(after, grown[place_of(e, j)], jitter_of(e, count_new(e, j))) by {
        if j < k {
            lemma_counts_grow(e, j, k);
            let earlier = frontier[place_of(e, j)];
            assert(grown[place_of(e, j)] == earlier);
            assert(is_scored(cache, earlier, jitter_of(e, count_new(e, j))));
        } else {
            assert(grown[place_of(e, k)] == child);
        }
    }
    let marked = searched.insert(drop_key(e, k));
    assert forall|key: u64| #[trigger]
        marked.contains(key) <==> e.searched.contains(key) || reached_before(e, k + 1, key) by {
        if reached_before(e, k + 1, key) {
            let j = choose|j: int| 0 <= j < k + 1 && drop_survives(e, j) && #[trigger] drop_key(e, j) == key;
            if j < k {
                assert(reached_before(e, k, key));
            }
        }
        if reached_before(e, k, key) {
            let j = choose|j: int| 0 <= j < k && drop_survives(e, j) && #[trigger] drop_key(e, j) == key;
            assert(drop_key(e, j) == key);
        }
        if key == drop_key(e, k) {
            assert(drop_key(e, k) == key);
        }
    }
}

/// The pairs the next frontier keeps after the first `k` drops of an
/// expansion: each offered drop is pushed in turn, at the given width, with
/// the score its state carries in `states`.
pub open spec fn kept_after(
    e: Expansion,
    k: int,
    states: Seq<SearchState>,
    kept: Multiset<(i64, usize)>,
    width: nat,
) -> Multiset<(i64, usize)>
    decreases k,
{
    if k <= 0 {
        kept
    } else {
        let before = kept_after(e, k - 1, states, kept, width);
        if is_offered(e, k - 1) {
            evicted(
                before.insert((states[place_of(e, k - 1)].search_score, place_of(e, k - 1) as usize)),
                width,
            )
        } else {
            before
        }
    }
}

/// What is kept depends on the states of the offered drops alone.
proof fn lemma_kept_after_agrees(
    e: Expansion,
    k: int,
    a: Seq<SearchState>,
    b: Seq<SearchState>,
    kept: Multiset<(i64, usize)>,
    width: nat,
)
    requires
        forall|j: int| 0 <= j < k && #[trigger] is_offered(e, j) ==> a[place_of(e, j)] == b[place_of(e, j)],
    ensures
        kept_after(e, k, a, kept, width) == kept_after(e, k, b, kept, width),
    decreases k,
{
    if k > 0 {
        lemma_kept_after_agrees(e, k - 1, a, b, kept, width);
        if is_offered(e, k - 1) {
            assert(a[place_of(e, k - 1)] == b[place_of(e, k - 1)]);
        }
    }
}

/// What a search carries from expansion to expansion: the hashes recorded
/// as searched, the state of the jitter's generator, the remembered
/// single-drop estimates, and the best result seen with the pair it is
/// ranked by.
pub struct Ledger {
    pub searched: Set<u64>,
    pub seed: u64,
    pub cache: Map<u64, (u8, u8)>,
    pub best: Option<SearchResult>,
    pub rank: (i64, i64),
}

/// What a search is given: the feed and the turn, both players' status, the
/// width of the frontiers, the opponent's best chain and the chain that
/// kills the opponent, and what the search starts from: the generator's seed
/// and the estimates remembered.
pub struct Hunt {
    pub packs: Seq<Seq<(Seq<u8>, usize)>>,
    pub turn: int,
    pub player: GameStatus,
    pub enemy: GameStatus,
    pub width: usize,
    pub max_enemy_chain_count: u8,
    pub need_kill_chain_count: u8,
    pub seed: u64,
    pub cache: Map<u64, (u8, u8)>,
}

/// Every estimate remembered before is remembered after, unchanged.
pub open spec fn extends(before: Map<u64, (u8, u8)>, after: Map<u64, (u8, u8)>) -> bool {
    forall|key: u64| #[trigger]
        before.contains_key(key) ==> after.contains_key(key) && after[key] == before[key]
}

/// `result` stands for the state that follows drop `k`, `depth` moves
/// ahead: the board the drop leaves, the chain's length and score, the
/// cumulative score, the first move on the way, and the worth of the gain at
/// that depth for its score.
pub open spec fn result_of_drop(
    e: Expansion,
    k: int,
    depth: int,
    bomber: bool,
    fire: bool,
    result: SearchResult,
) -> bool {
    let scored = scored_chain(drop_outcome(e, k).1);
    &&& result.last_chain_count as nat == drop_outcome(e, k).1
    &&& result.cumulative_game_score == drop_total(e, k)
    &&& result.gain_game_score == CHAIN_CUMULATIVE_SCORES[scored as int]
    &&& result.search_depth == depth
    &&& result.board@ == drop_outcome(e, k).0
    &&& result.board.wf()
    &&& result.command == match e.state.command {
        Some(command) => command,
        None => Command::Drop(((k % 9) as usize, e.variants[k / 9].1)),
    }
    &&& result.fire_right_now == fire
    &&& result.search_result_score == if bomber {
        bomber_score(scored, depth)
    } else {
        depth_score(CHAIN_CUMULATIVE_SCORES[scored as int], depth)
    }
}

/// The attack blocks the player owes after drop `k`.
pub open spec fn drop_owed(e: Expansion, k: int) -> u32 {
    let gain = CHAIN_CUMULATIVE_SCORES[scored_chain(drop_outcome(e, k).1) as int];
    netted_owed(
        e.state.obstacle_block_count,
        (e.state.spawn_obstacle_block_count + gain / 2) as u32,
    )
}

/// The grid the state after drop `k` is judged by: if a full row of attack
/// blocks is owed, a row of obstacles lands first.
pub open spec fn judged_drop_grid(e: Expansion, k: int) -> Grid {
    let g = drop_outcome(e, k).0;
    if drop_owed(e, k) >= FIELD_WIDTH {
        obstacles_dropped(g, heights_of(g))
    } else {
        g
    }
}

/// The heights of the grid the state after drop `k` is judged by.
pub open spec fn judged_drop_heights(e: Expansion, k: int) -> Seq<usize> {
    let heights = heights_of(drop_outcome(e, k).0);
    if drop_owed(e, k) >= FIELD_WIDTH {
        Seq::new(FIELD_WIDTH as nat, |x: int| (heights[x] + 1) as usize)
    } else {
        heights
    }
}

/// The hash under which the estimate for the state after drop `k` is
/// remembered.
pub open spec fn judged_drop_key(e: Expansion, k: int) -> u64 {
    grid_hash(judged_drop_grid(e, k))
}

/// The heuristic score of the state after drop `k`: the remembered
/// single-drop estimate of the board it is judged by, a hundred thousand
/// points a link, plus the score of that board's shape, plus its jitter.
pub open spec fn drop_score(e: Expansion, k: int, cache: Map<u64, (u8, u8)>) -> int {
    cache[judged_drop_key(e, k)].0 * CHAIN_WEIGHT + shape_score(
        judged_drop_grid(e, k),
        judged_drop_heights(e, k),
        0,
    ) + jitter_of(e, count_new(e, k))
}

/// The pair drop `k` is ranked by as a result `depth` moves ahead: the
/// worth of its gain first, its discounted heuristic score second.
pub open spec fn drop_rank(
    e: Expansion,
    k: int,
    depth: int,
    bomber: bool,
    cache: Map<u64, (u8, u8)>,
) -> (int, int) {
    let scored = scored_chain(drop_outcome(e, k).1);
    (
        if bomber {
            bomber_score(scored, depth)
        } else {
            depth_score(CHAIN_CUMULATIVE_SCORES[scored as int], depth)
        },
        discounted(drop_score(e, k, cache), depth),
    )
}

/// The first of two ranking pairs is the higher.
pub open spec fn ranks_above(a: (int, int), b: (int, int)) -> bool {
    a.0 > b.0 || (a.0 == b.0 && a.1 > b.1)
}

/// Which result is the best after some drops of an expansion: the drop it
/// stands for, or none if the best is the one the expansion started with;
/// the pair it is ranked by; and whether there is a best at all.
pub struct Tracking {
    pub winner: Option<int>,
    pub rank: (int, int),
    pub has: bool,
}

/// The best result after the first `k` drops of an expansion. A drop that
/// leads to a new state becomes the best if there was none, if it ranks
/// above the best, or if it commits to a move.
pub open spec fn tracking(
    h: Hunt,
    depth: int,
    e: Expansion,
    k: int,
    cache: Map<u64, (u8, u8)>,
    start: Ledger,
) -> Tracking
    decreases k,
{
    if k <= 0 {
        Tracking {
            winner: None,
            rank: (start.rank.0 as int, start.rank.1 as int),
            has: start.best is Some,
        }
    } else {
        let before = tracking(h, depth, e, k - 1, cache, start);
        let rank = drop_rank(e, k - 1, depth, hunting_bomber(h.player, h.enemy), cache);
        if is_new(e, k - 1) && (commits(h, depth, e, k - 1) || !before.has || ranks_above(
            rank,
            before.rank,
        )) {
            Tracking { winner: Some(k - 1), rank, has: true }
        } else {
            before
        }
    }
}

/// Drop `k` commits to a move: it is a first move whose chain is worth
/// committing to at once.
pub open spec fn commits(h: Hunt, depth: int, e: Expansion, k: int) -> bool {
    depth == 0 && fires_at(
        e,
        k,
        h.player,
        h.enemy,
        h.max_enemy_chain_count,
        h.need_kill_chain_count,
    )
}

/// The best result and its rank are what `tracking` names.
pub open spec fn tracks(
    h: Hunt,
    depth: int,
    e: Expansion,
    t: Tracking,
    start: Ledger,
    end: Ledger,
) -> bool {
    &&& (end.rank.0 as int, end.rank.1 as int) == t.rank
    &&& t.has == (end.best is Some)
    &&& match t.winner {
        None => end.best == start.best,
        Some(j) => end.best is Some && result_of_drop(
            e,
            j,
            depth,
            hunting_bomber(h.player, h.enemy),
            commits(h, depth, e, j),
            end.best->0,
        ),
    }
}

/// Which result is best does not change when more is remembered.
proof fn lemma_tracking_agrees(
    h: Hunt,
    depth: int,
    e: Expansion,
    k: int,
    a: Map<u64, (u8, u8)>,
    b: Map<u64, (u8, u8)>,
    start: Ledger,
)
    requires
        extends(a, b),
        forall|j: int| 0 <= j < k && #[trigger] is_new(e, j) ==> a.contains_key(judged_drop_key(e, j)),
    ensures
        tracking(h, depth, e, k, a, start) == tracking(h, depth, e, k, b, start),
    decreases k,
{
    if k > 0 {
        lemma_tracking_agrees(h, depth, e, k - 1, a, b, start);
        if is_new(e, k - 1) {
            assert(a.contains_key(judged_drop_key(e, k - 1)));
            assert(b[judged_drop_key(e, k - 1)] == a[judged_drop_key(e, k - 1)]);
        }
    }
}

/// The score a child carries is the score of its drop.
proof fn lemma_child_score(e: Expansion, k: int, child: SearchState, cache: Map<u64, (u8, u8)>)
    requires
        is_child(e, k, child),
        is_scored(cache, child, jitter_of(e, count_new(e, k))),
    ensures
        child.search_score == drop_score(e, k, cache),
        cache.contains_key(judged_drop_key(e, k)),
{
    lemma_heights_of(child.board@, child.board.heights@);
    assert(child.obstacle_block_count == drop_owed(e, k));
    assert(judged_heights(child) =~= judged_drop_heights(e, k));
    assert(judged_grid(child) == judged_drop_grid(e, k));
}

/// The expansion of `state` at `depth` that starts with the next frontier
/// at `acc` and the ledger at `start`.
pub open spec fn expansion(
    h: Hunt,
    depth: int,
    state: SearchState,
    acc: Frontier,
    start: Ledger,
) -> Expansion {
    Expansion {
        state,
        variants: h.packs[h.turn + depth],
        searched: start.searched,
        seed: start.seed,
        frontier: acc.states,
    }
}

/// After the first `k` drops of an expansion the next frontier stands at
/// `out` and the ledger at `end`, and none of the first `quiet` drops has
/// committed to a move.
///
/// The frontier has gained the states of the offered drops and keeps what
/// pushing them left; the ledger has recorded the surviving drops, advanced
/// the generator, and kept what was remembered; and the best result is the
/// one `tracking` names.
#[verifier::opaque]
pub open spec fn midway(
    h: Hunt,
    depth: int,
    state: SearchState,
    acc: Frontier,
    start: Ledger,
    out: Frontier,
    end: Ledger,
    k: int,
    quiet: int,
) -> bool {
    let e = expansion(h, depth, state, acc, start);
    &&& 0 <= k
    &&& forall|j: int|
        0 <= j < quiet ==> !(depth == 0 && #[trigger] is_new(e, j) && fires_at(
            e,
            j,
            h.player,
            h.enemy,
            h.max_enemy_chain_count,
            h.need_kill_chain_count,
        ))
    &&& progress(e, k, out.states, end.searched, end.seed, end.cache)
    &&& out.kept == kept_after(e, k, out.states, acc.kept, h.width as nat)
    &&& extends(start.cache, end.cache)
    &&& forall|j: int|
        0 <= j < k && #[trigger] is_new(e, j) ==> end.cache.contains_key(judged_drop_key(e, j))
    &&& tracks(h, depth, e, tracking(h, depth, e, k, end.cache, start), start, end)
}

/// Expanding `state` at `depth`, with the next frontier at `acc` and the
/// ledger at `start`, leaves the frontier at `out` and the ledger at `end`
/// after `processed` drops, committing to a move at once or not.
///
/// The drops are gone through in order, all of them unless one commits. At
/// depth zero the first new drop whose chain is worth it commits, and its
/// result becomes the best.
#[verifier::opaque]
pub open spec fn expanded(
    h: Hunt,
    depth: int,
    state: SearchState,
    acc: Frontier,
    start: Ledger,
    out: Frontier,
    end: Ledger,
    processed: int,
    fired: bool,
) -> bool {
    let e = expansion(h, depth, state, acc, start);
    &&& 0 <= processed <= 9 * e.variants.len()
    &&& !fired ==> processed == 9 * e.variants.len()
    &&& midway(
        h,
        depth,
        state,
        acc,
        start,
        out,
        end,
        processed,
        processed - if fired {
            1int
        } else {
            0int
        },
    )
    &&& fired ==> depth == 0 && processed >= 1 && is_new(e, processed - 1) && fires_at(
        e,
        processed - 1,
        h.player,
        h.enemy,
        h.max_enemy_chain_count,
        h.need_kill_chain_count,
    ) && end.best is Some && result_of_drop(
        e,
        processed - 1,
        depth,
        hunting_bomber(h.player, h.enemy),
        true,
        end.best->0,
    )
}

/// An expansion starts where the frontier and the ledger stand.
proof fn lemma_midway_start(h: Hunt, depth: int, state: SearchState, acc: Frontier, start: Ledger)
    ensures
        midway(h, depth, state, acc, start, acc, start, 0, 0),
{
    reveal(midway);
    reveal(progress);
    let e = expansion(h, depth, state, acc, start);
    assert forall|key: u64| #[trigger]
        start.searched.contains(key) <==> e.searched.contains(key) || reached_before(e, 0, key) by {}
}

/// A drop that ends the game, or leads to a state recorded already, leaves
/// the expansion where it was.
proof fn lemma_midway_skip(
    h: Hunt,
    depth: int,
    state: SearchState,
    acc: Frontier,
    start: Ledger,
    out: Frontier,
    end: Ledger,
    k: int,
)
    requires
        midway(h, depth, state, acc, start, out, end, k, k),
        !drop_survives(expansion(h, depth, state, acc, start), k) || end.searched.contains(
            drop_key(expansion(h, depth, state, acc, start), k),
        ),
    ensures
        midway(h, depth, state, acc, start, out, end, k + 1, k + 1),
{
    reveal(midway);
    let e = expansion(h, depth, state, acc, start);
    lemma_progress_skip(e, k, out.states, end.searched, end.seed, end.cache);
    assert(!is_offered(e, k));
}

/// A drop that leads to a new state is recorded, takes one round of jitter,
/// and is offered to the next frontier unless its chain is to be fired.
#[verifier::rlimit(40)]
proof fn lemma_midway_take(
    h: Hunt,
    depth: int,
    state: SearchState,
    acc: Frontier,
    start: Ledger,
    out: Frontier,
    end: Ledger,
    k: int,
    child: SearchState,
    grown: Frontier,
    after: Ledger,
    rank: (i64, i64),
    take: bool,
)
    requires
        midway(h, depth, state, acc, start, out, end, k, k),
        drop_survives(expansion(h, depth, state, acc, start), k),
        !end.searched.contains(drop_key(expansion(h, depth, state, acc, start), k)),
        is_child(expansion(h, depth, state, acc, start), k, child),
        remembers(end.cache, after.cache, grid_hash(judged_grid(child))),
        is_scored(after.cache, child, (xorshift_step(end.seed) % 1_000_000) as int),
        after.searched == end.searched.insert(
            drop_key(expansion(h, depth, state, acc, start), k),
        ),
        after.seed == xorshift_step(end.seed),
        rank.0 == drop_rank(
            expansion(h, depth, state, acc, start),
            k,
            depth,
            hunting_bomber(h.player, h.enemy),
            after.cache,
        ).0,
        rank.1 == discounted(child.search_score as int, depth),
        take == (commits(h, depth, expansion(h, depth, state, acc, start), k) || end.best is None
            || ranks_above((rank.0 as int, rank.1 as int), (end.rank.0 as int, end.rank.1 as int))),
        take ==> after.best is Some && after.rank == rank && result_of_drop(
            expansion(h, depth, state, acc, start),
            k,
            depth,
            hunting_bomber(h.player, h.enemy),
            commits(h, depth, expansion(h, depth, state, acc, start), k),
            after.best->0,
        ),
        !take ==> after.best == end.best && after.rank == end.rank,
        grown == if drop_outcome(expansion(h, depth, state, acc, start), k).1 <= FIRE_CHAIN_COUNT {
            out.pushed(child, h.width as nat)
        } else {
            out
        },
    ensures
        is_new(expansion(h, depth, state, acc, start), k),
        midway(h, depth, state, acc, start, grown, after, k + 1, k),
        !(depth == 0 && fires_at(
            expansion(h, depth, state, acc, start),
            k,
            h.player,
            h.enemy,
            h.max_enemy_chain_count,
            h.need_kill_chain_count,
        )) ==> midway(h, depth, state, acc, start, grown, after, k + 1, k + 1),
{
    reveal(midway);
    let e = expansion(h, depth, state, acc, start);
    lemma_progress_take(e, k, out.states, end.searched, end.seed, end.cache, child, after.cache);
    assert(count_new(e, k + 1) == count_new(e, k) + 1);
    lemma_child_score(e, k, child, after.cache);
    assert(extends(end.cache, after.cache));
    lemma_tracking_agrees(h, depth, e, k, end.cache, after.cache, start);
    assert(drop_rank(e, k, depth, hunting_bomber(h.player, h.enemy), after.cache) == (
        rank.0 as int,
        rank.1 as int,
    ));
    assert forall|j: int| 0 <= j < k + 1 && #[trigger] is_new(e, j) implies after.cache.contains_key(
        judged_drop_key(e, j),
    ) by {
        if j < k {
            assert(end.cache.contains_key(judged_drop_key(e, j)));
        }
    }
    assert forall|key: u64| #[trigger] start.cache.contains_key(key) implies after.cache.contains_key(
        key,
    ) && after.cache[key] == start.cache[key] by {
        assert(end.cache.contains_key(key));
    }
    if is_offered(e, k) {
        assert(place_of(e, k) == out.states.len());
        assert forall|j: int| 0 <= j < k && #[trigger] is_offered(e, j) implies grown.states[place_of(
            e,
            j,
        )] == out.states[place_of(e, j)] by {
            lemma_counts_grow(e, j, k);
            reveal(progress);
        }
        lemma_kept_after_agrees(e, k, grown.states, out.states, acc.kept, h.width as nat);
        assert(grown.states[place_of(e, k)] == child);
    }
}

/// `after` is `before` with its attack blocks settled: the blocks sent are
/// set against the blocks owed, and if a full row is still owed a row of
/// obstacles lands and is paid off.
pub open spec fn settles(before: SearchState, after: SearchState) -> bool {
    let owed = netted_owed(before.obstacle_block_count, before.spawn_obstacle_block_count);
    &&& after.spawn_obstacle_block_count == netted_sent(
        before.obstacle_block_count,
        before.spawn_obstacle_block_count,
    )
    &&& after.obstacle_block_count == if owed >= FIELD_WIDTH {
        owed - FIELD_WIDTH
    } else {
        owed as int
    }
    &&& owed >= FIELD_WIDTH ==> after.board@ == obstacles_dropped(
        before.board@,
        before.board.heights@,
    ) && forall|x: int|
        0 <= x < FIELD_WIDTH ==> #[trigger] after.board.heights[x] == before.board.heights[x] + 1
    &&& owed < FIELD_WIDTH ==> after.board == before.board
    &&& after.search_score == before.search_score
    &&& after.skill_point == before.skill_point
    &&& after.cumulative_game_score == before.cumulative_game_score
    &&& after.command == before.command
    &&& after.chain_count == before.chain_count
    &&& after.point == before.point
    &&& after.pack == before.pack
}

/// Expanding the states of `source` one after the other, highest-ranked
/// first, with the next frontier at `acc` and the ledger at `start`, ends
/// with the next frontier at `built` and the ledger at `end`: when `source`
/// is used up, or at once when an expansion commits to a move.
pub open spec fn drained(
    h: Hunt,
    depth: int,
    source: Frontier,
    acc: Frontier,
    start: Ledger,
    built: Frontier,
    end: Ledger,
    fired: bool,
) -> bool
    decreases source.kept.len(),
{
    if source.kept.len() == 0 || !source.kept.contains(top_pair(source.kept)) {
        built == acc && end == start && !fired
    } else {
        exists|state: SearchState, mid: Frontier, ledger: Ledger, processed: int, committed: bool|
            settles(source.top(), state) && #[trigger] expanded(
                h,
                depth,
                state,
                acc,
                start,
                mid,
                ledger,
                processed,
                committed,
            ) && if committed {
                fired && built == mid && end == ledger
            } else {
                drained(h, depth, source.without_top(), mid, ledger, built, end, fired)
            }
    }
}

/// The state a search starts from: the player's board and score, the blocks
/// the player owes and the blocks the opponent owes, and no move made.
pub open spec fn is_root_state(h: Hunt, state: SearchState) -> bool {
    &&& state.board == h.player.board
    &&& state.obstacle_block_count == h.player.obstacle_block_count
    &&& state.spawn_obstacle_block_count == h.enemy.obstacle_block_count
    &&& state.cumulative_game_score == h.player.cumulative_game_score
    &&& state.command is None
    &&& state.search_score == 0
    &&& state.skill_point == 0
    &&& state.chain_count == 0
    &&& state.point == 0
    &&& state.pack@ == seq![0u8, 0u8, 0u8, 0u8]
}

/// A search starts on a frontier that holds the root state alone, with
/// nothing recorded as searched and no result seen.
pub open spec fn starts(h: Hunt, frontier: Frontier, ledger: Ledger) -> bool {
    &&& frontier.states.len() == 1
    &&& is_root_state(h, frontier.states[0])
    &&& frontier.kept == Multiset::singleton((0i64, 0usize))
    &&& ledger == (Ledger {
        searched: Set::empty(),
        seed: h.seed,
        cache: h.cache,
        best: None,
        rank: (0i64, 0i64),
    })
}

/// After `depth` depths the search stands on `frontier` with `ledger`: each
/// depth's frontier is what expanding the frontier before it built. A search
/// that has committed to a move goes no deeper.
pub open spec fn reached(h: Hunt, depth: int, frontier: Frontier, ledger: Ledger, fired: bool) -> bool
    decreases depth,
{
    if depth <= 0 {
        depth == 0 && starts(h, frontier, ledger) && !fired
    } else {
        exists|source: Frontier, before: Ledger|
            reached(h, depth - 1, source, before, false) && #[trigger] drained(
                h,
                depth - 1,
                source,
                Frontier::empty(),
                before,
                frontier,
                ledger,
                fired,
            )
    }
}

/// The ledger a tracker and a cache stand for.
spec fn ledger_of(tracker: Tracker, cache: EvaluateCache) -> Ledger {
    Ledger {
        searched: tracker.searched@,
        seed: tracker.rnd.state(),
        cache: cache.max_chain_counts(),
        best: tracker.best,
        rank: tracker.best_rank,
    }
}

/// The chain of drop `k` is worth committing to at once.
pub open spec fn fires_at(
    e: Expansion,
    k: int,
    player: GameStatus,
    enemy: GameStatus,
    max_enemy_chain_count: u8,
    need_kill_chain_count: u8,
) -> bool {
    fires_now(
        player,
        enemy,
        scored_chain(drop_outcome(e, k).1),
        max_enemy_chain_count,
        need_kill_chain_count,
    )
}

/// Whether a chain of `chain_count` is worth committing to at once.
fn fires(
    player: &GameStatus,
    enemy: &GameStatus,
    chain_count: u8,
    max_enemy_chain_count: u8,
    need_kill_chain_count: u8,
) -> (r: bool)
    ensures
        r == fires_now(*player, *enemy, chain_count, max_enemy_chain_count, need_kill_chain_count),
{
    if chain_count >= need_kill_chain_count {
        return true;
    }
    if enemy.obstacle_block_count() < 10 && chain_count >= max_enemy_chain_count {
        let answer: u8 = if max_enemy_chain_count < 50 {
            max_enemy_chain_count
        } else {
            49
        };
        let scored: u8 = if chain_count < 50 {
            chain_count
        } else {
            49
        };
        let enemy_obstacle_count = calculate_obstacle_count_from_chain_count(answer);
        let total_enemy_obstacle_count = enemy_obstacle_count + enemy.obstacle_block_count();
        let player_obstacle_count = calculate_obstacle_count_from_chain_count(scored);
        if player_obstacle_count > player.obstacle_block_count() {
            let player_spawned_obstacle_count = player_obstacle_count
                - player.obstacle_block_count();
            if player_spawned_obstacle_count <= total_enemy_obstacle_count {
                return false;
            }
            let spawned_obstacle_count = player_spawned_obstacle_count - total_enemy_obstacle_count;
            let line_block = calculate_spawn_obstacle_line_from_obstacle_count(
                spawned_obstacle_count,
            );
            if line_block >= 3 {
                return true;
            }
        }
    }
    false
}

/// What a search keeps beside its frontier: the hashes of the states it has
/// expanded, the source of its jitter, and the best result so far with the
/// pair it is ranked by.
struct Tracker {
    searched: FnvHashSet<u64>,
    rnd: Xorshift,
    best: Option<SearchResult>,
    best_rank: (i64, i64),
}

/// The frontier under construction and the tracker are in order `depth`
/// moves into the search: the frontier's states are states of the next
/// depth, the best result, if there is one, names a legal first move, and
/// there is one as soon as a state has been recorded as searched.
spec fn search_ok(root: Root, next: Beam, tracker: Tracker, depth: int) -> bool {
    &&& next.wf()
    &&& forall|i: int| 0 <= i < next.states().len() ==> node_ok(root, #[trigger] next.states()[i], depth + 1)
    &&& tracker.best is Some ==> found(root, tracker.best->0, depth)
    &&& forall|key: u64| tracker.searched@.contains(key) ==> tracker.best is Some
}

/// A best result that is committed to at once has a chain that is worth
/// it.
spec fn committed(
    best: Option<SearchResult>,
    player: GameStatus,
    enemy: GameStatus,
    max_enemy_chain_count: u8,
    need_kill_chain_count: u8,
) -> bool {
    best is Some && best->0.fire_right_now ==> fires_now(
        player,
        enemy,
        covered(best->0.last_chain_count),
        max_enemy_chain_count,
        need_kill_chain_count,
    )
}

/// The first of two ranking pairs is the higher.
fn outranks(a: (i64, i64), b: (i64, i64)) -> (r: bool)
    ensures
        r == (a.0 > b.0 || (a.0 == b.0 && a.1 > b.1)),
{
    a.0 > b.0 || (a.0 == b.0 && a.1 > b.1)
}

/// Expanding the frontier a search stands on takes it one depth further.
proof fn lemma_reached_next(
    h: Hunt,
    depth: int,
    source: Frontier,
    before: Ledger,
    frontier: Frontier,
    ledger: Ledger,
    fired: bool,
)
    requires
        0 <= depth,
        reached(h, depth, source, before, false),
        drained(h, depth, source, Frontier::empty(), before, frontier, ledger, fired),
    ensures
        reached(h, depth + 1, frontier, ledger, fired),
{
    let deeper = depth + 1;
    assert(reached(h, deeper - 1, source, before, false));
    assert(drained(h, deeper - 1, source, Frontier::empty(), before, frontier, ledger, fired));
    assert(reached(h, deeper, frontier, ledger, fired));
}

/// What the search of a turn is given, as a solver stands before and after
/// it: the width of the budget, the opponent's best chain as the erase-one
/// estimate remembered for the opponent's board gives it, the chain that
/// kills the opponent, the seed of the turn, and the single-drop estimates
/// remembered before.
pub open spec fn hunt_of(before: SolverView, after: SolverView) -> Hunt {
    Hunt {
        packs: before.packs,
        turn: before.turn as int,
        player: before.player,
        enemy: before.enemy,
        width: search_budget(
            before.player.rest_time_milliseconds,
            before.last_best_search_result,
            before.config,
        ).1,
        max_enemy_chain_count: covered(
            after.erasing_all_max_chain_counts[before.enemy.board.hash()],
        ),
        need_kill_chain_count: kill_threshold(before.enemy.board@, before.enemy.board.heights@) as u8,
        seed: (before.turn as u64).wrapping_add(before.seed),
        cache: before.max_chain_counts,
    }
}

/// The depth at which a search that commits to no move stops: the depth of
/// the budget, or the number of pieces the feed still holds if that is less.
pub open spec fn horizon(solver: SolverView) -> int {
    min_of(
        search_budget(
            solver.player.rest_time_milliseconds,
            solver.last_best_search_result,
            solver.config,
        ).0 as int,
        solver.packs.len() - solver.turn,
    )
}

/// `root` is where the search of `h` starts.
pub open spec fn roots(h: Hunt, root: Root) -> bool {
    let owed = netted_owed(h.player.obstacle_block_count, h.enemy.obstacle_block_count);
    let board = h.player.board;
    &&& root.variants == h.packs[h.turn]
    &&& root.score == h.player.cumulative_game_score
    &&& root.grid == if owed >= FIELD_WIDTH {
        obstacles_dropped(board@, board.heights@)
    } else {
        board@
    }
    &&& root.heights == if owed >= FIELD_WIDTH {
        Seq::new(FIELD_WIDTH as nat, |x: int| (board.heights[x] + 1) as usize)
    } else {
        board.heights@
    }
}

/// Searches depth by depth from the player's board: every state of a
/// frontier is expanded, highest-ranked first, into the next frontier. The
/// search stops at the depth given, where the feed ends, or at once when an
/// expansion commits to a move. It returns the last frontier, the number of
/// depths searched, whether a move was committed to, and the best result
/// seen.
#[verifier::rlimit(60)]
fn search(
    simulator: &mut Simulator,
    cache: &mut EvaluateCache,
    packs: &Vec<Vec<(Pack, usize)>>,
    turn: usize,
    player: &GameStatus,
    enemy: &GameStatus,
    beam_depth: usize,
    beam_width: usize,
    seed: u64,
    bomber: bool,
    max_enemy_chain_count: u8,
    need_kill_chain_count: u8,
    Ghost(root): Ghost<Root>,
    Ghost(h): Ghost<Hunt>,
) -> (r: (Beam, usize, bool, Option<SearchResult>, Ghost<Ledger>))
    requires
        turn < packs@.len(),
        beam_depth <= MAX_SEARCH_DEPTH,
        max_enemy_chain_count < MAX_CHAIN_COUNT,
        h.packs == Seq::new(packs@.len(), |t: int| variant_views(packs@[t]@)),
        h.turn == turn,
        h.player == *player,
        h.enemy == *enemy,
        h.width == beam_width,
        h.max_enemy_chain_count == max_enemy_chain_count,
        h.need_kill_chain_count == need_kill_chain_count,
        h.seed == seed,
        h.cache == old(cache).max_chain_counts(),
        bomber == hunting_bomber(*player, *enemy),
        roots(h, root),
        player.board.wf(),
        !danger(player.board.heights@, 0),
        player.cumulative_game_score <= COUNTER_LIMIT,
        player.obstacle_block_count <= COUNTER_LIMIT,
        enemy.obstacle_block_count <= COUNTER_LIMIT,
    ensures
        reached(h, r.1 as int, r.0@, r.4@, r.2),
        r.4@.cache == final(cache).max_chain_counts(),
        r.4@.best == r.3,
        r.2 || r.1 == min_of(beam_depth as int, packs@.len() - turn),
        r.1 <= beam_depth,
        r.0.wf(),
        forall|i: int| 0 <= i < r.0.states().len() ==> node_ok(root, #[trigger] r.0.states()[i], r.1 as int),
        r.3 is Some ==> found(root, r.3->0, r.1 as int),
        r.1 >= 1 && has_legal_move(root) ==> r.3 is Some,
        r.2 ==> r.3 is Some && r.3->0.fire_right_now,
        committed(r.3, *player, *enemy, max_enemy_chain_count, need_kill_chain_count),
        final(cache).erasing_all_max_chain_counts() == old(cache).erasing_all_max_chain_counts(),
{
    let root_state = SearchState::default().with_board(player.board()).with_obstacle_block_count(
        player.obstacle_block_count(),
    ).with_spawn_obstacle_block_count(enemy.obstacle_block_count()).with_cumulative_game_score(
        player.cumulative_game_score(),
    );
    let mut current = Beam::new();
    current.push(root_state, usize::MAX);
    let mut tracker = Tracker {
        searched: set_new(),
        rnd: Xorshift::with_seed(seed),
        best: None,
        best_rank: (0, 0),
    };
    let mut depth: usize = 0;
    let mut fired = false;
    proof {
        assert(current.states()[0] == root_state);
        assert(current.kept().len() == 1);
        assert(current.kept() =~= Multiset::singleton((0i64, 0usize)));
        assert(is_root_state(h, current@.states[0]));
        assert(starts(h, current@, ledger_of(tracker, *cache)));
    }
    let feed_len = packs.len();
    while depth < beam_depth && !fired && depth < feed_len - turn
        invariant
            feed_len == packs@.len(),
            turn < feed_len,
            beam_depth <= MAX_SEARCH_DEPTH,
            max_enemy_chain_count < MAX_CHAIN_COUNT,
            h.packs == Seq::new(packs@.len(), |t: int| variant_views(packs@[t]@)),
            h.turn == turn,
            h.player == *player,
            h.enemy == *enemy,
            h.width == beam_width,
            h.max_enemy_chain_count == max_enemy_chain_count,
            h.need_kill_chain_count == need_kill_chain_count,
            bomber == hunting_bomber(*player, *enemy),
            roots(h, root),
            player.board.wf(),
            !danger(player.board.heights@, 0),
            player.cumulative_game_score <= COUNTER_LIMIT,
            player.obstacle_block_count <= COUNTER_LIMIT,
            enemy.obstacle_block_count <= COUNTER_LIMIT,
            depth <= beam_depth,
            depth <= feed_len - turn,
            current.wf(),
            forall|i: int|
                0 <= i < current.states().len() ==> node_ok(
                    root,
                    #[trigger] current.states()[i],
                    depth as int,
                ),
            depth == 0 ==> current.kept().len() == 1 && forall|i: int|
                0 <= i < current.states().len() ==> #[trigger] current.states()[i] == root_state,
            is_root_state(h, root_state),
            tracker.best is Some ==> found(root, tracker.best->0, depth as int),
            forall|key: u64| tracker.searched@.contains(key) ==> tracker.best is Some,
            depth >= 1 && has_legal_move(root) ==> tracker.best is Some,
            fired ==> tracker.best is Some && tracker.best->0.fire_right_now,
            committed(tracker.best, *player, *enemy, max_enemy_chain_count, need_kill_chain_count),
            cache.erasing_all_max_chain_counts() == old(cache).erasing_all_max_chain_counts(),
            reached(h, depth as int, current@, ledger_of(tracker, *cache), fired),
        decreases beam_depth - depth + if fired { 0int } else { 1int },
    {
        let mut next = Beam::new();
        let ghost initial = current.kept().len();
        let ghost mut popped = false;
        let ghost source = current@;
        let ghost before = ledger_of(tracker, *cache);
        loop
            invariant_except_break
                !fired,
                forall|built: Frontier, end: Ledger, f: bool| #[trigger]
                    drained(
                        h,
                        depth as int,
                        current@,
                        next@,
                        ledger_of(tracker, *cache),
                        built,
                        end,
                        f,
                    ) ==> drained(h, depth as int, source, Frontier::empty(), before, built, end, f),
            invariant
                feed_len == packs@.len(),
                beam_depth <= MAX_SEARCH_DEPTH,
                max_enemy_chain_count < MAX_CHAIN_COUNT,
                h.packs == Seq::new(packs@.len(), |t: int| variant_views(packs@[t]@)),
                h.turn == turn,
                h.player == *player,
                h.enemy == *enemy,
                h.width == beam_width,
                h.max_enemy_chain_count == max_enemy_chain_count,
                h.need_kill_chain_count == need_kill_chain_count,
                bomber == hunting_bomber(*player, *enemy),
                roots(h, root),
                depth < beam_depth,
                turn + depth < feed_len,
                current.wf(),
                forall|i: int|
                    0 <= i < current.states().len() ==> node_ok(
                        root,
                        #[trigger] current.states()[i],
                        depth as int,
                    ),
                depth == 0 ==> forall|i: int|
                    0 <= i < current.states().len() ==> #[trigger] current.states()[i] == root_state,
                is_root_state(h, root_state),
                search_ok(root, next, tracker, depth as int),
                next.kept().len() <= beam_width,
                !popped ==> current.kept().len() == initial,
                depth == 0 ==> initial == 1,
                popped && depth == 0 && has_legal_move(root) ==> tracker.best is Some,
                depth >= 1 && has_legal_move(root) ==> tracker.best is Some,
                committed(
                    tracker.best,
                    *player,
                    *enemy,
                    max_enemy_chain_count,
                    need_kill_chain_count,
                ),
                cache.erasing_all_max_chain_counts() == old(cache).erasing_all_max_chain_counts(),
                reached(h, depth as int, source, before, false),
            ensures
                reached(h, depth as int, source, before, false),
                search_ok(root, next, tracker, depth as int),
                has_legal_move(root) ==> tracker.best is Some,
                fired ==> tracker.best is Some && tracker.best->0.fire_right_now,
                committed(
                    tracker.best,
                    *player,
                    *enemy,
                    max_enemy_chain_count,
                    need_kill_chain_count,
                ),
                cache.erasing_all_max_chain_counts() == old(cache).erasing_all_max_chain_counts(),
                drained(
                    h,
                    depth as int,
                    source,
                    Frontier::empty(),
                    before,
                    next@,
                    ledger_of(tracker, *cache),
                    fired,
                ),
            decreases current.kept().len(),
        {
            let ghost remaining = current@;
            let ghost built_so_far = next@;
            let ghost ledger = ledger_of(tracker, *cache);
            match current.pop_max() {
                None => {
                    proof {
                        assert(drained(
                            h,
                            depth as int,
                            remaining,
                            built_so_far,
                            ledger,
                            built_so_far,
                            ledger,
                            false,
                        ));
                        assert(drained(
                            h,
                            depth as int,
                            source,
                            Frontier::empty(),
                            before,
                            built_so_far,
                            ledger,
                            false,
                        ));
                    }
                    break ;
                },
                Some(state) => {
                    let mut state = state;
                    proof {
                        popped = true;
                        assert(node_ok(root, state, depth as int));
                        assert forall|x: int| 0 <= x < FIELD_WIDTH implies #[trigger] state.board.heights[x]
                            < DANGER_LINE_HEIGHT by {
                            if state.board.heights[x] >= DANGER_LINE_HEIGHT {
                                assert(state.board.heights@[x] + 0 >= DANGER_LINE_HEIGHT);
                            }
                        }
                    }
                    let ghost at_rest = state;
                    state.update_obstacle_block_and_drop();
                    proof {
                        if depth == 0 {
                            assert(at_rest == root_state);
                            assert(state.board.heights@ =~= root.heights);
                        }
                        assert(settles(at_rest, state));
                        assert(h.packs[turn + depth] == variant_views(packs@[turn + depth]@));
                    }
                    let search_turn = turn + depth;
                    let (committing, Ghost(processed)) = expand_state(
                        simulator,
                        cache,
                        &mut next,
                        &mut tracker,
                        &packs[search_turn],
                        &state,
                        depth,
                        beam_width,
                        player,
                        enemy,
                        bomber,
                        max_enemy_chain_count,
                        need_kill_chain_count,
                        Ghost(root),
                        Ghost(h),
                    );
                    proof {
                        let after = ledger_of(tracker, *cache);
                        assert(remaining.top() == at_rest);
                        assert(expanded(
                            h,
                            depth as int,
                            state,
                            built_so_far,
                            ledger,
                            next@,
                            after,
                            processed,
                            committing,
                        ));
                        if committing {
                            assert(drained(
                                h,
                                depth as int,
                                remaining,
                                built_so_far,
                                ledger,
                                next@,
                                after,
                                true,
                            ));
                            assert(drained(
                                h,
                                depth as int,
                                source,
                                Frontier::empty(),
                                before,
                                next@,
                                after,
                                true,
                            ));
                        } else {
                            assert forall|built: Frontier, end: Ledger, f: bool| #[trigger]
                                drained(
                                    h,
                                    depth as int,
                                    current@,
                                    next@,
                                    after,
                                    built,
                                    end,
                                    f,
                                ) implies drained(
                                h,
                                depth as int,
                                source,
                                Frontier::empty(),
                                before,
                                built,
                                end,
                                f,
                            ) by {
                                assert(current@ == remaining.without_top());
                                assert(drained(
                                    h,
                                    depth as int,
                                    remaining,
                                    built_so_far,
                                    ledger,
                                    built,
                                    end,
                                    f,
                                ));
                            }
                        }
                    }
                    if committing {
                        fired = true;
                        break ;
                    }
                },
            }
        }
        proof {
            lemma_reached_next(
                h,
                depth as int,
                source,
                before,
                next@,
                ledger_of(tracker, *cache),
                fired,
            );
        }
        current = next;
        depth = depth + 1;
    }
    let ghost ledger = ledger_of(tracker, *cache);
    (current, depth, fired, tracker.best, Ghost(ledger))
}

/// Expands one state: every variant of the piece is dropped on every
/// column. A state that follows without ending the game and was not reached
/// before is scored, offered to the next frontier unless its chain is long
/// enough to be fired rather than built on, and becomes the best result if it
/// ranks above the best so far. At depth zero a state whose chain is worth
/// committing to at once becomes the best result whatever its rank, and the
/// expansion stops; the function then returns true. Beside that it returns
/// the number of drops it has gone through.
#[verifier::rlimit(60)]
fn expand_state(
    simulator: &mut Simulator,
    cache: &mut EvaluateCache,
    next: &mut Beam,
    tracker: &mut Tracker,
    variants: &Vec<(Pack, usize)>,
    state: &SearchState,
    depth: usize,
    width: usize,
    player: &GameStatus,
    enemy: &GameStatus,
    bomber: bool,
    max_enemy_chain_count: u8,
    need_kill_chain_count: u8,
    Ghost(root): Ghost<Root>,
    Ghost(h): Ghost<Hunt>,
) -> (r: (bool, Ghost<int>))
    requires
        h.player == *player,
        h.enemy == *enemy,
        h.width == width,
        h.max_enemy_chain_count == max_enemy_chain_count,
        h.need_kill_chain_count == need_kill_chain_count,
        0 <= h.turn + depth < h.packs.len(),
        h.packs[h.turn + depth] == variant_views(variants@),
        bomber == hunting_bomber(*player, *enemy),
        depth < MAX_SEARCH_DEPTH,
        expandable(root, *state, depth as int),
        depth == 0 ==> variant_views(variants@) == root.variants,
        search_ok(root, *old(next), *old(tracker), depth as int),
        committed(
            old(tracker).best,
            *player,
            *enemy,
            max_enemy_chain_count,
            need_kill_chain_count,
        ),
        old(next).kept().len() <= width,
    ensures
        expanded(
            h,
            depth as int,
            *state,
            old(next)@,
            ledger_of(*old(tracker), *old(cache)),
            final(next)@,
            ledger_of(*final(tracker), *final(cache)),
            r.1@,
            r.0,
        ),
        search_ok(root, *final(next), *final(tracker), depth as int),
        committed(
            final(tracker).best,
            *player,
            *enemy,
            max_enemy_chain_count,
            need_kill_chain_count,
        ),
        r.0 ==> final(tracker).best is Some && final(tracker).best->0.fire_right_now,
        depth == 0 && has_legal_move(root) ==> final(tracker).best is Some,
        old(tracker).best is Some ==> final(tracker).best is Some,
        final(cache).erasing_all_max_chain_counts() == old(cache).erasing_all_max_chain_counts(),
        final(next).kept().len() <= width,
{
    let count = variants.len();
    let ghost acc = next@;
    let ghost start = ledger_of(*tracker, *cache);
    let ghost e = expansion(h, depth as int, *state, acc, start);
    proof {
        lemma_midway_start(h, depth as int, *state, acc, start);
    }
    for i in 0..count
        invariant
            count == variants@.len(),
            depth < MAX_SEARCH_DEPTH,
            h.player == *player,
            h.enemy == *enemy,
            h.width == width,
            h.max_enemy_chain_count == max_enemy_chain_count,
            h.need_kill_chain_count == need_kill_chain_count,
            bomber == hunting_bomber(*player, *enemy),
            expandable(root, *state, depth as int),
            depth == 0 ==> variant_views(variants@) == root.variants,
            search_ok(root, *next, *tracker, depth as int),
            committed(tracker.best, *player, *enemy, max_enemy_chain_count, need_kill_chain_count),
            cache.erasing_all_max_chain_counts() == old(cache).erasing_all_max_chain_counts(),
            old(tracker).best is Some ==> tracker.best is Some,
            depth == 0 ==> forall|point: int, j: int|
                0 <= point <= FIELD_WIDTH - 2 && 0 <= j < i && #[trigger] survives(root, point, j)
                    ==> tracker.best is Some,
            acc == old(next)@,
            start == ledger_of(*old(tracker), *old(cache)),
            e == expansion(h, depth as int, *state, acc, start),
            e.variants == variant_views(variants@),
            next.kept().len() <= width,
            midway(
                h,
                depth as int,
                *state,
                acc,
                start,
                next@,
                ledger_of(*tracker, *cache),
                9 * i,
                9 * i,
            ),
    {
        for point in 0..9usize
            invariant
                i < count,
                count == variants@.len(),
                depth < MAX_SEARCH_DEPTH,
                h.player == *player,
                h.enemy == *enemy,
                h.width == width,
                h.max_enemy_chain_count == max_enemy_chain_count,
                h.need_kill_chain_count == need_kill_chain_count,
                bomber == hunting_bomber(*player, *enemy),
                expandable(root, *state, depth as int),
                depth == 0 ==> variant_views(variants@) == root.variants,
                search_ok(root, *next, *tracker, depth as int),
                committed(
                    tracker.best,
                    *player,
                    *enemy,
                    max_enemy_chain_count,
                    need_kill_chain_count,
                ),
                cache.erasing_all_max_chain_counts() == old(cache).erasing_all_max_chain_counts(),
                old(tracker).best is Some ==> tracker.best is Some,
                depth == 0 ==> forall|p: int, j: int|
                    0 <= p <= FIELD_WIDTH - 2 && ((0 <= j < i) || (j == i && p < point))
                        && #[trigger] survives(root, p, j) ==> tracker.best is Some,
                acc == old(next)@,
                start == ledger_of(*old(tracker), *old(cache)),
                e == expansion(h, depth as int, *state, acc, start),
                e.variants == variant_views(variants@),
                next.kept().len() <= width,
                midway(
                    h,
                    depth as int,
                    *state,
                    acc,
                    start,
                    next@,
                    ledger_of(*tracker, *cache),
                    9 * i + point,
                    9 * i + point,
                ),
        {
            let pack = &variants[i].0;
            let rotate_count = variants[i].1;
            let ghost k = 9 * i + point;
            let ghost out = next@;
            let ghost end = ledger_of(*tracker, *cache);
            proof {
                if depth == 0 {
                    assert(root.variants[i as int] == (pack@, rotate_count));
                }
                assert(k % 9 == point && k / 9 == i);
                assert(e.variants[i as int] == (pack@, rotate_count));
                assert(drop_outcome(e, k) == simulated(
                    state.board@,
                    state.board.heights@,
                    point as int,
                    pack@,
                ));
            }
            match next_state(simulator, state, pack, rotate_count, point) {
                None => {
                    proof {
                        lemma_midway_skip(h, depth as int, *state, acc, start, out, end, k);
                    }
                },
                Some(child) => {
                    let mut child = child;
                    proof {
                        if depth == 0 {
                            assert(survives(root, point as int, i as int));
                            assert(legal(root, child.command->0));
                        }
                        assert(covered(child.chain_count) == scored_chain(drop_outcome(e, k).1));
                        assert(is_child(e, k, child));
                    }
                    let key = child.zobrist_hash();
                    assert(key == drop_key(e, k));
                    if !set_contains(&tracker.searched, key) {
                        set_insert(&mut tracker.searched, key);
                        let jitter = tracker.rnd.rand(1_000_000);
                        let search_score = cache.evaluate_search_score(simulator, &child, 0)
                            + jitter as i64;
                        let ghost unscored = child;
                        child.set_search_score(search_score);
                        let chain_count = child.chain_count();
                        let scored: u8 = if chain_count < 50 {
                            chain_count
                        } else {
                            49
                        };
                        let gain = calculate_game_score(scored);
                        proof {
                            assert(judged_grid(child) == judged_grid(unscored));
                            assert(judged_heights(child) == judged_heights(unscored));
                            assert(is_child(e, k, child));
                            assert(is_scored(
                                cache.max_chain_counts(),
                                child,
                                (xorshift_step(end.seed) % 1_000_000) as int,
                            ));
                        }
                        if chain_count <= FIRE_CHAIN_COUNT {
                            let ghost before = next.states();
                            next.push(child, width);
                            proof {
                                lemma_max_gain(scored as int);
                                assert(node_ok(root, child, depth + 1));
                                assert forall|k: int| 0 <= k < next.states().len() implies node_ok(
                                    root,
                                    #[trigger] next.states()[k],
                                    depth + 1,
                                ) by {
                                    if k < before.len() {
                                        assert(next.states()[k] == before[k]);
                                    }
                                }
                            }
                        }
                        let fire = depth == 0 && fires(
                            player,
                            enemy,
                            scored,
                            max_enemy_chain_count,
                            need_kill_chain_count,
                        );
                        let rank = if bomber {
                            evaluate_search_result_score_for_bomber(scored, search_score, depth)
                        } else {
                            evaluate_search_result_score(gain, search_score, depth)
                        };
                        let better = match tracker.best {
                            None => true,
                            Some(_) => outranks(rank, tracker.best_rank),
                        };
                        if fire || better {
                            match child.command() {
                                Some(command) => {
                                    tracker.best = Some(
                                        SearchResult {
                                            search_result_score: rank.0,
                                            last_chain_count: chain_count,
                                            cumulative_game_score: child.cumulative_game_score(),
                                            gain_game_score: gain,
                                            search_depth: depth,
                                            board: child.board(),
                                            command,
                                            fire_right_now: fire,
                                        },
                                    );
                                    tracker.best_rank = rank;
                                },
                                None => {},
                            }
                        }
                        proof {
                            lemma_midway_take(
                                h,
                                depth as int,
                                *state,
                                acc,
                                start,
                                out,
                                end,
                                k,
                                child,
                                next@,
                                ledger_of(*tracker, *cache),
                                rank,
                                fire || better,
                            );
                        }
                        if fire {
                            proof {
                                assert(result_of_drop(
                                    e,
                                    k,
                                    depth as int,
                                    bomber,
                                    true,
                                    tracker.best->0,
                                ));
                                assert(expanded(
                                    h,
                                    depth as int,
                                    *state,
                                    acc,
                                    start,
                                    next@,
                                    ledger_of(*tracker, *cache),
                                    k + 1,
                                    true,
                                )) by {
                                    reveal(expanded);
                                }
                            }
                            return (true, Ghost(k + 1));
                        }
                    } else {
                        proof {
                            lemma_midway_skip(h, depth as int, *state, acc, start, out, end, k);
                        }
                    }
                },
            }
        }
    }
    proof {
        if depth == 0 && has_legal_move(root) {
            let (point, j) = choose|point: int, j: int|
                0 <= point <= FIELD_WIDTH - 2 && 0 <= j < root.variants.len() && #[trigger] survives(
                    root,
                    point,
                    j,
                );
            assert(root.variants.len() == count);
            assert(survives(root, point, j));
        }
        assert(expanded(
            h,
            depth as int,
            *state,
            acc,
            start,
            next@,
            ledger_of(*tracker, *cache),
            9 * count as int,
            false,
        )) by {
            reveal(expanded);
        }
    }
    (false, Ghost(9 * count as int))
}

/// The opponent has just sent a full row of obstacles to a player who owed
/// none: the boards the estimates were made for are no longer to come.
pub open spec fn board_disturbed(before: GameStatus, now: GameStatus) -> bool {
    before.obstacle_block_count == 0 && now.obstacle_block_count >= 10
}

/// The remembered estimates are to be forgotten.
pub open spec fn cache_outdated(solver: SolverView, now: GameStatus) -> bool {
    ||| board_disturbed(solver.player, now)
    ||| solver.max_chain_counts.dom().len() > CACHE_LIMIT
    ||| solver.erasing_all_max_chain_counts.dom().len() > CACHE_LIMIT
}

/// Every variant of a piece of valid cells has four valid cells.
proof fn lemma_variant_valid(cells: Seq<u8>, rotation: nat)
    requires
        cells.len() == 4,
        forall|i: int| 0 <= i < 4 ==> cells[i] <= 15,
    ensures
        variant(cells, rotation).len() == 4,
        forall|i: int| 0 <= i < 4 ==> variant(cells, rotation)[i] <= 15,
{
    lemma_rotated_valid(cells, rotation);
}

proof fn lemma_rotated_valid(cells: Seq<u8>, rotation: nat)
    requires
        cells.len() == 4,
        forall|i: int| 0 <= i < 4 ==> cells[i] <= 15,
    ensures
        rotated_by(cells, rotation).len() == 4,
        forall|i: int| 0 <= i < 4 ==> rotated_by(cells, rotation)[i] <= 15,
    decreases rotation,
{
    if rotation > 0 {
        lemma_rotated_valid(cells, (rotation - 1) as nat);
    }
}

} // verus!
