use togatog_ai::board::Board;
use togatog_ai::command::Command;
use togatog_ai::game_status::GameStatus;
use togatog_ai::pack::Pack;
use togatog_ai::search_result::SearchResult;
use togatog_ai::simulator::Simulator;
use togatog_ai::beam::Beam;
use togatog_ai::solver::{conclude, next_state, pack_variants, Solver};
use togatog_ai::search_state::SearchState;
use togatog_ai::solver_config::SolverConfig;

fn picture_with_columns(heights: [usize; 10], value: u8) -> [[u8; 10]; 16] {
    let mut picture = [[0u8; 10]; 16];
    for x in 0..10 {
        for y in 0..heights[x] {
            picture[15 - y][x] = value;
        }
    }
    picture
}

fn chain_picture() -> [[u8; 10]; 16] {
    [
        [0, 0, 0, 0, 0, 0, 0, 0, 0, 0],
        [0, 0, 0, 0, 0, 0, 0, 0, 0, 0],
        [0, 0, 0, 0, 0, 0, 0, 0, 0, 0],
        [0, 0, 0, 0, 0, 0, 0, 0, 0, 0],
        [0, 0, 0, 0, 0, 0, 0, 0, 0, 0],
        [0, 0, 0, 0, 0, 0, 0, 0, 0, 0],
        [0, 0, 0, 0, 2, 0, 0, 0, 0, 0],
        [0, 0, 0, 0, 4, 0, 0, 0, 0, 0],
        [0, 0, 0, 7, 4, 0, 0, 0, 0, 0],
        [0, 0, 0, 4, 4, 8, 0, 0, 0, 0],
        [0, 0, 0, 9, 8, 4, 0, 0, 0, 0],
        [0, 0, 0, 3, 4, 8, 9, 0, 0, 0],
        [0, 0, 0, 5, 9, 4, 8, 0, 0, 0],
        [0, 0, 1, 6, 3, 4, 1, 0, 0, 0],
        [0, 0, 6, 5, 1, 2, 3, 4, 0, 0],
        [0, 0, 1, 3, 6, 2, 2, 1, 0, 0],
    ]
}

fn solver_for(feed: Vec<[u8; 4]>, player: GameStatus, enemy: GameStatus, depth: usize, width: usize) -> Solver {
    let mut solver = Solver::default().with_seed(28);
    solver.set_packs(Solver::read_packs(&feed));
    solver.set_turn(0);
    solver.set_game_status(player, enemy);
    solver.set_config(SolverConfig::default().with_beam(depth, width));
    solver
}

fn first_move_chain(player: &GameStatus, feed: [u8; 4], command: Command) -> (u8, bool) {
    match command {
        Command::Drop((point, rotation)) => {
            let mut pack = Pack::new(&feed);
            pack.rotates(rotation);
            pack.drop();
            let mut board = player.board();
            let chain_count = Simulator::new().simulate(&mut board, point, &pack);
            (chain_count, board.is_game_over())
        }
        Command::Spell => panic!("a drop was expected"),
    }
}

#[test]
fn variants_of_a_full_piece_are_its_four_rotations() {
    let variants = pack_variants(&[1, 2, 3, 4]);
    let seen: Vec<(Vec<u8>, usize)> = variants.iter().map(|(p, r)| (p.vec(), *r)).collect();
    assert_eq!(
        seen,
        vec![
            (vec![1, 2, 3, 4], 0),
            (vec![3, 1, 4, 2], 1),
            (vec![4, 3, 2, 1], 2),
            (vec![2, 4, 1, 3], 3),
        ]
    );
}

#[test]
fn variants_that_settle_alike_are_listed_once() {
    let variants = pack_variants(&[5, 0, 0, 5]);
    let seen: Vec<(Vec<u8>, usize)> = variants.iter().map(|(p, r)| (p.vec(), *r)).collect();
    assert_eq!(seen, vec![(vec![0, 0, 5, 5], 0)]);
    let variants = pack_variants(&[7, 7, 7, 7]);
    assert_eq!(variants.len(), 1);
    assert_eq!(variants[0].1, 0);
    let variants = pack_variants(&[8, 5, 5, 0]);
    let seen: Vec<(Vec<u8>, usize)> = variants.iter().map(|(p, r)| (p.vec(), *r)).collect();
    assert_eq!(
        seen,
        vec![
            (vec![8, 0, 5, 5], 0),
            (vec![0, 8, 5, 5], 1),
            (vec![0, 5, 5, 8], 2),
            (vec![5, 0, 8, 5], 3),
        ]
    );
}

#[test]
fn read_packs_expands_every_turn() {
    let packs = Solver::read_packs(&vec![[1, 2, 3, 4], [7, 7, 7, 7], [5, 0, 0, 5]]);
    assert_eq!(packs.len(), 3);
    assert_eq!(packs[0].len(), 4);
    assert_eq!(packs[1].len(), 1);
    assert_eq!(packs[2].len(), 1);
    assert!(Solver::read_packs(&Vec::new()).is_empty());
}

#[test]
fn think_casts_the_spell_when_it_is_due() {
    let mut picture = [[0u8; 10]; 16];
    picture[15][4] = 5;
    let player = GameStatus::default()
        .with_rest_time_milliseconds(60000)
        .with_skill_point(80)
        .with_board(Board::new(picture));
    let mut solver = solver_for(vec![[1, 2, 3, 4]; 8], player, GameStatus::default(), 2, 10);
    assert!(solver.is_ready());
    assert!(solver.should_spell_magic());
    let result = solver.think();
    assert_eq!(result.command, Command::Spell);
}

#[test]
fn think_casts_the_spell_before_it_reads_the_feed() {
    let mut rows = [[0u8; 10]; 16];
    rows[15][0] = 5;
    let player = GameStatus::default().with_skill_point(80).with_board(Board::new(rows));
    let mut solver = Solver::new(
        vec![],
        player,
        GameStatus::default(),
        SolverConfig::default(),
        1024,
        false,
    );
    assert!(!solver.is_ready());
    assert_eq!(solver.think().command, Command::Spell);
}

#[test]
fn think_does_not_cast_without_a_five_or_while_hunting() {
    let mut picture = [[0u8; 10]; 16];
    picture[15][4] = 6;
    let player = GameStatus::default()
        .with_rest_time_milliseconds(60000)
        .with_skill_point(80)
        .with_cumulative_game_score(100)
        .with_board(Board::new(picture));
    let solver = solver_for(vec![[1, 2, 3, 4]; 8], player, GameStatus::default(), 2, 10);
    assert!(!solver.should_spell_magic());
    picture[15][4] = 5;
    let player = player.with_board(Board::new(picture));
    let enemy = GameStatus::default().with_skill_point(48).with_cumulative_game_score(50);
    let mut solver = solver_for(vec![[1, 2, 3, 4]; 8], player, enemy, 2, 10);
    assert!(solver.kill_bomber_mode());
    assert!(!solver.should_spell_magic());
    let result = solver.think();
    assert_ne!(result.command, Command::Spell);
    let enemy = GameStatus::default().with_skill_point(48).with_cumulative_game_score(51);
    let solver = solver_for(vec![[1, 2, 3, 4]; 8], player, enemy, 2, 10);
    assert!(!solver.kill_bomber_mode());
    assert!(solver.should_spell_magic());
}

#[test]
fn think_picks_the_only_move_that_does_not_end_the_game() {
    let picture = picture_with_columns([16, 16, 16, 16, 16, 16, 16, 16, 0, 0], 11);
    let player = GameStatus::default()
        .with_rest_time_milliseconds(60000)
        .with_board(Board::new(picture));
    let mut solver = solver_for(vec![[1, 1, 1, 1]; 8], player, GameStatus::default(), 2, 10);
    assert!(solver.is_ready());
    let result = solver.think();
    assert_eq!(result.command, Command::Drop((8, 0)));
    assert!(!result.board.is_game_over());
    let (_, over) = first_move_chain(&player, [1, 1, 1, 1], result.command);
    assert!(!over);
}

#[test]
fn think_falls_back_when_every_move_ends_the_game() {
    let picture = picture_with_columns([16; 10], 11);
    let player = GameStatus::default()
        .with_rest_time_milliseconds(60000)
        .with_board(Board::new(picture));
    let mut solver = solver_for(vec![[1, 1, 1, 1]; 8], player, GameStatus::default(), 3, 10);
    assert!(solver.is_ready());
    let result = solver.think();
    assert_eq!(result.command, Command::default());
    assert_eq!(result.command, Command::Drop((0, 0)));
    assert_eq!(result.search_depth, 0);
    assert_eq!(result.last_chain_count, 0);
    assert!(!result.fire_right_now);
}

#[test]
fn think_commits_at_once_to_a_chain_that_kills() {
    let mut enemy_picture = [[0u8; 10]; 16];
    for y in 0..16 {
        enemy_picture[y][0] = 11;
    }
    let enemy = GameStatus::default().with_board(Board::new(enemy_picture));
    let player = GameStatus::default()
        .with_rest_time_milliseconds(60000)
        .with_board(Board::new(chain_picture()));
    let mut solver = solver_for(vec![[7, 6, 6, 9]; 8], player, enemy, 3, 20);
    assert!(solver.is_ready());
    assert_eq!(solver.gaze_enemy_need_kill_chain_count(), 8);
    let result = solver.think();
    assert!(result.fire_right_now);
    assert_eq!(result.search_depth, 0);
    assert!(result.last_chain_count >= 8);
    let (chain_count, over) = first_move_chain(&player, [7, 6, 6, 9], result.command);
    assert!(!over);
    assert_eq!(chain_count, result.last_chain_count);
}

#[test]
fn think_returns_a_move_that_keeps_the_game_going() {
    let player = GameStatus::default()
        .with_rest_time_milliseconds(60000)
        .with_obstacle_block_count(25)
        .with_cumulative_game_score(187)
        .with_board(Board::new(chain_picture()));
    let enemy = GameStatus::default().with_obstacle_block_count(3);
    let feed = vec![[9, 5, 0, 3], [1, 2, 3, 4], [8, 5, 5, 0], [2, 2, 7, 1]];
    let mut solver = solver_for(feed, player, enemy, 3, 8);
    assert!(solver.is_ready());
    let result = solver.think();
    assert!(!result.fire_right_now);
    assert_eq!(result.search_depth, 3);
    assert!(result.cumulative_game_score >= 187);
    match result.command {
        Command::Drop((point, rotation)) => {
            assert!(point <= 8);
            assert!(rotation < 4);
            let mut state = SearchState::default()
                .with_board(player.board())
                .with_obstacle_block_count(25)
                .with_spawn_obstacle_block_count(3);
            state.update_obstacle_block_and_drop();
            assert_eq!(state.obstacle_block_count(), 12);
            let mut pack = Pack::new(&[9, 5, 0, 3]);
            pack.rotates(rotation);
            pack.drop();
            let child = next_state(&mut Simulator::new(), &state, &pack, rotation, point);
            assert!(child.is_some());
        }
        Command::Spell => panic!("a drop was expected"),
    }
    let again = solver_for(
        vec![[9, 5, 0, 3], [1, 2, 3, 4], [8, 5, 5, 0], [2, 2, 7, 1]],
        player,
        enemy,
        3,
        8,
    )
    .think();
    assert_eq!(again.command, result.command);
    assert_eq!(again.search_result_score, result.search_result_score);
}

#[test]
fn think_stops_where_the_feed_ends() {
    let player = GameStatus::default()
        .with_rest_time_milliseconds(60000)
        .with_board(Board::new(chain_picture()));
    let mut solver = solver_for(vec![[1, 2, 3, 4]; 2], player, GameStatus::default(), 5, 4);
    solver.set_turn(1);
    assert!(solver.is_ready());
    let result = solver.think();
    assert_eq!(result.search_depth, 1);
    solver.set_turn(2);
    assert!(!solver.is_ready());
}

#[test]
fn the_budget_follows_the_time_left() {
    let status = |rest: u32| GameStatus::default().with_rest_time_milliseconds(rest);
    let mut solver = Solver::default();
    solver.set_game_status(status(30000), GameStatus::default());
    assert_eq!(solver.beam_search_config(), (13, 600));
    solver.set_game_status(status(29999), GameStatus::default());
    assert_eq!(solver.beam_search_config(), (5, 100));
    solver.set_game_status(status(10000), GameStatus::default());
    assert_eq!(solver.beam_search_config(), (5, 100));
    solver.set_game_status(status(9999), GameStatus::default());
    assert_eq!(solver.beam_search_config(), (3, 100));
    solver.set_config(SolverConfig::new(7, 50, 3, 50, 12));
    solver.set_game_status(status(40000), GameStatus::default());
    assert_eq!(solver.beam_search_config(), (7, 50));
}

#[test]
fn firing_needs_a_kill_or_three_rows_to_spare() {
    let solver = Solver::default();
    assert!(solver.should_fire_right_now(8, 0, 8));
    assert!(solver.should_fire_right_now(9, 0, 8));
    assert!(!solver.should_fire_right_now(7, 0, 8));
    assert!(!solver.should_fire_right_now(10, 0, 15));
    assert!(solver.should_fire_right_now(11, 0, 15));
    assert!(!solver.should_fire_right_now(11, 12, 15));
    assert!(!solver.should_fire_right_now(11, 11, 15));
    assert!(solver.should_fire_right_now(14, 11, 15));
    let mut owing = Solver::default();
    owing.set_game_status(
        GameStatus::default().with_obstacle_block_count(5),
        GameStatus::default().with_obstacle_block_count(10),
    );
    assert!(!owing.should_fire_right_now(11, 0, 15));
    let mut owing = Solver::default();
    owing.set_game_status(GameStatus::default().with_obstacle_block_count(5), GameStatus::default());
    assert!(!owing.should_fire_right_now(11, 0, 15));
    assert!(owing.should_fire_right_now(12, 0, 15));
}

#[test]
fn a_chain_that_kills_fires_whatever_its_length_and_the_answer() {
    let solver = Solver::default();
    assert!(solver.should_fire_right_now(60, 0, 12));
    assert!(solver.should_fire_right_now(12, 60, 12));
    assert!(solver.should_fire_right_now(255, 255, 255));
    assert!(!solver.should_fire_right_now(60, 60, 70));
    assert!(!solver.should_fire_right_now(49, 60, 70));
    assert!(solver.should_fire_right_now(60, 40, 70));
    assert!(!solver.should_fire_right_now(60, 49, 70));
}

#[test]
fn the_kill_threshold_follows_the_highest_obstacle() {
    let mut solver = Solver::default();
    assert_eq!(solver.gaze_enemy_need_kill_chain_count(), 15);
    let mut picture = [[0u8; 10]; 16];
    for y in 0..14 {
        picture[15 - y][6] = 11;
    }
    picture[15 - 14][6] = 3;
    picture[15][2] = 11;
    solver.set_game_status(GameStatus::default(), GameStatus::default().with_board(Board::new(picture)));
    assert_eq!(solver.gaze_enemy_need_kill_chain_count(), 11);
}

#[test]
fn a_new_row_of_obstacles_empties_the_cache() {
    let player = GameStatus::default()
        .with_rest_time_milliseconds(60000)
        .with_board(Board::new(chain_picture()));
    let mut solver = solver_for(vec![[1, 2, 3, 4]; 8], player, GameStatus::default(), 1, 4);
    let first = solver.think();
    solver.set_game_status(player.with_obstacle_block_count(9), GameStatus::default());
    let second = solver.think();
    assert_eq!(first.command, second.command);
    solver.set_game_status(player, GameStatus::default());
    solver.set_game_status(player.with_obstacle_block_count(10), GameStatus::default());
    let third = solver.think();
    assert_ne!(third.command, Command::Spell);
}

#[test]
fn gazing_finds_the_longest_chain_of_the_turn() {
    let enemy = GameStatus::default().with_board(Board::new(chain_picture()));
    let mut solver = solver_for(vec![[7, 6, 6, 9]; 2], GameStatus::default(), enemy, 2, 4);
    assert_eq!(solver.gaze_enemy_max_chain_count(), 13);
    let mut solver = solver_for(vec![[7, 6, 6, 9]; 2], GameStatus::default(), GameStatus::default(), 2, 4);
    assert_eq!(solver.gaze_enemy_max_chain_count(), 0);
}

#[test]
fn solver_keeps_what_it_is_given() {
    let solver = Solver::new(Vec::new(), GameStatus::default(), GameStatus::default(), SolverConfig::default(), 5, true);
    assert_eq!(solver.turn(), 0);
    let solver = solver.with_turn(17);
    assert_eq!(solver.turn(), 17);
    let mut solver = solver.with_seed(3);
    solver.set_debug(false);
    solver.set_turn(4);
    assert_eq!(solver.turn(), 4);
    assert!(!solver.is_ready());
    let result = SearchResult::default();
    assert_eq!(result.command, Command::Drop((0, 0)));
    assert_eq!(result.search_result_score, 0);
    assert_eq!(SolverConfig::default().beam(), (13, 600));
    assert_eq!(SolverConfig::default().gaze_beam(), (3, 600));
    assert_eq!(SolverConfig::new(1, 2, 3, 4, 5).gaze_beam(), (3, 4));
    assert_eq!(SolverConfig::new(1, 2, 3, 4, 5).fire_max_chain_count, 5);
}

fn frontier_of(entries: &[(i64, usize, u8)]) -> Beam {
    let mut beam = Beam::new();
    for (score, column, chain_count) in entries {
        beam.push(
            SearchState::default()
                .with_search_score(*score)
                .with_command(Command::Drop((*column, 1)))
                .with_chain_count(*chain_count)
                .with_cumulative_game_score(40),
            10,
        );
    }
    beam
}

fn some_result(column: usize, fire_right_now: bool) -> SearchResult {
    let mut result = SearchResult::default();
    result.command = Command::Drop((column, 3));
    result.search_result_score = 77;
    result.fire_right_now = fire_right_now;
    result
}

#[test]
fn a_search_ends_on_the_top_of_its_last_frontier() {
    let result = conclude(frontier_of(&[(5, 1, 0), (9, 2, 3), (7, 4, 1)]), 2, false, Some(some_result(8, false)));
    assert_eq!(result.command, Command::Drop((2, 1)));
    assert_eq!(result.search_result_score, 9);
    assert_eq!(result.last_chain_count, 3);
    assert_eq!(result.gain_game_score, 4);
    assert_eq!(result.cumulative_game_score, 40);
    assert_eq!(result.search_depth, 2);
    assert!(!result.fire_right_now);
    let tie = conclude(frontier_of(&[(9, 1, 0), (9, 2, 0)]), 1, false, None);
    assert_eq!(tie.command, Command::Drop((2, 1)));
}

#[test]
fn a_search_without_a_last_frontier_ends_on_the_best_seen() {
    let empty = conclude(Beam::new(), 2, false, Some(some_result(8, false)));
    assert_eq!(empty.command, Command::Drop((8, 3)));
    assert_eq!(empty.search_result_score, 77);
    let unsearched = conclude(frontier_of(&[(5, 1, 0)]), 0, false, Some(some_result(8, false)));
    assert_eq!(unsearched.command, Command::Drop((8, 3)));
    let fired = conclude(frontier_of(&[(5, 1, 0)]), 1, true, Some(some_result(6, true)));
    assert_eq!(fired.command, Command::Drop((6, 3)));
    assert!(fired.fire_right_now);
    let mut beam = Beam::new();
    beam.push(SearchState::default().with_search_score(5), 10);
    let no_command = conclude(beam, 1, false, Some(some_result(8, false)));
    assert_eq!(no_command.command, Command::Drop((8, 3)));
}

#[test]
fn a_search_that_saw_nothing_ends_on_the_fallback() {
    let result = conclude(Beam::new(), 3, false, None);
    assert_eq!(result.command, Command::Drop((0, 0)));
    assert_eq!(result.search_result_score, 0);
    assert_eq!(result.search_depth, 0);
    assert_eq!(result.cumulative_game_score, 0);
    assert!(result.board == Board::default());
    let fired = conclude(frontier_of(&[(5, 1, 0)]), 1, true, None);
    assert_eq!(fired.command, Command::Drop((0, 0)));
}
