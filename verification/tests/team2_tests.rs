use rand::SeedableRng;
use rand_chacha::ChaCha20Rng;
use tile_walk::team2::{
    anneal_candidate, bfs, calc_center, center, climb, dfs, dfs4sa, isConnectHorizontal,
    isConnectVertical, step1, target, target_ij, Input, Position, TileState, TimeKeeper,
    TILE_SIZE, USE_GAME_SCORE, USE_TARGET_DISTANCE,
};

/// Every cell its own tile (id `i * TILE_SIZE + j`), points `i * 10 + j`.
fn gradient_input(s: (usize, usize)) -> Input {
    let tiles = (0..TILE_SIZE).map(|i| (0..TILE_SIZE).map(|j| i * TILE_SIZE + j).collect()).collect();
    let points = (0..TILE_SIZE).map(|i| (0..TILE_SIZE).map(|j| (i * 10 + j) as i32).collect()).collect();
    Input { s, tiles, points }
}

/// Whether consecutive cells of the walk are neighbours, as the letters say.
fn walk_is_connected(state: &TileState) -> bool {
    let letters: Vec<char> = state.output.chars().collect();
    if letters.len() + 1 != state.steps.len() {
        return false;
    }
    for k in 1..state.steps.len() {
        let (pi, pj) = state.steps[k - 1];
        let (ni, nj) = state.steps[k];
        let ok = match letters[k - 1] {
            'L' => ni == pi && nj + 1 == pj,
            'R' => ni == pi && nj == pj + 1,
            'U' => ni + 1 == pi && nj == pj,
            'D' => ni == pi + 1 && nj == pj,
            _ => false,
        };
        if !ok {
            return false;
        }
    }
    true
}

fn path_points(input: &Input, state: &TileState) -> i32 {
    state.steps.iter().map(|&(i, j)| input.points[i][j]).sum()
}

#[test]
fn centres_and_targets_follow_the_tour() {
    assert_eq!(calc_center(1, 1), (6, 6));
    assert_eq!(calc_center(3, 5), (18, 31));
    assert_eq!(calc_center(7, 7), (43, 43));
    assert_eq!(center(0), (6, 6));
    assert_eq!(center(6), (18, 31));
    assert_eq!(center(15), (43, 43));
    assert_eq!(target(0), center(4));
    assert_eq!(target(1), center(0));
    assert_eq!(target(9), center(10));
    assert_eq!(target(15), center(11));
    assert_eq!(target_ij((0, 0)), (18, 6));
    assert_eq!(target_ij((49, 49)), center(11));
    assert_eq!(target_ij((12, 13)), center(0));
}

#[test]
fn the_tour_meets_every_block_and_returns() {
    let block = |(i, j): (usize, usize)| (4 * i / TILE_SIZE) * 4 + 4 * j / TILE_SIZE;
    let mut seen = vec![false; 16];
    let mut b = 0;
    for _ in 0..16 {
        assert!(!seen[b]);
        seen[b] = true;
        b = block(target_ij(center(b)));
    }
    assert_eq!(b, 0);
    assert!(seen.iter().all(|&x| x));
}

#[test]
fn new_state_holds_the_one_cell_walk() {
    let input = gradient_input((2, 3));
    let state = TileState::new(&input, usize::MAX, input.s, (10, 20));
    assert_eq!(state.output, "");
    assert_eq!(state.steps, vec![(2, 3)]);
    assert_eq!(state.game_score, 23);
    assert_eq!(state.evaluated_score, 0);
    assert_eq!(state.first_action_, usize::MAX);
    assert_eq!(state.goal, Position::new((10, 20)));
    assert_eq!(state.goalDistance(), 8 + 17);
    assert!(state.seen_tile(2 * TILE_SIZE + 3));
    assert!(!state.seen_tile(0));
    assert!(!state.isDone());
}

#[test]
fn advance_records_the_move() {
    let input = gradient_input((0, 0));
    let mut state = TileState::new(&input, usize::MAX, input.s, (5, 5));
    assert_eq!(state.legalActions(&input), vec![1, 3]);
    state.advance(&input, 1);
    state.advance(&input, 3);
    assert_eq!(state.output, "RD");
    assert_eq!(state.steps, vec![(0, 0), (0, 1), (1, 1)]);
    assert_eq!(state.game_score, 1 + 11);
    assert!(state.seen_tile(1));
    assert!(state.seen_tile(TILE_SIZE + 1));
    // Going up would step on a seen tile.
    assert_eq!(state.legalActions(&input), vec![0, 1, 3]);
    assert_eq!(state.goalDistance(), 8);
}

#[test]
fn evaluate_score_by_flag() {
    let input = gradient_input((0, 0));
    let mut state = TileState::new(&input, usize::MAX, (3, 3), (0, 0));
    state.evaluateScore(USE_TARGET_DISTANCE);
    assert_eq!(state.evaluated_score, 6);
    state.evaluateScore(USE_GAME_SCORE);
    assert_eq!(state.evaluated_score, 33);
    state.evaluateScore(7);
    assert_eq!(state.evaluated_score, 33);
}

#[test]
fn update_game_score_sums_the_walk() {
    let input = gradient_input((0, 0));
    let mut state = TileState::new(&input, usize::MAX, input.s, (5, 5));
    for a in [3, 3, 1, 1, 2] {
        state.advance(&input, a);
    }
    let before = state.game_score;
    state.game_score = 12345;
    state.updateGameScore(&input);
    assert_eq!(state.game_score, before);
    assert_eq!(state.game_score, path_points(&input, &state));
}

#[test]
fn is_done_on_the_last_turn() {
    let input = gradient_input((0, 0));
    let mut state = TileState::new(&input, 1, input.s, (5, 5));
    assert!(!state.isDone());
    state.advance(&input, 3);
    assert!(state.isDone());
}

#[test]
fn contest_states_compare_by_search_score() {
    let input = gradient_input((0, 0));
    let mut a = TileState::new(&input, usize::MAX, (0, 0), (5, 5));
    let mut b = TileState::new(&input, usize::MAX, (1, 1), (5, 5));
    assert!(a == b);
    a.evaluateScore(USE_TARGET_DISTANCE);
    b.evaluateScore(USE_TARGET_DISTANCE);
    assert!(b < a);
}

#[test]
fn tiles_connect_to_their_neighbours() {
    let mut input = gradient_input((0, 0));
    input.tiles[0][1] = 0;
    input.tiles[1][0] = 0;
    assert!(isConnectHorizontal(&input, 0, 0));
    assert!(isConnectVertical(&input, 0, 0));
    assert!(!isConnectHorizontal(&input, 1, 0));
    assert!(!isConnectHorizontal(&input, 0, TILE_SIZE - 1));
    assert!(!isConnectVertical(&input, TILE_SIZE - 1, 0));
}

#[test]
fn path_glyphs_draw_the_turns() {
    let input = gradient_input((0, 0));
    let mut state = TileState::new(&input, usize::MAX, input.s, (5, 5));
    for a in [1, 1, 3, 0] {
        state.advance(&input, a);
    }
    let board = state.path_glyphs(&input);
    assert_eq!(board.len(), TILE_SIZE);
    assert_eq!(board[0][0], ('@', '@'));
    assert_eq!(board[0][1], ('━', '━'));
    assert_eq!(board[0][2], ('┓', ' '));
    assert_eq!(board[1][2], ('┛', ' '));
    assert_eq!(board[1][1], (' ', ' '));
    assert_eq!(board[5][5], (' ', ' '));
}

#[test]
fn dfs_rebuilds_the_best_detour() {
    let input = gradient_input((0, 0));
    let mut state = TileState::new(&input, usize::MAX, input.s, (0, 2));
    let keeper = TimeKeeper::new(1_000_000);
    dfs(&input, &mut state, 4, &keeper);
    assert_eq!(state.output, "DRRU");
    assert_eq!(state.game_score, 10 + 11 + 12 + 2);
    assert_eq!(state.evaluated_score, state.game_score);
    assert!(walk_is_connected(&state));
}

#[test]
fn dfs_keeps_the_state_when_the_goal_is_out_of_reach() {
    let input = gradient_input((0, 0));
    let mut state = TileState::new(&input, usize::MAX, input.s, (10, 10));
    let keeper = TimeKeeper::new(1_000_000);
    dfs(&input, &mut state, 5, &keeper);
    assert_eq!(state.output, "");
    assert_eq!(state.steps, vec![(0, 0)]);
}

#[test]
fn dfs4sa_reaches_the_goal() {
    let input = gradient_input((0, 0));
    let mut state = TileState::new(&input, usize::MAX, input.s, (1, 1));
    let keeper = TimeKeeper::new(1_000_000);
    dfs4sa(&input, &mut state, 4, &keeper);
    assert_eq!(*state.steps.last().unwrap(), (1, 1));
    assert!(state.steps.len() <= 5);
    assert_eq!(state.game_score, path_points(&input, &state));
    assert!(walk_is_connected(&state));
}

#[test]
fn dfs4sa_tries_the_moves_in_random_order() {
    let input = gradient_input((0, 0));
    let keeper = TimeKeeper::new(1_000_000);
    let mut outputs = Vec::new();
    for _ in 0..40 {
        let mut state = TileState::new(&input, usize::MAX, input.s, (1, 1));
        dfs4sa(&input, &mut state, 2, &keeper);
        outputs.push(state.output.clone());
    }
    assert!(outputs.iter().all(|o| o == "RD" || o == "DR"));
    assert!(outputs.iter().any(|o| o == "RD"));
    assert!(outputs.iter().any(|o| o == "DR"));
}

#[test]
fn climb_draws_different_stretches() {
    let input = gradient_input((0, 0));
    let keeper = TimeKeeper::new(1_000_000);
    let mut base = TileState::new(&input, usize::MAX, input.s, (0, 0));
    for _ in 0..12 {
        base.advance(&input, 1);
    }
    let mut rng = ChaCha20Rng::seed_from_u64(3);
    let mut firsts = Vec::new();
    for cnt in 0..20 {
        let mut c = base.clone();
        climb(&input, &mut rng, &mut c, 3, &keeper, cnt);
        // The best rebuild detours through row 1 from the stretch's start.
        let k = c.steps.iter().position(|&(i, _)| i != 0).unwrap();
        firsts.push(k);
    }
    assert!(firsts.iter().any(|&k| k != firsts[0]));
}

#[test]
fn bfs_heads_for_the_goal() {
    let input = gradient_input((0, 0));
    let keeper = TimeKeeper::new(1_000_000);
    let mut state = TileState::new(&input, usize::MAX, input.s, (8, 9));
    state.evaluateScore(USE_TARGET_DISTANCE);
    bfs(&input, &mut state, &keeper);
    assert!(state.evaluated_score <= 2);
    assert_eq!(state.evaluated_score, state.goalDistance());
    assert!(walk_is_connected(&state));
    assert_eq!(state.game_score, path_points(&input, &state));
}

#[test]
fn step1_tours_the_blocks() {
    let input = gradient_input((0, 0));
    let keeper = TimeKeeper::new(1_000_000);
    let mut state = TileState::new(&input, usize::MAX, input.s, target_ij(input.s));
    step1(&input, &mut state, &keeper);
    assert!(walk_is_connected(&state));
    assert_eq!(state.game_score, path_points(&input, &state));
    assert_eq!(state.evaluated_score, state.goalDistance());
    assert!(state.steps.len() > 1);
}

#[test]
fn climb_never_lowers_the_score() {
    let input = gradient_input((0, 0));
    let keeper = TimeKeeper::new(1_000_000);
    let mut state = TileState::new(&input, usize::MAX, input.s, (0, 0));
    for _ in 0..12 {
        state.advance(&input, 1);
    }
    let mut rng = ChaCha20Rng::seed_from_u64(7);
    for cnt in 0..10 {
        let before = state.game_score;
        climb(&input, &mut rng, &mut state, 3, &keeper, cnt);
        assert!(state.game_score >= before);
        assert_eq!(state.output.len() + 1, state.steps.len());
        assert_eq!(state.game_score, path_points(&input, &state));
    }
    // Detours through row 1 are worth more than the straight row 0.
    assert!(state.game_score > (0..=12).sum::<i32>());
    assert!(walk_is_connected(&state));
}

#[test]
fn anneal_candidate_splices_a_rebuilt_stretch() {
    let input = gradient_input((0, 0));
    let keeper = TimeKeeper::new(1_000_000);
    let mut state = TileState::new(&input, usize::MAX, input.s, (0, 0));
    for _ in 0..12 {
        state.advance(&input, 1);
    }
    let mut rng = ChaCha20Rng::seed_from_u64(11);
    let c = anneal_candidate(&input, &mut rng, &state, 3, &keeper);
    assert_eq!(c.output.len() + 1, c.steps.len());
    assert_eq!(c.steps[0], (0, 0));
    assert_eq!(*c.steps.last().unwrap(), (0, 12));
    assert_eq!(c.game_score, path_points(&input, &c));
    assert_eq!(c.evaluated_score, c.game_score);
    assert!(walk_is_connected(&c));
}

#[test]
fn contest_time_keeper_reports_milliseconds() {
    assert_eq!(TimeKeeper::millis_after(2_999_999), 2);
    assert_eq!(TimeKeeper::millis_after(0), 0);
    let keeper = TimeKeeper::new(7);
    assert!(keeper.is_over_after(7_000_000));
    assert!(!keeper.is_over_after(6_999_999));
    assert!(!TimeKeeper::new(1_000_000).isTimeOver());
    assert!(keeper.time() < 1_000_000);
}

#[test]
fn keep_best_takes_the_higher_score() {
    let input = gradient_input((0, 0));
    let mut best = TileState::new(&input, usize::MAX, (0, 0), (5, 5));
    let mut other = TileState::new(&input, usize::MAX, (0, 0), (5, 5));
    other.advance(&input, 3);
    tile_walk::team2::keep_best(&mut best, &other);
    assert_eq!(best.game_score, other.game_score);
    let low = TileState::new(&input, usize::MAX, (0, 0), (5, 5));
    tile_walk::team2::keep_best(&mut best, &low);
    assert_eq!(best.output, "D");
}

#[test]
fn has_no_reversal_sees_a_turn_back() {
    let input = gradient_input((0, 0));
    let mut state = TileState::new(&input, usize::MAX, (0, 0), (5, 5));
    for a in [1, 3, 0] {
        state.advance(&input, a);
    }
    assert!(state.has_no_reversal());
    let mut back = TileState::new(&input, usize::MAX, (0, 0), (5, 5));
    back.advance(&input, 1);
    back.advance(&input, 0);
    assert!(!back.has_no_reversal());
}

#[test]
fn reset_lengths_lie_in_ten_to_fifteen() {
    let mut rng = ChaCha20Rng::seed_from_u64(7);
    for _ in 0..200 {
        let r = tile_walk::team2::draw_reset_length(&mut rng);
        assert!((10..15).contains(&r));
    }
}

#[test]
fn the_tour_from_any_cell_meets_every_centre_once() {
    for p in [(0, 0), (49, 49), (13, 37), (30, 2)] {
        let mut goals = Vec::new();
        let mut cur = p;
        for _ in 0..17 {
            cur = target_ij(cur);
            goals.push(cur);
        }
        assert_eq!(goals[16], goals[0]);
        let mut first: Vec<(usize, usize)> = goals[..16].to_vec();
        first.sort();
        first.dedup();
        assert_eq!(first.len(), 16);
        for k in 0..16 {
            assert!(first.contains(&center(k)));
        }
    }
}

#[test]
fn a_move_changes_the_goal_distance_by_one() {
    let input = gradient_input((3, 3));
    let mut state = TileState::new(&input, usize::MAX, (3, 3), (10, 1));
    let before = state.goalDistance();
    assert_eq!(before, 9);
    state.advance(&input, 3);
    assert_eq!(state.goalDistance(), 8);
    state.advance(&input, 1);
    assert_eq!(state.goalDistance(), 9);
}

#[test]
fn contest_time_keeper_reads_whole_milliseconds() {
    let keeper = TimeKeeper::new(1000);
    assert!(keeper.time() < 1000);
}
