use rand::SeedableRng;
use rand_chacha::ChaCha20Rng;
use tile_walk::sample::{
    beamSearchAction, beamSearchActionWithTimeThreshold, chokudaiSearchAction,
    chokudaiSearchActionWithTimeThreshold, compute_score_detail, greedyAction, randomAction, Input,
    TileState, TimeKeeper, N,
};

/// Every cell its own tile (id `i * N + j`), points `i * 10 + j`.
fn gradient_input(s: (usize, usize)) -> Input {
    let tiles = (0..N).map(|i| (0..N).map(|j| i * N + j).collect()).collect();
    let ps = (0..N).map(|i| (0..N).map(|j| (i * 10 + j) as i32).collect()).collect();
    Input { s, tiles, ps }
}

#[test]
fn scorer_adds_the_points_of_a_legal_walk() {
    let input = gradient_input((0, 0));
    let (score, err, used, steps) = compute_score_detail(&input, &"RRD".to_string());
    assert_eq!(score, 0 + 1 + 2 + 12);
    assert_eq!(err, "");
    assert_eq!(steps, vec![(0, 0), (0, 1), (0, 2), (1, 2)]);
    assert_eq!(used.len(), N * N);
    for t in 0..N * N {
        let expected = if t == 0 || t == 1 || t == 2 || t == N + 2 { 1 } else { 0 };
        assert_eq!(used[t], expected);
    }
}

#[test]
fn scorer_of_the_empty_walk_counts_the_start_cell() {
    let input = gradient_input((3, 4));
    let (score, err, used, steps) = compute_score_detail(&input, &String::new());
    assert_eq!(score, 34);
    assert_eq!(err, "");
    assert_eq!(steps, vec![(3, 4)]);
    assert_eq!(used[3 * N + 4], 1);
    assert_eq!(used.iter().sum::<usize>(), 1);
}

#[test]
fn scorer_rejects_an_illegal_character() {
    let input = gradient_input((0, 0));
    let (score, err, used, steps) = compute_score_detail(&input, &"RXD".to_string());
    assert_eq!(score, 0);
    assert_eq!(err, "Illegal output");
    assert_eq!(steps, vec![(0, 0), (0, 1)]);
    assert_eq!(used[1], 1);
}

#[test]
fn scorer_rejects_a_step_off_the_grid() {
    let input = gradient_input((0, 0));
    let (score, err, _used, steps) = compute_score_detail(&input, &"DUU".to_string());
    assert_eq!(score, 0);
    assert_eq!(err, "Out of range");
    assert_eq!(steps, vec![(0, 0), (1, 0), (0, 0)]);
}

#[test]
fn scorer_sees_a_tile_stepped_on_twice_and_reads_on() {
    let mut input = gradient_input((0, 0));
    // (0, 0) and (0, 1) form one tile.
    input.tiles[0][1] = 0;
    let (score, err, used, steps) = compute_score_detail(&input, &"RD".to_string());
    assert_eq!(score, 0);
    assert_eq!(err, "Stepped on the same tile twice");
    assert_eq!(steps, vec![(0, 0), (0, 1), (1, 1)]);
    assert_eq!(used[0], 2);
    assert_eq!(used[N + 1], 1);
}

#[test]
fn scorer_wraps_around_like_a_release_build() {
    let mut input = gradient_input((0, 0));
    input.ps[0][0] = i32::MAX;
    input.ps[0][1] = 1;
    let (score, err, _, _) = compute_score_detail(&input, &"R".to_string());
    assert_eq!(err, "");
    assert_eq!(score, i32::MIN);
}

#[test]
fn new_state_has_seen_only_its_cell() {
    let input = gradient_input((0, 0));
    let state = TileState::new(&input, 3, (2, 3));
    assert_eq!(state.game_score_, 23);
    assert_eq!(state.evaluate_score_, 0);
    assert_eq!(state.first_action_, usize::MAX);
    assert!(!state.is_done());
}

#[test]
fn legal_actions_stay_on_the_grid() {
    let input = gradient_input((0, 0));
    let corner = TileState::new(&input, 3, (0, 0));
    assert_eq!(corner.legal_actions(&input), vec![1, 3]);
    let inner = TileState::new(&input, 3, (5, 5));
    assert_eq!(inner.legal_actions(&input), vec![0, 1, 2, 3]);
    let far = TileState::new(&input, 3, (N - 1, N - 1));
    assert_eq!(far.legal_actions(&input), vec![0, 2]);
}

#[test]
fn advance_moves_collects_and_counts_turns() {
    let input = gradient_input((0, 0));
    let mut state = TileState::new(&input, 2, (0, 0));
    state.advance(&input, 3);
    assert_eq!(state.game_score_, 10);
    assert!(!state.is_done());
    state.advance(&input, 1);
    assert_eq!(state.game_score_, 21);
    assert!(state.is_done());
    assert_eq!(state.evaluate_score_, 0);
    state.evaluate_score();
    assert_eq!(state.evaluate_score_, 21);
    // The tiles stepped on are recorded: the cell to the left, entered
    // before, is closed.
    assert_eq!(state.legal_actions(&input), vec![1, 2, 3]);
}

#[test]
fn sample_states_compare_by_search_score() {
    let input = gradient_input((0, 0));
    let mut a = TileState::new(&input, 3, (0, 0));
    let mut b = TileState::new(&input, 3, (4, 4));
    assert!(a == b);
    b.evaluate_score();
    assert!(a < b);
    a.advance(&input, 3);
    a.advance(&input, 3);
    a.advance(&input, 3);
    a.evaluate_score();
    assert_eq!(a.evaluate_score_, 60);
    assert!(b < a);
    assert_eq!(a.partial_cmp(&b), Some(std::cmp::Ordering::Greater));
}

#[test]
fn greedy_takes_the_best_next_cell() {
    let input = gradient_input((0, 0));
    let state = TileState::new(&input, 3, (0, 0));
    assert_eq!(greedyAction(&input, &state), 3);
    let state = TileState::new(&input, 3, (5, 5));
    assert_eq!(greedyAction(&input, &state), 3);
}

#[test]
fn greedy_breaks_ties_by_the_first_move() {
    let mut input = gradient_input((0, 0));
    input.ps[0][1] = 7;
    input.ps[1][0] = 7;
    let state = TileState::new(&input, 3, (0, 0));
    assert_eq!(greedyAction(&input, &state), 1);
}

#[test]
fn greedy_without_a_good_move_answers_max() {
    let mut input = gradient_input((0, 0));
    input.ps[0][0] = -1_000_000_000;
    input.ps[0][1] = 0;
    input.ps[1][0] = 0;
    let state = TileState::new(&input, 3, (0, 0));
    assert_eq!(greedyAction(&input, &state), usize::MAX);
}

#[test]
fn random_action_is_legal() {
    let input = gradient_input((0, 0));
    let state = TileState::new(&input, 3, (0, 0));
    let mut rng = ChaCha20Rng::seed_from_u64(20210325);
    for _ in 0..20 {
        let a = randomAction(&mut rng, &input, &state);
        assert!(a == 1 || a == 3);
    }
}

#[test]
fn random_action_draws_both_moves() {
    let input = gradient_input((0, 0));
    let state = TileState::new(&input, 3, (0, 0));
    let mut rng = ChaCha20Rng::seed_from_u64(1);
    let draws: Vec<usize> = (0..50).map(|_| randomAction(&mut rng, &input, &state)).collect();
    assert!(draws.contains(&1));
    assert!(draws.contains(&3));
}

#[test]
fn beam_search_heads_for_the_high_points() {
    let input = gradient_input((0, 0));
    let state = TileState::new(&input, 100, (0, 0));
    assert_eq!(beamSearchAction(&input, &state, 3, 3), 3);
    let state = TileState::new(&input, 100, (10, 10));
    assert_eq!(beamSearchAction(&input, &state, 2, 4), 3);
}

#[test]
fn beam_search_stops_at_the_last_turn() {
    let input = gradient_input((0, 0));
    // The game ends after one turn: the best child decides.
    let state = TileState::new(&input, 1, (0, 0));
    assert_eq!(beamSearchAction(&input, &state, 5, 10), 3);
}

#[test]
fn beam_search_with_time_ends_on_the_last_turn() {
    let input = gradient_input((0, 0));
    let state = TileState::new(&input, 3, (0, 0));
    assert_eq!(beamSearchActionWithTimeThreshold(&input, &state, 3, 10_000), 3);
}

#[test]
fn chokudai_search_answers_from_the_deepest_beam() {
    let input = gradient_input((0, 0));
    let state = TileState::new(&input, 100, (0, 0));
    assert_eq!(chokudaiSearchAction(&input, &state, 2, 3, 2), 3);
}

#[test]
fn chokudai_search_without_rounds_answers_from_the_root() {
    let input = gradient_input((0, 0));
    let state = TileState::new(&input, 100, (0, 0));
    assert_eq!(chokudaiSearchAction(&input, &state, 2, 3, 0), usize::MAX);
}

#[test]
fn chokudai_search_with_time_answers_a_legal_first_move() {
    let input = gradient_input((0, 0));
    let state = TileState::new(&input, 4, (0, 0));
    let a = chokudaiSearchActionWithTimeThreshold(&input, &state, 2, 4, 20);
    assert!(a == 1 || a == 3);
}

#[test]
fn time_keeper_compares_against_its_limit() {
    let keeper = TimeKeeper::new(5);
    assert!(!keeper.is_over_after(4_999_999));
    assert!(keeper.is_over_after(5_000_000));
    let long = TimeKeeper::new(1_000_000);
    assert!(!long.is_time_over());
}

#[test]
fn beam_search_with_no_time_answers_the_root_move() {
    let input = gradient_input((0, 0));
    let state = TileState::new(&input, 100, (0, 0));
    assert_eq!(beamSearchActionWithTimeThreshold(&input, &state, 3, 0), usize::MAX);
}

#[test]
fn chokudai_search_with_no_time_makes_one_round() {
    let input = gradient_input((0, 0));
    let state = TileState::new(&input, 100, (0, 0));
    assert_eq!(
        chokudaiSearchActionWithTimeThreshold(&input, &state, 2, 3, 0),
        chokudaiSearchAction(&input, &state, 2, 3, 1)
    );
}

#[test]
fn time_keeper_with_no_limit_is_over_at_once() {
    assert!(TimeKeeper::new(0).is_time_over());
}

#[test]
fn one_chokudai_round_answers_as_beam_search() {
    let input = gradient_input((0, 0));
    for (pos, w, d) in [((0, 0), 2, 3), ((10, 10), 3, 4), ((20, 5), 1, 5)] {
        let state = TileState::new(&input, 100, pos);
        assert_eq!(chokudaiSearchAction(&input, &state, w, d, 1), beamSearchAction(&input, &state, w, d));
    }
}

#[test]
fn depth_one_beam_search_is_greedy() {
    let input = gradient_input((0, 0));
    for pos in [(0, 0), (10, 10), (49, 0), (25, 49)] {
        let state = TileState::new(&input, 100, pos);
        for w in 1..4 {
            assert_eq!(beamSearchAction(&input, &state, w, 1), greedyAction(&input, &state));
        }
    }
}
