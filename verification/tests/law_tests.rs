use tile_walk::sample;
use tile_walk::team2::{Input, TileState, TimeKeeper, TILE_SIZE};

fn inputs() -> (sample::Input, Input) {
    let tiles: Vec<Vec<usize>> =
        (0..TILE_SIZE).map(|i| (0..TILE_SIZE).map(|j| (i / 2) * TILE_SIZE + j).collect()).collect();
    let points: Vec<Vec<i32>> =
        (0..TILE_SIZE).map(|i| (0..TILE_SIZE).map(|j| ((i * 7 + j * 13) % 100) as i32).collect()).collect();
    let s = (0, 0);
    (
        sample::Input { s, tiles: tiles.clone(), ps: points.clone() },
        Input { s, tiles, points },
    )
}

#[test]
fn a_walk_of_legal_moves_scores_its_game_score() {
    let (a, b) = inputs();
    let mut state = TileState::new(&b, usize::MAX, b.s, (0, 0));
    let mut k = 0;
    loop {
        let legal = state.legalActions(&b);
        if legal.is_empty() || k == 60 {
            break;
        }
        state.advance(&b, legal[k % legal.len()]);
        k += 1;
    }
    let (score, err, _used, steps) = sample::compute_score_detail(&a, &state.output);
    assert_eq!(err, "");
    assert_eq!(score, state.game_score);
    assert_eq!(steps, state.steps);
}

#[test]
fn the_contest_walk_scores_its_game_score() {
    let (a, b) = inputs();
    let keeper = TimeKeeper::new(300);
    let mut state = TileState::new(&b, usize::MAX, b.s, tile_walk::team2::target_ij(b.s));
    tile_walk::team2::step1(&b, &mut state, &keeper);
    let (score, err, _used, steps) = sample::compute_score_detail(&a, &state.output);
    assert_eq!(err, "");
    assert_eq!(score, state.game_score);
    assert_eq!(steps, state.steps);
}

#[test]
fn legal_walks_step_on_each_tile_once() {
    let (_a, b) = inputs();
    let mut state = TileState::new(&b, usize::MAX, b.s, (0, 0));
    for _ in 0..40 {
        let legal = state.legalActions(&b);
        if legal.is_empty() {
            break;
        }
        state.advance(&b, *legal.last().unwrap());
    }
    let mut tiles: Vec<usize> = state.steps.iter().map(|&(i, j)| b.tiles[i][j]).collect();
    let n = tiles.len();
    tiles.sort();
    tiles.dedup();
    assert_eq!(tiles.len(), n);
}
