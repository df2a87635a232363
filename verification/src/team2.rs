//! The contest solution: a walk that tours the sixteen blocks of the grid
//! (step 1, a best-first search towards each block's centre), then is
//! improved by destroying a random stretch of it and rebuilding that stretch
//! by depth-first search (step 2).

use crate::clock;
use crate::grid::{dij, dir, max_tile, spec_dij, spec_dir, spec_step, step};
use crate::random;
use std::cmp::Ordering;
use vstd::prelude::*;
use vstd::std_specs::cmp::{PartialEqSpecImpl, PartialOrdSpecImpl};

verus! {

/// Width and height of the grid.
pub const TILE_SIZE: usize = 50;

/// `evaluateScore` flag: rank by the distance to the goal.
pub const USE_TARGET_DISTANCE: usize = 1;

/// `evaluateScore` flag: rank by the game score.
pub const USE_GAME_SCORE: usize = 2;

/// The problem's input: start cell `s`, the tile id of each cell and the
/// points of each cell.
pub struct Input {
    pub s: (usize, usize),
    pub tiles: Vec<Vec<usize>>,
    pub points: Vec<Vec<i32>>,
}

impl Input {
    /// Both grids are `TILE_SIZE x TILE_SIZE`.
    pub open spec fn grid_ok(&self) -> bool {
        &&& self.tiles@.len() == TILE_SIZE
        &&& self.points@.len() == TILE_SIZE
        &&& forall|i: int| 0 <= i < TILE_SIZE ==> #[trigger] self.tiles@[i]@.len() == TILE_SIZE
        &&& forall|i: int| 0 <= i < TILE_SIZE ==> #[trigger] self.points@[i]@.len() == TILE_SIZE
    }

    /// Both grids are `TILE_SIZE x TILE_SIZE` and the start cell lies on the grid.
    pub open spec fn wf(&self) -> bool {
        &&& self.grid_ok()
        &&& self.s.0 < TILE_SIZE
        &&& self.s.1 < TILE_SIZE
    }

    /// Every tile id is below `bound`.
    pub open spec fn tiles_below(&self, bound: int) -> bool {
        forall|i: int, j: int| 0 <= i < TILE_SIZE && 0 <= j < TILE_SIZE ==> #[trigger] self.tile(i, j) < bound
    }

    pub open spec fn tile(&self, i: int, j: int) -> usize {
        self.tiles@[i]@[j]
    }

    pub open spec fn point(&self, i: int, j: int) -> i32 {
        self.points@[i]@[j]
    }
}

/// A cell of the grid.
#[derive(Clone, Copy, PartialEq, Eq, Debug, Structural)]
pub struct Position {
    pub i: usize,
    pub j: usize,
}

impl Position {
    pub fn new(p: (usize, usize)) -> (r: Self)
        ensures
            r.i == p.0,
            r.j == p.1,
    {
        Position { i: p.0, j: p.1 }
    }
}

/// Whether `(i, j)` lies on the grid.
pub open spec fn on_grid(p: (usize, usize)) -> bool {
    p.0 < TILE_SIZE && p.1 < TILE_SIZE
}

/// The sum of the points of `cells`, added with wrap-around in order.
pub open spec fn path_score(input: &Input, cells: Seq<(usize, usize)>) -> i32
    decreases cells.len(),
{
    if cells.len() == 0 {
        0
    } else {
        path_score(input, cells.drop_last()).wrapping_add(input.point(cells.last().0 as int, cells.last().1 as int))
    }
}

/// The Manhattan distance between two cells.
pub open spec fn manhattan(a: (usize, usize), b: (usize, usize)) -> int {
    (if a.0 >= b.0 { a.0 - b.0 } else { b.0 - a.0 }) + (if a.1 >= b.1 { a.1 - b.1 } else { b.1 - a.1 })
}

/// The distance between `a` and `b` can be computed in `i32`.
pub open spec fn dist_fits(a: (usize, usize), b: (usize, usize)) -> bool {
    &&& a.0 <= i32::MAX
    &&& a.1 <= i32::MAX
    &&& b.0 <= i32::MAX
    &&& b.1 <= i32::MAX
    &&& manhattan(a, b) <= i32::MAX
}

/// `|x|` in `i32` with wrap-around: `i32::MIN` stays `i32::MIN`.
pub open spec fn wrap_abs(x: i32) -> i32 {
    if x == i32::MIN {
        x
    } else if x < 0 {
        (-x) as i32
    } else {
        x
    }
}

/// The distance between `a` and `b` as computed in `i32` with wrap-around:
/// the coordinates are cast to `i32`, and the differences, their absolute
/// values and the sum wrap around. It is the Manhattan distance whenever
/// that fits (see `goalDistance`).
pub open spec fn wrapped_distance(a: (usize, usize), b: (usize, usize)) -> i32 {
    wrap_abs((a.0 as i32).wrapping_sub(b.0 as i32)).wrapping_add(wrap_abs((a.1 as i32).wrapping_sub(b.1 as i32)))
}

/// The state of a walk: the turn, the tiles stepped on, the walker's cell,
/// the cell the search heads for, the walk so far as an output (one letter
/// per move) and as cells, the points collected, the score the
/// searches rank states by, and the first move taken from a search's root.
#[allow(non_snake_case)]
pub struct TileState {
    END_TURN_: usize,
    turn: usize,
    seen: Vec<bool>,
    pos: Position,
    pub goal: Position,
    pub output: String,
    pub steps: Vec<(usize, usize)>,
    pub game_score: i32,
    pub evaluated_score: i32,
    pub first_action_: usize,
}

/// The mathematical value of a `TileState`.
pub struct TileStateView {
    pub end_turn: usize,
    pub turn: usize,
    pub seen: Seq<bool>,
    pub pos: (usize, usize),
    pub goal: (usize, usize),
    pub output: Seq<char>,
    pub steps: Seq<(usize, usize)>,
    pub game_score: i32,
    pub evaluated_score: i32,
    pub first_action: usize,
}

impl View for TileState {
    type V = TileStateView;

    closed spec fn view(&self) -> TileStateView {
        TileStateView {
            end_turn: self.END_TURN_,
            turn: self.turn,
            seen: self.seen@,
            pos: (self.pos.i, self.pos.j),
            goal: (self.goal.i, self.goal.j),
            output: self.output@,
            steps: self.steps@,
            game_score: self.game_score,
            evaluated_score: self.evaluated_score,
            first_action: self.first_action_,
        }
    }
}

impl TileStateView {
    /// The walker stands on the grid, every tile id indexes `seen`, and the
    /// walk is recorded consistently: one letter per move (one fewer than
    /// cells), every cell on the grid.
    pub open spec fn wf_path(self, input: &Input) -> bool {
        &&& input.grid_ok()
        &&& on_grid(self.pos)
        &&& input.tiles_below(self.seen.len() as int)
        &&& self.steps.len() > 0
        &&& forall|k: int| 0 <= k < self.steps.len() ==> on_grid(#[trigger] self.steps[k])
        &&& self.output.len() + 1 == self.steps.len()
        &&& forall|k: int| 0 <= k < self.output.len() ==> is_move_letter(#[trigger] self.output[k])
    }

    /// `wf_path`, and the walker stands on the last cell of the walk.
    pub open spec fn wf(self, input: &Input) -> bool {
        &&& self.wf_path(input)
        &&& self.steps.last() == self.pos
    }

    pub open spec fn next_pos(self, action: usize) -> (usize, usize) {
        spec_step(self.pos.0, self.pos.1, action)
    }

    /// `action` leads onto the grid, onto a tile not yet seen.
    pub open spec fn is_legal(self, input: &Input, action: usize) -> bool {
        let (ni, nj) = self.next_pos(action);
        &&& action < 4
        &&& ni < TILE_SIZE
        &&& nj < TILE_SIZE
        &&& !self.seen[input.tile(ni as int, nj as int) as int]
    }

    /// The legal moves among the first `k`, in increasing order.
    pub open spec fn legal_upto(self, input: &Input, k: nat) -> Seq<usize>
        decreases k,
    {
        if k == 0 {
            seq![]
        } else {
            let p = self.legal_upto(input, (k - 1) as nat);
            if self.is_legal(input, (k - 1) as usize) {
                p.push((k - 1) as usize)
            } else {
                p
            }
        }
    }

    /// The legal moves, in increasing order.
    pub open spec fn legal_actions(self, input: &Input) -> Seq<usize> {
        self.legal_upto(input, 4)
    }

    /// The state after `action`: the walker moves, the cell is recorded, its
    /// points are collected (with wrap-around), its tile is seen, the turn
    /// advances and the move's letter is written.
    pub open spec fn advanced(self, input: &Input, action: usize) -> TileStateView {
        let (ni, nj) = self.next_pos(action);
        TileStateView {
            pos: (ni, nj),
            steps: self.steps.push((ni, nj)),
            game_score: self.game_score.wrapping_add(input.point(ni as int, nj as int)),
            seen: self.seen.update(input.tile(ni as int, nj as int) as int, true),
            turn: self.turn.wrapping_add(1),
            output: self.output.push(spec_dir(action)),
            ..self
        }
    }

    pub open spec fn goal_distance(self) -> int {
        wrapped_distance(self.pos, self.goal) as int
    }

    /// The search score that `evaluateScore(flag)` sets.
    pub open spec fn evaluation(self, flag: usize) -> i32 {
        if flag == USE_TARGET_DISTANCE {
            self.goal_distance() as i32
        } else {
            self.game_score
        }
    }

    pub open spec fn evaluated(self, flag: usize) -> TileStateView {
        TileStateView { evaluated_score: self.evaluation(flag), ..self }
    }

    pub open spec fn is_done(self) -> bool {
        self.turn == self.end_turn
    }

    /// The state after the moves `acts`, in order.
    pub open spec fn run(self, input: &Input, acts: Seq<usize>) -> TileStateView
        decreases acts.len(),
    {
        if acts.len() == 0 {
            self
        } else {
            self.run(input, acts.drop_last()).advanced(input, acts.last())
        }
    }

    /// Each of the moves `acts` is legal when it is made.
    pub open spec fn legal_run(self, input: &Input, acts: Seq<usize>) -> bool
        decreases acts.len(),
    {
        acts.len() == 0 || (self.legal_run(input, acts.drop_last()) && self.run(input, acts.drop_last()).is_legal(
            input,
            acts.last(),
        ))
    }

    /// `self` and `other` are the same walk; they may differ in the goal and
    /// in the search score.
    pub open spec fn same_walk(self, other: TileStateView) -> bool {
        TileStateView { goal: other.goal, evaluated_score: other.evaluated_score, ..self } == other
    }

    /// `other` continues the walk `self` by at most `limit` legal moves.
    pub open spec fn extends_to(self, input: &Input, other: TileStateView, limit: int) -> bool {
        exists|acts: Seq<usize>|
            #[trigger] self.legal_run(input, acts) && acts.len() <= limit && self.run(input, acts).same_walk(other)
    }
}

/// The letters of the moves.
pub open spec fn is_move_letter(c: char) -> bool {
    c == 'L' || c == 'R' || c == 'U' || c == 'D'
}

/// The legal moves are exactly the moves in `[0, 4)` that are legal, each once,
/// in increasing order.
pub proof fn lemma_legal_upto(v: TileStateView, input: &Input, k: nat)
    requires
        k <= 4,
    ensures
        forall|a: usize| #[trigger] v.legal_upto(input, k).contains(a) <==> (a < k && v.is_legal(input, a)),
        forall|x: int, y: int|
            0 <= x < y < v.legal_upto(input, k).len() ==> v.legal_upto(input, k)[x] < v.legal_upto(input, k)[y],
        v.legal_upto(input, k).len() <= k,
    decreases k,
{
    if k > 0 {
        lemma_legal_upto(v, input, (k - 1) as nat);
        let p = v.legal_upto(input, (k - 1) as nat);
        let q = v.legal_upto(input, k);
        if v.is_legal(input, (k - 1) as usize) {
            assert(q == p.push((k - 1) as usize));
            assert forall|a: usize| #[trigger] q.contains(a) <==> (a < k && v.is_legal(input, a)) by {
                if a == k - 1 {
                    assert(q[p.len() as int] == a);
                }
                if q.contains(a) && a != k - 1 {
                    let x = choose|x: int| 0 <= x < q.len() && q[x] == a;
                    assert(p[x] == a);
                    assert(p.contains(a));
                }
                if a < k - 1 && v.is_legal(input, a) {
                    assert(p.contains(a));
                    let x = choose|x: int| 0 <= x < p.len() && p[x] == a;
                    assert(q[x] == a);
                }
            }
            assert forall|x: int, y: int| 0 <= x < y < q.len() implies q[x] < q[y] by {
                if y == p.len() {
                    assert(p.contains(p[x]));
                } else {
                    assert(p[x] < p[y]);
                }
            }
        }
    }
}

/// A legal move keeps a state well formed.
pub proof fn lemma_advanced_wf(v: TileStateView, input: &Input, action: usize)
    requires
        v.wf(input),
        action < 4,
        on_grid(v.next_pos(action)),
    ensures
        v.advanced(input, action).wf(input),
{
    let w = v.advanced(input, action);
    assert forall|k: int| 0 <= k < w.steps.len() implies on_grid(#[trigger] w.steps[k]) by {
        if k < v.steps.len() {
            assert(w.steps[k] == v.steps[k]);
        }
    }
    assert forall|k: int| 0 <= k < w.output.len() implies is_move_letter(#[trigger] w.output[k]) by {
        if k < v.output.len() {
            assert(w.output[k] == v.output[k]);
        }
    }
}

impl Clone for TileState {
    fn clone(&self) -> (r: Self)
        ensures
            r@ == self@,
    {
        let mut steps: Vec<(usize, usize)> = Vec::new();
        for k in 0..self.steps.len()
            invariant
                steps@ == self.steps@.take(k as int),
        {
            steps.push(self.steps[k]);
            assert(steps@ =~= self.steps@.take(k + 1));
        }
        assert(steps@ =~= self.steps@);
        let r = TileState {
            END_TURN_: self.END_TURN_,
            turn: self.turn,
            seen: self.seen.clone(),
            pos: self.pos,
            goal: self.goal,
            output: self.output.clone(),
            steps,
            game_score: self.game_score,
            evaluated_score: self.evaluated_score,
            first_action_: self.first_action_,
        };
        assert(r.seen@ =~= self.seen@);
        r
    }
}

/// Appends the letter of `action` to `output`.
fn push_dir(output: &mut String, action: usize)
    requires
        action < 4,
    ensures
        final(output)@ == old(output)@.push(spec_dir(action)),
{
    if action == 0 {
        output.append("L");
        proof {
            reveal_strlit("L");
        }
    } else if action == 1 {
        output.append("R");
        proof {
            reveal_strlit("R");
        }
    } else if action == 2 {
        output.append("U");
        proof {
            reveal_strlit("U");
        }
    } else {
        output.append("D");
        proof {
            reveal_strlit("D");
        }
    }
    assert(output@ =~= old(output)@.push(spec_dir(action)));
}

/// The absolute value of `x`, with `i32::MIN` left as it is (what
/// `i32::abs` gives with wrap-around).
fn abs_i32(x: i32) -> (r: i32)
    ensures
        r == wrap_abs(x),
{
    if x == i32::MIN {
        x
    } else if x < 0 {
        -x
    } else {
        x
    }
}

impl TileState {
    /// A state at `pos_init` on turn 0 heading for `goal`, that has stepped
    /// only on `pos_init` and collected its points; `seen` has one entry per
    /// tile id up to the largest one.
    pub fn new(input: &Input, end_turn: usize, pos_init: (usize, usize), goal: (usize, usize)) -> (r: Self)
        requires
            input.grid_ok(),
            input.tiles_below(usize::MAX as int),
            on_grid(pos_init),
        ensures
            forall|i: int, j: int| 0 <= i < TILE_SIZE && 0 <= j < TILE_SIZE ==> #[trigger] input.tile(i, j) < r@.seen.len(),
            exists|i: int, j: int| 0 <= i < TILE_SIZE && 0 <= j < TILE_SIZE && #[trigger] input.tile(i, j) == r@.seen.len() - 1,
            forall|t: int| 0 <= t < r@.seen.len() ==> #[trigger] r@.seen[t] == (t == input.tile(pos_init.0 as int, pos_init.1 as int)),
            r@.end_turn == end_turn,
            r@.turn == 0,
            r@.pos == pos_init,
            r@.goal == goal,
            r@.output == Seq::<char>::empty(),
            r@.steps == seq![pos_init],
            r@.game_score == input.point(pos_init.0 as int, pos_init.1 as int),
            r@.evaluated_score == 0,
            r@.first_action == usize::MAX,
            r@.wf(input),
            r@.game_score == path_score(input, r@.steps),
    {
        let max_tile = max_tile(&input.tiles);
        proof {
            let (wi, wj) = choose|i: int, j: int|
                0 <= i < TILE_SIZE && 0 <= j < TILE_SIZE && input.tiles@[i]@[j] == max_tile;
            assert(input.tile(wi, wj) == max_tile);
            assert(input.tile(pos_init.0 as int, pos_init.1 as int) <= max_tile);
            assert forall|i: int, j: int| 0 <= i < TILE_SIZE && 0 <= j < TILE_SIZE implies #[trigger] input.tile(i, j) <= max_tile by {
                assert(input.tiles@[i]@[j] <= max_tile);
            }
        }
        let m = max_tile + 1;
        let mut seen: Vec<bool> = vec![false; m];
        let pos = Position { i: pos_init.0, j: pos_init.1 };
        let goal = Position { i: goal.0, j: goal.1 };
        seen.set(input.tiles[pos.i][pos.j], true);
        let steps = vec![(pos.i, pos.j)];
        let game_score = input.points[pos.i][pos.j];
        let evaluated_score: i32 = 0;
        let output = String::new();
        proof {
            let cells = steps@;
            assert(cells.drop_last() =~= Seq::<(usize, usize)>::empty());
            assert(path_score(input, cells.drop_last()) == 0);
        }
        TileState {
            END_TURN_: end_turn,
            turn: 0,
            seen,
            pos,
            goal,
            steps,
            output,
            game_score,
            evaluated_score,
            first_action_: usize::MAX,
        }
    }

    /// The Manhattan distance from the walker to the goal.
    #[allow(non_snake_case)]
    pub fn goalDistance(&self) -> (r: i32)
        ensures
            r == self@.goal_distance(),
            dist_fits(self@.pos, self@.goal) ==> r == manhattan(self@.pos, self@.goal),
    {
        let di = abs_i32((self.pos.i as i32).wrapping_sub(self.goal.i as i32));
        let dj = abs_i32((self.pos.j as i32).wrapping_sub(self.goal.j as i32));
        di.wrapping_add(dj)
    }

    /// Sets the search score: the distance to the goal for
    /// `USE_TARGET_DISTANCE`, the game score for any other flag.
    #[allow(non_snake_case)]
    pub fn evaluateScore(&mut self, flag: usize)
        ensures
            final(self)@ == old(self)@.evaluated(flag),
    {
        if flag == USE_GAME_SCORE {
            self.evaluated_score = self.game_score;
        } else if flag == USE_TARGET_DISTANCE {
            self.evaluated_score = self.goalDistance();
        } else {
            self.evaluated_score = self.game_score;
        }
    }

    /// Recomputes the game score as the sum of the points of the cells of the
    /// walk.
    #[allow(non_snake_case)]
    pub fn updateGameScore(&mut self, input: &Input)
        requires
            input.grid_ok(),
            forall|k: int| 0 <= k < old(self)@.steps.len() ==> on_grid(#[trigger] old(self)@.steps[k]),
        ensures
            final(self)@ == (TileStateView { game_score: path_score(input, old(self)@.steps), ..old(self)@ }),
    {
        let mut sum: i32 = 0;
        let n = self.steps.len();
        assert(self.steps@ == old(self)@.steps);
        assert(self.steps@.take(0) =~= Seq::<(usize, usize)>::empty());
        for k in 0..n
            invariant
                input.grid_ok(),
                n == self.steps@.len(),
                forall|x: int| 0 <= x < self.steps@.len() ==> on_grid(#[trigger] self.steps@[x]),
                sum == path_score(input, self.steps@.take(k as int)),
        {
            let (i, j) = self.steps[k];
            assert(on_grid(self.steps@[k as int]));
            assert(self.steps@.take(k + 1).drop_last() =~= self.steps@.take(k as int));
            sum = sum.wrapping_add(input.points[i][j]);
        }
        assert(self.steps@.take(n as int) =~= self.steps@);
        self.game_score = sum;
    }

    /// The game ends on the state's last turn.
    #[allow(non_snake_case)]
    pub fn isDone(&self) -> (r: bool)
        ensures
            r == self@.is_done(),
    {
        self.turn == self.END_TURN_
    }

    /// Moves the walker one cell by `action`: records the cell, collects its
    /// points, marks its tile seen and writes the move's letter.
    pub fn advance(&mut self, input: &Input, action: usize)
        requires
            old(self)@.wf(input),
            action < 4,
            on_grid(old(self)@.next_pos(action)),
        ensures
            final(self)@ == old(self)@.advanced(input, action),
            final(self)@.wf(input),
    {
        proof {
            lemma_advanced_wf(self@, input, action);
        }
        let (di, dj) = dij(action);
        self.pos.i = self.pos.i.wrapping_add(di);
        self.pos.j = self.pos.j.wrapping_add(dj);
        self.steps.push((self.pos.i, self.pos.j));
        self.game_score = self.game_score.wrapping_add(input.points[self.pos.i][self.pos.j]);
        assert(input.tile(self.pos.i as int, self.pos.j as int) < self.seen@.len());
        self.seen.set(input.tiles[self.pos.i][self.pos.j], true);
        self.turn = self.turn.wrapping_add(1);
        push_dir(&mut self.output, action);
    }

    /// The moves that lead onto the grid and onto a tile not yet seen, in
    /// increasing order.
    #[allow(non_snake_case)]
    pub fn legalActions(&self, input: &Input) -> (r: Vec<usize>)
        requires
            self@.wf(input),
        ensures
            r@ == self@.legal_actions(input),
    {
        let mut actions: Vec<usize> = Vec::new();
        for action in 0..4usize
            invariant
                self@.wf(input),
                actions@ == self@.legal_upto(input, action as nat),
        {
            let (ni, nj) = step(self.pos.i, self.pos.j, action);
            if ni < TILE_SIZE && nj < TILE_SIZE {
                assert(input.tile(ni as int, nj as int) < self.seen@.len());
                if !self.seen[input.tiles[ni][nj]] {
                    actions.push(action);
                }
            }
        }
        actions
    }
}

/// Two states compare equal when their search scores are equal.
impl PartialEq for TileState {
    fn eq(&self, other: &Self) -> (r: bool) {
        self.evaluated_score == other.evaluated_score
    }
}

impl PartialEqSpecImpl for TileState {
    open spec fn obeys_eq_spec() -> bool {
        true
    }

    open spec fn eq_spec(&self, other: &Self) -> bool {
        self@.evaluated_score == other@.evaluated_score
    }
}

impl Eq for TileState {

}

/// States are ordered by their search scores.
impl PartialOrd for TileState {
    fn partial_cmp(&self, other: &Self) -> (r: Option<Ordering>) {
        self.evaluated_score.partial_cmp(&other.evaluated_score)
    }
}

impl PartialOrdSpecImpl for TileState {
    open spec fn obeys_partial_cmp_spec() -> bool {
        true
    }

    open spec fn partial_cmp_spec(&self, other: &Self) -> Option<Ordering> {
        if self@.evaluated_score < other@.evaluated_score {
            Some(Ordering::Less)
        } else if self@.evaluated_score > other@.evaluated_score {
            Some(Ordering::Greater)
        } else {
            Some(Ordering::Equal)
        }
    }
}

/// Measures the time since it was made against a limit in milliseconds.
pub struct TimeKeeper {
    start_time_: std::time::Instant,
    time_threshold_: u64,
}

impl TimeKeeper {
    /// The limit, in milliseconds.
    pub closed spec fn threshold_ms(&self) -> nat {
        self.time_threshold_ as nat
    }

    /// Starts measuring now, with a limit of `time_threshold` milliseconds.
    pub fn new(time_threshold: u64) -> (r: Self)
        ensures
            r.threshold_ms() == time_threshold,
    {
        TimeKeeper { start_time_: clock::instant_now(), time_threshold_: time_threshold }
    }

    /// `elapsed_nanos` nanoseconds reach the limit.
    pub open spec fn over_after(&self, elapsed_nanos: u128) -> bool {
        elapsed_nanos >= self.threshold_ms() * 1_000_000
    }

    /// Whether `elapsed_nanos` nanoseconds reach the limit.
    pub fn is_over_after(&self, elapsed_nanos: u128) -> (r: bool)
        ensures
            r == (elapsed_nanos >= self.threshold_ms() * 1_000_000),
    {
        elapsed_nanos >= (self.time_threshold_ as u128) * 1_000_000
    }

    /// Whether the time since this keeper was made has reached the limit:
    /// the elapsed time, read from the clock in nanoseconds, is compared with
    /// the limit (so a limit of 0 is always reached).
    #[allow(non_snake_case)]
    pub fn isTimeOver(&self) -> (r: bool)
        ensures
            exists|elapsed_nanos: u128| r == #[trigger] self.over_after(elapsed_nanos),
    {
        let elapsed_nanos = clock::elapsed_nanos(&self.start_time_);
        let r = self.is_over_after(elapsed_nanos);
        assert(r == self.over_after(elapsed_nanos));
        r
    }

    /// `elapsed_nanos` nanoseconds in whole milliseconds, at most `usize::MAX`.
    pub open spec fn millis_of(elapsed_nanos: u128) -> int {
        if elapsed_nanos / 1_000_000 > usize::MAX { usize::MAX as int } else { (elapsed_nanos / 1_000_000) as int }
    }

    /// `elapsed_nanos` nanoseconds in whole milliseconds, at most `usize::MAX`.
    pub fn millis_after(elapsed_nanos: u128) -> (r: usize)
        ensures
            r == Self::millis_of(elapsed_nanos),
    {
        let ms = elapsed_nanos / 1_000_000;
        if ms > usize::MAX as u128 {
            usize::MAX
        } else {
            ms as usize
        }
    }

    /// The time since this keeper was made, in whole milliseconds: the
    /// elapsed time read from the clock in nanoseconds, divided down (and
    /// capped at `usize::MAX`).
    pub fn time(&self) -> (r: usize)
        ensures
            exists|elapsed_nanos: u128| r == #[trigger] Self::millis_of(elapsed_nanos),
    {
        let elapsed_nanos = clock::elapsed_nanos(&self.start_time_);
        let r = Self::millis_after(elapsed_nanos);
        assert(r == Self::millis_of(elapsed_nanos));
        r
    }
}

/// The centre of the block in block row `i / 2` and block column `j / 2`
/// when the grid is cut into eighths: `(i * TILE_SIZE / 8, j * TILE_SIZE / 8)`.
pub open spec fn spec_calc_center(i: usize, j: usize) -> (usize, usize) {
    ((i * TILE_SIZE / 8) as usize, (j * TILE_SIZE / 8) as usize)
}

pub fn calc_center(i: usize, j: usize) -> (r: (usize, usize))
    requires
        i * TILE_SIZE <= usize::MAX,
        j * TILE_SIZE <= usize::MAX,
    ensures
        r == spec_calc_center(i, j),
{
    (i * TILE_SIZE / 8, j * TILE_SIZE / 8)
}

/// The centre of block `k` of the 4 x 4 blocks, numbered row by row.
pub open spec fn spec_center(k: usize) -> (usize, usize) {
    spec_calc_center((2 * (k / 4) + 1) as usize, (2 * (k % 4) + 1) as usize)
}

/// The centre of block `k`.
pub fn center(k: usize) -> (r: (usize, usize))
    requires
        k < 16,
    ensures
        r == spec_center(k),
{
    calc_center(2 * (k / 4) + 1, 2 * (k % 4) + 1)
}

/// The block that the tour visits after block `b`:
///
/// ```text
///  0 <-  1    2 <-  3
///  v     ^    v     ^
///  4     5 <- 6     7
///  v                ^
///  8     9 -> 10   11
///  v     ^    v     ^
/// 12 -> 13   14 -> 15
/// ```
pub open spec fn spec_next_block(b: usize) -> usize {
    if b == 0 {
        4
    } else if b == 1 {
        0
    } else if b == 2 {
        6
    } else if b == 3 {
        2
    } else if b == 4 {
        8
    } else if b == 5 {
        1
    } else if b == 6 {
        5
    } else if b == 7 {
        3
    } else if b == 8 {
        12
    } else if b == 9 {
        10
    } else if b == 10 {
        14
    } else if b == 11 {
        7
    } else if b == 12 {
        13
    } else if b == 13 {
        9
    } else if b == 14 {
        15
    } else {
        11
    }
}

/// The centre of the block that the tour visits after block `b`.
pub fn target(b: usize) -> (r: (usize, usize))
    requires
        b < 16,
    ensures
        r == spec_center(spec_next_block(b)),
{
    let next: usize = if b == 0 {
        4
    } else if b == 1 {
        0
    } else if b == 2 {
        6
    } else if b == 3 {
        2
    } else if b == 4 {
        8
    } else if b == 5 {
        1
    } else if b == 6 {
        5
    } else if b == 7 {
        3
    } else if b == 8 {
        12
    } else if b == 9 {
        10
    } else if b == 10 {
        14
    } else if b == 11 {
        7
    } else if b == 12 {
        13
    } else if b == 13 {
        9
    } else if b == 14 {
        15
    } else {
        11
    };
    center(next)
}

/// The block of cell `(i, j)`: the grid cut into 4 x 4 blocks, numbered row
/// by row.
pub open spec fn block_of(p: (usize, usize)) -> int {
    (4 * p.0 / TILE_SIZE as int) * 4 + 4 * p.1 / TILE_SIZE as int
}

/// The goal after cell `p`: the centre of the block that the tour visits
/// after `p`'s block.
pub fn target_ij(p: (usize, usize)) -> (r: (usize, usize))
    requires
        4 * p.0 <= usize::MAX,
        4 * p.1 <= usize::MAX,
        block_of(p) < 16,
    ensures
        r == spec_center(spec_next_block(block_of(p) as usize)),
{
    let (i, j) = p;
    let block = (4 * i / TILE_SIZE) * 4 + (4 * j / TILE_SIZE);
    target(block)
}

/// The block that the tour reaches after `m` moves from block 0.
pub open spec fn tour_block(m: nat) -> usize
    decreases m,
{
    if m == 0 {
        0
    } else {
        spec_next_block(tour_block((m - 1) as nat))
    }
}

/// The first 16 blocks of the tour.
pub open spec fn tour_blocks() -> Seq<usize> {
    Seq::new(16, |m: int| tour_block(m as nat))
}

/// The tour of the blocks: each block's centre lies in that block, so the
/// goals that `target_ij` sets from centre to centre follow the successor
/// map; starting from block 0 the tour meets every one of the 16 blocks in
/// its first 16 moves and is back at block 0 after 16.
pub proof fn law_block_tour()
    ensures
        forall|k: usize| k < 16 ==> #[trigger] block_of(spec_center(k)) == k,
        forall|b: usize| b < 16 ==> #[trigger] tour_blocks().contains(b),
        tour_blocks().no_duplicates(),
        tour_block(16) == 0,
{
    assert(tour_block(0) == 0);
    assert(tour_block(1) == 4);
    assert(tour_block(2) == 8);
    assert(tour_block(3) == 12);
    assert(tour_block(4) == 13);
    assert(tour_block(5) == 9);
    assert(tour_block(6) == 10);
    assert(tour_block(7) == 14);
    assert(tour_block(8) == 15);
    assert(tour_block(9) == 11);
    assert(tour_block(10) == 7);
    assert(tour_block(11) == 3);
    assert(tour_block(12) == 2);
    assert(tour_block(13) == 6);
    assert(tour_block(14) == 5);
    assert(tour_block(15) == 1);
    assert(tour_block(16) == 0);
    let t = tour_blocks();
    assert forall|b: usize| b < 16 implies #[trigger] tour_blocks().contains(b) by {
        let m: int = if b == 0 { 0 } else if b == 4 { 1 } else if b == 8 { 2 } else if b == 12 { 3 }
            else if b == 13 { 4 } else if b == 9 { 5 } else if b == 10 { 6 } else if b == 14 { 7 }
            else if b == 15 { 8 } else if b == 11 { 9 } else if b == 7 { 10 } else if b == 3 { 11 }
            else if b == 2 { 12 } else if b == 6 { 13 } else if b == 5 { 14 } else { 15 };
        assert(t[m] == b);
    }
    assert forall|x: int, y: int| 0 <= x < t.len() && 0 <= y < t.len() && x != y implies t[x] != t[y] by {}
    assert forall|k: usize| k < 16 implies #[trigger] block_of(spec_center(k)) == k by {
        if k == 0 {} else if k == 1 {} else if k == 2 {} else if k == 3 {}
        else if k == 4 {} else if k == 5 {} else if k == 6 {} else if k == 7 {}
        else if k == 8 {} else if k == 9 {} else if k == 10 {} else if k == 11 {}
        else if k == 12 {} else if k == 13 {} else if k == 14 {} else {}
    }
}

/// The block reached from block `b` after `n` moves of the tour.
pub open spec fn block_iter(b: usize, n: nat) -> usize
    decreases n,
{
    if n == 0 {
        b
    } else {
        spec_next_block(block_iter(b, (n - 1) as nat))
    }
}

/// The goal after `n` goals set by `target_ij` from cell `p`.
pub open spec fn target_iter(p: (usize, usize), n: nat) -> (usize, usize)
    decreases n,
{
    if n == 0 {
        p
    } else {
        spec_center(spec_next_block(block_of(target_iter(p, (n - 1) as nat)) as usize))
    }
}

/// The tour reaches block `e` from block `c` within 16 moves.
spec fn block_reached(c: usize, e: usize) -> bool {
    exists|n: nat| n < 16 && #[trigger] block_iter(c, n) == e
}

/// Moving along the tour from its `m`-th block goes on around the cycle.
proof fn lemma_tour_from(m: nat, n: nat)
    requires
        m < 16,
    ensures
        block_iter(tour_block(m), n) == tour_block(((m + n) % 16) as nat),
    decreases n,
{
    if n > 0 {
        lemma_tour_from(m, (n - 1) as nat);
        let j = ((m + n - 1) % 16) as nat;
        assert(tour_block(j + 1) == spec_next_block(tour_block(j)));
        if j + 1 == 16 {
            assert(tour_block(16) == 0) by {
                law_block_tour();
            }
            assert((m + n) % 16 == 0);
        } else {
            assert((m + n) % 16 == j + 1);
        }
    }
}

/// Block `c` is the `m`-th block of the tour, for some `m < 16`.
proof fn lemma_tour_index(c: usize) -> (m: nat)
    requires
        c < 16,
    ensures
        m < 16,
        tour_block(m) == c,
{
    law_block_tour();
    let t = tour_blocks();
    assert(t.contains(c));
    let m = choose|m: int| 0 <= m < t.len() && t[m] == c;
    m as nat
}

/// The tour's first 16 blocks are blocks below 16, pairwise different.
proof fn lemma_tour_blocks_distinct(x: nat, y: nat)
    requires
        x < 16,
        y < 16,
        tour_block(x) == tour_block(y),
    ensures
        x == y,
{
    law_block_tour();
    let t = tour_blocks();
    assert(t[x as int] == tour_block(x));
    assert(t[y as int] == tour_block(y));
}

/// The tour never leaves the 16 blocks.
proof fn lemma_block_iter_small(c: usize, n: nat)
    requires
        c < 16,
    ensures
        block_iter(c, n) < 16,
    decreases n,
{
    if n > 0 {
        lemma_block_iter_small(c, (n - 1) as nat);
    }
}

/// From block `c`, the tour meets every block once in its first 16 moves
/// and is back at `c` after 16.
proof fn lemma_block_cycle(c: usize)
    requires
        c < 16,
    ensures
        block_iter(c, 16) == c,
        forall|n1: nat, n2: nat| n1 < 16 && n2 < 16 && #[trigger] block_iter(c, n1) == #[trigger] block_iter(c, n2) ==> n1 == n2,
        forall|e: usize| e < 16 ==> #[trigger] block_reached(c, e),
        forall|n: nat| #[trigger] block_iter(c, n) < 16,
{
    let m = lemma_tour_index(c);
    lemma_tour_from(m, 16);
    assert((m + 16) % 16 == m);
    assert forall|n1: nat, n2: nat| n1 < 16 && n2 < 16 && #[trigger] block_iter(c, n1) == #[trigger] block_iter(c, n2) implies n1 == n2 by {
        lemma_tour_from(m, n1);
        lemma_tour_from(m, n2);
        lemma_tour_blocks_distinct(((m + n1) % 16) as nat, ((m + n2) % 16) as nat);
    }
    assert forall|e: usize| e < 16 implies #[trigger] block_reached(c, e) by {
        let me = lemma_tour_index(e);
        let n = ((me - m + 16) % 16) as nat;
        lemma_tour_from(m, n);
        assert((m + n) % 16 == me);
        assert(block_iter(c, n) == e);
    }
    assert forall|n: nat| #[trigger] block_iter(c, n) < 16 by {
        lemma_block_iter_small(c, n);
    }
}

/// The goals that `target_ij` sets from a cell are the centres of the
/// blocks that follow the cell's block on the tour.
proof fn lemma_target_iter(p: (usize, usize), n: nat)
    requires
        on_grid(p),
        n >= 1,
    ensures
        target_iter(p, n) == spec_center(block_iter(spec_next_block(block_of(p) as usize), (n - 1) as nat)),
    decreases n,
{
    let c = spec_next_block(block_of(p) as usize);
    if n > 1 {
        lemma_target_iter(p, (n - 1) as nat);
        let b = block_iter(c, (n - 2) as nat);
        assert(c < 16);
        lemma_block_cycle(c);
        assert(b < 16);
        law_block_tour();
        assert(block_of(spec_center(b)) == b);
        assert(target_iter(p, (n - 1) as nat) == spec_center(b));
        assert(target_iter(p, n) == spec_center(spec_next_block(b)));
        assert(block_iter(c, (n - 1) as nat) == spec_next_block(b));
    } else {
        assert(target_iter(p, 0) == p);
        assert(block_iter(c, 0) == c);
    }
}

/// The goals of the tour from any cell of the grid: the first goal that
/// `target_ij` sets is a block centre; the first 16 goals are the 16 block
/// centres, each exactly once; and the 17th goal is the first again.
pub proof fn law_tour_from_any_cell(p: (usize, usize))
    requires
        on_grid(p),
    ensures
        exists|k: usize| k < 16 && target_iter(p, 1) == #[trigger] spec_center(k),
        forall|k: usize| k < 16 ==> Seq::new(16, |n: int| target_iter(p, (n + 1) as nat)).contains(#[trigger] spec_center(k)),
        Seq::new(16, |n: int| target_iter(p, (n + 1) as nat)).no_duplicates(),
        target_iter(p, 17) == target_iter(p, 1),
{
    law_block_tour();
    let c = spec_next_block(block_of(p) as usize);
    assert(0 <= block_of(p) < 16);
    assert(c < 16);
    lemma_block_cycle(c);
    let g = Seq::new(16, |n: int| target_iter(p, (n + 1) as nat));
    assert forall|n: int| 0 <= n < 16 implies #[trigger] g[n] == spec_center(block_iter(c, n as nat)) by {
        lemma_target_iter(p, (n + 1) as nat);
    }
    lemma_target_iter(p, 1);
    lemma_target_iter(p, 17);
    assert(block_iter(c, 0) == c);
    assert(target_iter(p, 1) == spec_center(c));
    assert forall|k: usize| k < 16 implies g.contains(#[trigger] spec_center(k)) by {
        assert(block_reached(c, k));
        let n = choose|n: nat| n < 16 && #[trigger] block_iter(c, n) == k;
        assert(g[n as int] == spec_center(k));
    }
    assert forall|x: int, y: int| 0 <= x < g.len() && 0 <= y < g.len() && x != y implies g[x] != g[y] by {
        let bx = block_iter(c, x as nat);
        let by = block_iter(c, y as nat);
        assert(g[x] == spec_center(bx));
        assert(g[y] == spec_center(by));
        assert(bx != by);
        assert(block_of(spec_center(bx)) == bx);
        assert(block_of(spec_center(by)) == by);
    }
}

/// A coordinate within 2 of the centre coordinate of block row (or column)
/// `m` lies in that block row (or column).
proof fn lemma_near_centre_coord(x: usize, m: usize)
    requires
        m < 4,
        x + 2 >= (2 * m + 1) * TILE_SIZE / 8,
        x <= (2 * m + 1) * TILE_SIZE / 8 + 2,
    ensures
        4 * x / TILE_SIZE as int == m,
{
    if m == 0 {
        assert(4 <= x <= 8);
    } else if m == 1 {
        assert(16 <= x <= 20);
    } else if m == 2 {
        assert(29 <= x <= 33);
    } else {
        assert(41 <= x <= 45);
    }
}

/// A cell within 2 moves of the centre of block `k` lies in block `k`.
proof fn lemma_near_centre(p: (usize, usize), k: usize)
    requires
        k < 16,
        manhattan(p, spec_center(k)) <= 2,
    ensures
        block_of(p) == k,
{
    let m0 = k / 4;
    let m1 = k % 4;
    assert(spec_center(k).0 == (2 * m0 + 1) * TILE_SIZE / 8);
    assert(spec_center(k).1 == (2 * m1 + 1) * TILE_SIZE / 8);
    lemma_near_centre_coord(p.0, m0);
    lemma_near_centre_coord(p.1, m1);
}

/// The tour of step 1 round by round: when every round's best-first search
/// ends within 2 moves of the goal it headed for, the goal of round `i`
/// is the `i + 1`-th goal that `target_ij` sets from the start cell.
proof fn lemma_full_tour_goals(input: &Input, v: TileStateView, ks: Seq<nat>, i: int)
    requires
        on_grid(v.pos),
        v.goal == target_iter(v.pos, 1),
        0 <= i <= ks.len(),
        forall|j: int| 0 <= j < ks.len() ==> manhattan(#[trigger] tour_rounds(input, v, ks.take(j + 1)).pos, tour_rounds(input, v, ks.take(j)).goal) <= 2,
    ensures
        tour_rounds(input, v, ks.take(i)).goal == target_iter(v.pos, (i + 1) as nat),
    decreases i,
{
    if i == 0 {
        assert(ks.take(0) =~= Seq::<nat>::empty());
    } else {
        lemma_full_tour_goals(input, v, ks, i - 1);
        let u = tour_rounds(input, v, ks.take(i - 1));
        assert(ks.take(i).drop_last() =~= ks.take(i - 1));
        assert(ks.take(i).last() == ks[i - 1]);
        let w = tour_rounds(input, v, ks.take(i));
        assert(w == tour_round(input, u, ks[i - 1]));
        reveal(tour_round);
        let c = spec_next_block(block_of(v.pos) as usize);
        lemma_target_iter(v.pos, i as nat);
        assert(c < 16);
        lemma_block_iter_small(c, (i - 1) as nat);
        let k = block_iter(c, (i - 1) as nat);
        assert(u.goal == spec_center(k));
        assert(manhattan(w.pos, u.goal) <= 2);
        lemma_near_centre(w.pos, k);
        law_block_tour();
        assert(block_of(spec_center(k)) == k);
        assert(block_of(w.pos) == block_of(target_iter(v.pos, i as nat)));
    }
}

/// A full tour of step 1 heads for every block: when the 16 rounds are all
/// made (the clock did not cut them short) and each round's best-first
/// search ends within 2 moves of the goal it headed for, the goals of the
/// 16 rounds are the goals that `target_ij` sets from the start cell, and
/// so are the 16 block centres, each exactly once.
pub proof fn law_full_tour_heads_for_every_centre(input: &Input, v: TileStateView, ks: Seq<nat>)
    requires
        on_grid(v.pos),
        v.goal == target_iter(v.pos, 1),
        ks.len() == 16,
        forall|j: int| 0 <= j < ks.len() ==> manhattan(#[trigger] tour_rounds(input, v, ks.take(j + 1)).pos, tour_rounds(input, v, ks.take(j)).goal) <= 2,
    ensures
        forall|i: int| 0 <= i < 16 ==> #[trigger] tour_rounds(input, v, ks.take(i)).goal == target_iter(v.pos, (i + 1) as nat),
        forall|k: usize| k < 16 ==> Seq::new(16, |i: int| tour_rounds(input, v, ks.take(i)).goal).contains(#[trigger] spec_center(k)),
        Seq::new(16, |i: int| tour_rounds(input, v, ks.take(i)).goal).no_duplicates(),
{
    assert forall|i: int| 0 <= i < 16 implies #[trigger] tour_rounds(input, v, ks.take(i)).goal == target_iter(v.pos, (i + 1) as nat) by {
        lemma_full_tour_goals(input, v, ks, i);
    }
    law_tour_from_any_cell(v.pos);
    let g = Seq::new(16, |i: int| tour_rounds(input, v, ks.take(i)).goal);
    let t = Seq::new(16, |n: int| target_iter(v.pos, (n + 1) as nat));
    assert forall|i: int| 0 <= i < 16 implies g[i] == t[i] by {
        lemma_full_tour_goals(input, v, ks, i);
    }
    assert(g =~= t);
}

impl TileStateView {
    /// `other` continues the walk `self` by legal moves.
    pub open spec fn extends(self, input: &Input, other: TileStateView) -> bool {
        exists|acts: Seq<usize>| #[trigger] self.legal_run(input, acts) && self.run(input, acts).same_walk(other)
    }
}

/// A legal move appended to a legal run gives a legal run.
pub proof fn lemma_run_push(v: TileStateView, input: &Input, acts: Seq<usize>, a: usize)
    requires
        v.legal_run(input, acts),
        v.run(input, acts).is_legal(input, a),
    ensures
        v.legal_run(input, acts.push(a)),
        v.run(input, acts.push(a)) == v.run(input, acts).advanced(input, a),
{
    assert(acts.push(a).drop_last() =~= acts);
}

/// The same walk stays the same walk after the same move, and the same
/// moves are legal on it.
pub proof fn lemma_same_walk_advanced(x: TileStateView, y: TileStateView, input: &Input, a: usize)
    requires
        x.same_walk(y),
    ensures
        x.advanced(input, a).same_walk(y.advanced(input, a)),
        x.is_legal(input, a) == y.is_legal(input, a),
        x.legal_actions(input) == y.legal_actions(input),
{
    assert(x.legal_upto(input, 0) == y.legal_upto(input, 0));
    assert(x.legal_upto(input, 1) == y.legal_upto(input, 1));
    assert(x.legal_upto(input, 2) == y.legal_upto(input, 2));
    assert(x.legal_upto(input, 3) == y.legal_upto(input, 3));
    assert(x.legal_upto(input, 4) == y.legal_upto(input, 4));
}

/// What the depth-first rebuilders may leave in a state that was `from`:
/// `from` itself, or a state that continues the walk of `from` by at most
/// `limit` legal moves, ends on `from`'s goal, keeps that goal, is ranked
/// by its game score, and ranks above `from`.
pub open spec fn dfs_result(input: &Input, from: TileStateView, to: TileStateView, limit: int) -> bool {
    ||| to == from
    ||| {
        &&& to.pos == from.goal
        &&& to.goal == from.goal
        &&& from.extends_to(input, to, limit)
        &&& to.evaluated_score == to.game_score
        &&& to.evaluated_score > from.evaluated_score
        &&& to.wf(input)
    }
}

/// 5 to the `n`.
pub open spec fn pow5(n: nat) -> nat
    decreases n,
{
    if n == 0 {
        1
    } else {
        5 * pow5((n - 1) as nat)
    }
}

/// The moves that a state found `c` moves deep may still make.
pub open spec fn depth_left(c: i32, limit: i32) -> nat {
    if c < limit {
        (limit - c) as nat
    } else {
        0
    }
}

/// An upper bound on the work left in a depth-first search stack.
pub open spec fn stack_weight(s: Seq<(TileStateView, i32)>, limit: i32) -> nat
    decreases s.len(),
{
    if s.len() == 0 {
        0
    } else {
        stack_weight(s.drop_last(), limit) + pow5(depth_left(s.last().1, limit))
    }
}

/// The values of a depth-first search stack.
pub open spec fn stack_views(s: Seq<(TileState, i32)>) -> Seq<(TileStateView, i32)> {
    s.map_values(|e: (TileState, i32)| (e.0@, e.1))
}

/// What each entry of a depth-first search stack from `root` holds: a
/// well-formed state with `root`'s goal, reached by at most `c` legal moves
/// from `root`; the root itself at depth 0, a state ranked by its game score
/// deeper down.
pub open spec fn dfs_entry_ok(input: &Input, root: TileStateView, e: (TileStateView, i32), limit: i32) -> bool {
    let (v, c) = e;
    &&& v.wf(input)
    &&& v.goal == root.goal
    &&& 0 <= c
    &&& (c == 0 ==> v == root)
    &&& (c >= 1 ==> c <= limit && v.evaluated_score == v.game_score && root.extends_to(input, v, c as int))
}

/// The stack entries of the children of `v` (found `c` moves deep) for the
/// moves `acts`, in order: one move deeper, ranked by their game scores.
pub open spec fn dfs_children(input: &Input, v: TileStateView, c: i32, acts: Seq<usize>) -> Seq<(TileStateView, i32)> {
    acts.map_values(|a: usize| (v.advanced(input, a).evaluated(USE_GAME_SCORE), (c + 1) as i32))
}

/// Pushes the children of `now_state` (one per move of `acts`, in order),
/// each one move deeper than `move_cnt` and ranked by its game score.
fn push_dfs_children(
    input: &Input,
    now_state: &TileState,
    move_cnt: i32,
    acts: &Vec<usize>,
    stack: &mut Vec<(TileState, i32)>,
    Ghost(root): Ghost<TileStateView>,
    Ghost(limit): Ghost<i32>,
)
    requires
        now_state@.wf(input),
        0 <= move_cnt < limit,
        dfs_entry_ok(input, root, (now_state@, move_cnt), limit),
        acts@.len() <= 4,
        forall|k: int| 0 <= k < acts@.len() ==> now_state@.is_legal(input, #[trigger] acts@[k]),
        forall|k: int| 0 <= k < stack_views(old(stack)@).len() ==> dfs_entry_ok(input, root, #[trigger] stack_views(old(stack)@)[k], limit),
    ensures
        forall|k: int| 0 <= k < stack_views(final(stack)@).len() ==> dfs_entry_ok(input, root, #[trigger] stack_views(final(stack)@)[k], limit),
        stack_weight(stack_views(final(stack)@), limit) < stack_weight(stack_views(old(stack)@), limit) + pow5(depth_left(move_cnt, limit)),
        stack_views(final(stack)@) == stack_views(old(stack)@) + dfs_children(input, now_state@, move_cnt, acts@),
{
    let ghost p = pow5(depth_left((move_cnt + 1) as i32, limit));
    proof {
        assert(pow5(depth_left(move_cnt, limit)) == 5 * p);
    }
    let n = acts.len();
    proof {
        assert(stack@ == old(stack)@);
        assert(0 * p == 0);
    }
    for k in 0..n
        invariant
            now_state@.wf(input),
            0 <= move_cnt < limit,
            dfs_entry_ok(input, root, (now_state@, move_cnt), limit),
            n == acts@.len(),
            n <= 4,
            p == pow5(depth_left((move_cnt + 1) as i32, limit)),
            forall|x: int| 0 <= x < acts@.len() ==> now_state@.is_legal(input, #[trigger] acts@[x]),
            forall|x: int| 0 <= x < stack_views(stack@).len() ==> dfs_entry_ok(input, root, #[trigger] stack_views(stack@)[x], limit),
            stack_weight(stack_views(stack@), limit) == stack_weight(stack_views(old(stack)@), limit) + k * p,
            stack_views(stack@) == stack_views(old(stack)@) + dfs_children(input, now_state@, move_cnt, acts@).take(k as int),
    {
        let action = acts[k];
        assert(now_state@.is_legal(input, action));
        let mut next_state = now_state.clone();
        next_state.advance(input, action);
        next_state.evaluateScore(USE_GAME_SCORE);
        let ghost nv = next_state@;
        proof {
            let v = now_state@;
            if move_cnt == 0 {
                assert(v == root);
                let acts0 = Seq::<usize>::empty();
                assert(root.run(input, acts0) == root);
                assert(root.legal_run(input, acts0));
                lemma_run_push(root, input, acts0, action);
                assert(root.run(input, acts0.push(action)).same_walk(nv));
                assert(root.extends_to(input, nv, 1));
            } else {
                let a0 = choose|a0: Seq<usize>|
                    #[trigger] root.legal_run(input, a0) && a0.len() <= move_cnt && root.run(input, a0).same_walk(v);
                lemma_same_walk_advanced(root.run(input, a0), v, input, action);
                lemma_run_push(root, input, a0, action);
                assert(root.run(input, a0.push(action)).same_walk(nv));
                assert(root.extends_to(input, nv, move_cnt + 1));
            }
        }
        let ghost prev = stack@;
        stack.push((next_state, move_cnt + 1));
        proof {
            assert(stack_views(stack@) =~= stack_views(prev).push((nv, (move_cnt + 1) as i32)));
            assert(stack_views(stack@).drop_last() =~= stack_views(prev));
            assert((k + 1) * p == k * p + p) by (nonlinear_arith);
            let ch = dfs_children(input, now_state@, move_cnt, acts@);
            assert(ch[k as int] == (nv, (move_cnt + 1) as i32));
            assert(ch.take(k + 1) =~= ch.take(k as int).push(ch[k as int]));
            assert(stack_views(stack@) =~= stack_views(old(stack)@) + ch.take(k + 1));
        }
    }
    proof {
        assert(n * p <= 4 * p) by (nonlinear_arith)
            requires
                n <= 4,
        ;
        assert(pow5(depth_left(move_cnt, limit)) == 5 * p);
        lemma_pow5_positive(depth_left((move_cnt + 1) as i32, limit));
        let ch = dfs_children(input, now_state@, move_cnt, acts@);
        assert(ch.take(n as int) =~= ch);
    }
}

/// Powers of 5 are positive.
pub proof fn lemma_pow5_positive(n: nat)
    ensures
        pow5(n) >= 1,
    decreases n,
{
    if n > 0 {
        lemma_pow5_positive((n - 1) as nat);
    }
}

/// The depth-first search's stack and the state it keeps.
#[verifier::ext_equal]
pub struct DfsSearch {
    pub stack: Seq<(TileStateView, i32)>,
    pub best: TileStateView,
}

/// One step of the depth-first search: the top entry is taken; if it stands
/// on the goal it replaces the kept state when it ranks above it; otherwise,
/// unless it is `limit` moves deep or the goal is farther than the moves it
/// has left, its children (moves in increasing order) are pushed.
pub open spec fn dfs_step(input: &Input, s: DfsSearch, limit: i32) -> DfsSearch {
    if s.stack.len() == 0 {
        s
    } else {
        let (v, c) = s.stack.last();
        let rest = s.stack.drop_last();
        if v.pos == s.best.goal {
            DfsSearch {
                stack: rest,
                best: if s.best.evaluated_score < v.evaluated_score {
                    v
                } else {
                    s.best
                },
            }
        } else if c == limit || v.goal_distance() > limit - c {
            DfsSearch { stack: rest, best: s.best }
        } else {
            DfsSearch { stack: rest + dfs_children(input, v, c, v.legal_actions(input)), best: s.best }
        }
    }
}

/// The depth-first search from `root` after `k` steps.
pub open spec fn dfs_after(input: &Input, root: TileStateView, limit: i32, k: nat) -> DfsSearch
    decreases k,
{
    if k == 0 {
        DfsSearch { stack: seq![(root, 0i32)], best: root }
    } else {
        dfs_step(input, dfs_after(input, root, limit, (k - 1) as nat), limit)
    }
}

/// Depth-first search from `state` for a walk of at most `move_limit` more
/// moves that reaches the goal; keeps in `state` the best such walk found
/// (by game score, strictly better than `state`'s own score) before the
/// time is up. States that cannot reach the goal within the limit are not
/// expanded; moves are tried from the highest to the lowest.
pub fn dfs(input: &Input, state: &mut TileState, move_limit: i32, timekeeper: &TimeKeeper)
    requires
        old(state)@.wf(input),
        move_limit >= 0 || old(state)@.goal_distance() > move_limit,
    ensures
        exists|k: nat| final(state)@ == (#[trigger] dfs_after(input, old(state)@, move_limit, k)).best,
        dfs_result(input, old(state)@, final(state)@, move_limit as int),
        final(state)@.wf(input),
{
    let ghost root = state@;
    let ghost limit = move_limit;
    let ghost mut steps_done: nat = 0;
    let mut stack: Vec<(TileState, i32)> = Vec::new();
    stack.push((state.clone(), 0));
    proof {
        assert(stack_views(stack@)[0] == (root, 0i32));
        assert(stack_views(stack@) =~= seq![(root, 0i32)]);
    }
    let mut stop = false;
    while !stop && stack.len() > 0
        invariant
            root.wf(input),
            limit == move_limit,
            move_limit >= 0 || root.goal_distance() > move_limit,
            forall|x: int| 0 <= x < stack_views(stack@).len() ==> dfs_entry_ok(input, root, #[trigger] stack_views(stack@)[x], limit),
            dfs_result(input, root, state@, move_limit as int),
            state@.evaluated_score >= root.evaluated_score,
            state@.goal == root.goal,
            state@.wf(input),
            !stop ==> dfs_after(input, root, limit, steps_done) == (DfsSearch { stack: stack_views(stack@), best: state@ }),
            dfs_after(input, root, limit, steps_done).best == state@,
        decreases stack_weight(stack_views(stack@), limit),
    {
        let ghost before = stack_views(stack@);
        let (now_state, move_cnt) = stack.pop().unwrap();
        proof {
            assert(stack_views(stack@) =~= before.drop_last());
            assert(before.last() == (now_state@, move_cnt));
            assert(dfs_entry_ok(input, root, before[before.len() - 1], limit));
            lemma_pow5_positive(depth_left(move_cnt, limit));
            assert(stack_weight(before, limit) == stack_weight(stack_views(stack@), limit) + pow5(depth_left(move_cnt, limit)));
        }
        let ghost prev_best = state@;
        proof {
            assert(dfs_after(input, root, limit, steps_done + 1) == dfs_step(input, DfsSearch { stack: before, best: prev_best }, limit));
        }
        if timekeeper.isTimeOver() {
            stop = true;
        } else if now_state.pos == state.goal {
            if state.evaluated_score < now_state.evaluated_score {
                *state = now_state;
            }
            proof {
                steps_done = steps_done + 1;
                assert(dfs_after(input, root, limit, steps_done) =~= (DfsSearch { stack: stack_views(stack@), best: state@ }));
            }
        } else {
            proof {
                assert(on_grid(now_state@.pos));
            }
            if move_cnt == move_limit || now_state.goalDistance() > move_limit - move_cnt {
                proof {
                    steps_done = steps_done + 1;
                    assert(dfs_after(input, root, limit, steps_done) =~= (DfsSearch { stack: stack_views(stack@), best: state@ }));
                }
            } else {
                let acts = now_state.legalActions(input);
                proof {
                    lemma_legal_upto(now_state@, input, 4);
                    assert forall|k: int| 0 <= k < acts@.len() implies now_state@.is_legal(input, #[trigger] acts@[k]) by {
                        assert(acts@.contains(acts@[k]));
                    }
                }
                push_dfs_children(input, &now_state, move_cnt, &acts, &mut stack, Ghost(root), Ghost(limit));
                proof {
                    steps_done = steps_done + 1;
                    assert(dfs_after(input, root, limit, steps_done) =~= (DfsSearch { stack: stack_views(stack@), best: state@ }));
                }
            }
        }
    }
    proof {
        assert(dfs_after(input, root, limit, steps_done).best == state@);
    }
}

/// What the randomized depth-first rebuilder may leave in a state that was
/// `from`: `from` itself, or a state that continues the walk of `from` by at
/// most `limit` legal moves, ends on `from`'s goal, keeps that goal and is
/// ranked by its game score.
pub open spec fn dfs4sa_result(input: &Input, from: TileStateView, to: TileStateView, limit: int) -> bool {
    ||| to == from
    ||| {
        &&& to.pos == from.goal
        &&& to.goal == from.goal
        &&& from.extends_to(input, to, limit)
        &&& to.evaluated_score == to.game_score
        &&& to.wf(input)
    }
}

/// One step of the randomized depth-first search: the top entry is taken;
/// if it stands on the goal it becomes the kept state and the search ends
/// (the stack is emptied); otherwise, unless it is `limit` moves deep or the
/// goal is farther than the moves it has left, its children are pushed in
/// the order `order`. An `order` that is not an arrangement of the taken
/// state's legal moves stands for those moves in increasing order.
pub open spec fn dfs4sa_step(input: &Input, s: DfsSearch, limit: i32, order: Seq<usize>) -> DfsSearch {
    if s.stack.len() == 0 {
        s
    } else {
        let (v, c) = s.stack.last();
        let rest = s.stack.drop_last();
        if v.pos == s.best.goal {
            DfsSearch { stack: seq![], best: v }
        } else if c == limit || v.goal_distance() > limit - c {
            DfsSearch { stack: rest, best: s.best }
        } else {
            let acts = if order.to_multiset() == v.legal_actions(input).to_multiset() {
                order
            } else {
                v.legal_actions(input)
            };
            DfsSearch { stack: rest + dfs_children(input, v, c, acts), best: s.best }
        }
    }
}

/// The randomized depth-first search from `root` after one step per entry
/// of `orders`, the `k`-th step trying moves in the order `orders[k]`.
pub open spec fn dfs4sa_after(input: &Input, root: TileStateView, limit: i32, orders: Seq<Seq<usize>>) -> DfsSearch
    decreases orders.len(),
{
    if orders.len() == 0 {
        DfsSearch { stack: seq![(root, 0i32)], best: root }
    } else {
        dfs4sa_step(input, dfs4sa_after(input, root, limit, orders.drop_last()), limit, orders.last())
    }
}

/// Depth-first search from `state` for a walk of at most `move_limit` more
/// moves that reaches the goal, trying the moves of each state in a random
/// order; keeps in `state` the first such walk found before the time is up,
/// whatever its score. Whatever the clock and the shuffles give, the result
/// is the kept state of the search after some number of steps, for some
/// orders of the moves.
pub fn dfs4sa(input: &Input, state: &mut TileState, move_limit: i32, timekeeper: &TimeKeeper)
    requires
        old(state)@.wf(input),
        move_limit >= 0 || old(state)@.goal_distance() > move_limit,
    ensures
        exists|orders: Seq<Seq<usize>>| final(state)@ == (#[trigger] dfs4sa_after(input, old(state)@, move_limit, orders)).best,
        dfs4sa_result(input, old(state)@, final(state)@, move_limit as int),
        final(state)@.wf(input),
{
    let ghost root = state@;
    let ghost limit = move_limit;
    let ghost mut orders: Seq<Seq<usize>> = Seq::empty();
    let mut stack: Vec<(TileState, i32)> = Vec::new();
    stack.push((state.clone(), 0));
    proof {
        assert(stack_views(stack@)[0] == (root, 0i32));
        assert(stack_views(stack@) =~= seq![(root, 0i32)]);
    }
    let mut stop = false;
    while !stop && stack.len() > 0
        invariant
            root.wf(input),
            limit == move_limit,
            move_limit >= 0 || root.goal_distance() > move_limit,
            forall|x: int| 0 <= x < stack_views(stack@).len() ==> dfs_entry_ok(input, root, #[trigger] stack_views(stack@)[x], limit),
            state@ == root || dfs4sa_result(input, root, state@, move_limit as int),
            !stop ==> state@ == root,
            !stop ==> dfs4sa_after(input, root, limit, orders) == (DfsSearch { stack: stack_views(stack@), best: state@ }),
            dfs4sa_after(input, root, limit, orders).best == state@,
        decreases stack_weight(stack_views(stack@), limit),
    {
        let ghost before = stack_views(stack@);
        let (now_state, move_cnt) = stack.pop().unwrap();
        proof {
            assert(stack_views(stack@) =~= before.drop_last());
            assert(before.last() == (now_state@, move_cnt));
            assert(dfs_entry_ok(input, root, before[before.len() - 1], limit));
            lemma_pow5_positive(depth_left(move_cnt, limit));
            assert(stack_weight(before, limit) == stack_weight(stack_views(stack@), limit) + pow5(depth_left(move_cnt, limit)));
        }
        if timekeeper.isTimeOver() {
            stop = true;
        } else if now_state.pos == state.goal {
            proof {
                let prev = orders;
                orders = orders.push(Seq::empty());
                assert(orders.drop_last() =~= prev);
                assert(dfs4sa_after(input, root, limit, prev) == (DfsSearch { stack: before, best: root }));
            }
            *state = now_state;
            stop = true;
        } else {
            proof {
                assert(on_grid(now_state@.pos));
            }
            if move_cnt == move_limit || now_state.goalDistance() > move_limit - move_cnt {
                proof {
                    let prev = orders;
                    orders = orders.push(Seq::empty());
                    assert(orders.drop_last() =~= prev);
                    assert(dfs4sa_after(input, root, limit, prev) == (DfsSearch { stack: before, best: root }));
                    assert(dfs4sa_after(input, root, limit, orders) =~= (DfsSearch { stack: stack_views(stack@), best: state@ }));
                }
            } else {
                let mut rng = random::thread_rng();
                let mut acts = now_state.legalActions(input);
                let ghost legal = acts@;
                random::shuffle_actions(&mut acts, &mut rng);
                proof {
                    lemma_legal_upto(now_state@, input, 4);
                    legal.to_multiset_ensures();
                    acts@.to_multiset_ensures();
                    assert forall|k: int| 0 <= k < acts@.len() implies now_state@.is_legal(input, #[trigger] acts@[k]) by {
                        assert(acts@.contains(acts@[k]));
                        assert(legal.to_multiset().count(acts@[k]) > 0);
                        assert(legal.contains(acts@[k]));
                    }
                }
                push_dfs_children(input, &now_state, move_cnt, &acts, &mut stack, Ghost(root), Ghost(limit));
                proof {
                    let prev = orders;
                    orders = orders.push(acts@);
                    assert(orders.drop_last() =~= prev);
                    assert(dfs4sa_after(input, root, limit, prev) == (DfsSearch { stack: before, best: root }));
                    assert(acts@.to_multiset() == now_state@.legal_actions(input).to_multiset());
                    assert(dfs4sa_after(input, root, limit, orders) =~= (DfsSearch { stack: stack_views(stack@), best: state@ }));
                }
            }
        }
    }
}

/// The number of tiles not yet seen.
pub open spec fn count_unseen(s: Seq<bool>) -> nat
    decreases s.len(),
{
    if s.len() == 0 {
        0
    } else {
        count_unseen(s.drop_last()) + if s.last() {
            0nat
        } else {
            1nat
        }
    }
}

/// Seeing a tile not seen before leaves one unseen tile fewer.
pub proof fn lemma_count_unseen_update(s: Seq<bool>, i: int)
    requires
        0 <= i < s.len(),
        !s[i],
    ensures
        count_unseen(s.update(i, true)) + 1 == count_unseen(s),
    decreases s.len(),
{
    let u = s.update(i, true);
    if i < s.len() - 1 {
        assert(u.drop_last() =~= s.drop_last().update(i, true));
        lemma_count_unseen_update(s.drop_last(), i);
    } else {
        assert(u.drop_last() =~= s.drop_last());
    }
}

/// An upper bound on the work left in a best-first search heap.
pub open spec fn heap_weight(h: Seq<TileStateView>) -> nat
    decreases h.len(),
{
    if h.len() == 0 {
        0
    } else {
        heap_weight(h.drop_last()) + pow5(count_unseen(h.last().seen))
    }
}

pub proof fn lemma_heap_weight_remove(h: Seq<TileStateView>, i: int)
    requires
        0 <= i < h.len(),
    ensures
        heap_weight(h) == heap_weight(h.remove(i)) + pow5(count_unseen(h[i].seen)),
    decreases h.len(),
{
    if i < h.len() - 1 {
        assert(h.remove(i).drop_last() =~= h.drop_last().remove(i));
        assert(h.remove(i).last() == h.last());
        lemma_heap_weight_remove(h.drop_last(), i);
    } else {
        assert(h.remove(i) =~= h.drop_last());
    }
}

/// The index of the first state with the lowest search score: the state
/// that best-first search takes next.
pub open spec fn min_index(layer: Seq<TileStateView>) -> int
    decreases layer.len(),
{
    if layer.len() <= 1 {
        0
    } else {
        let b = min_index(layer.drop_last());
        if layer.last().evaluated_score < layer[b].evaluated_score {
            layer.len() - 1
        } else {
            b
        }
    }
}

/// `min_index` picks a state of the lowest score, and the first of them.
pub proof fn lemma_min_index(layer: Seq<TileStateView>)
    requires
        layer.len() > 0,
    ensures
        0 <= min_index(layer) < layer.len(),
        forall|k: int| 0 <= k < layer.len() ==> (#[trigger] layer[k]).evaluated_score >= layer[min_index(layer)].evaluated_score,
        forall|k: int| 0 <= k < min_index(layer) ==> (#[trigger] layer[k]).evaluated_score > layer[min_index(layer)].evaluated_score,
    decreases layer.len(),
{
    if layer.len() > 1 {
        let p = layer.drop_last();
        lemma_min_index(p);
        assert forall|k: int| 0 <= k < layer.len() - 1 implies #[trigger] layer[k] == p[k] by {}
    }
}

/// The values of a sequence of states.
pub open spec fn views(s: Seq<TileState>) -> Seq<TileStateView> {
    s.map_values(|x: TileState| x@)
}

/// Takes the first state with the lowest search score out of `heap`.
fn pop_min(heap: &mut Vec<TileState>) -> (r: TileState)
    requires
        old(heap)@.len() > 0,
    ensures
        r@ == views(old(heap)@)[min_index(views(old(heap)@))],
        views(final(heap)@) == views(old(heap)@).remove(min_index(views(old(heap)@))),
{
    let mut best: usize = 0;
    let mut k: usize = 1;
    proof {
        assert(views(heap@).take(1).len() == 1);
    }
    while k < heap.len()
        invariant
            1 <= k <= heap@.len(),
            best == min_index(views(heap@).take(k as int)),
            best < k,
        decreases heap@.len() - k,
    {
        let ghost p = views(heap@).take(k as int);
        let ghost q = views(heap@).take(k + 1);
        proof {
            assert(q.drop_last() =~= p);
            lemma_min_index(p);
        }
        if heap[k].evaluated_score < heap[best].evaluated_score {
            best = k;
        }
        k = k + 1;
    }
    proof {
        assert(views(heap@).take(k as int) =~= views(heap@));
    }
    let r = heap.remove(best);
    proof {
        assert(views(heap@) =~= views(old(heap)@).remove(best as int));
    }
    r
}

/// What each entry of a best-first search heap from `root` holds: a
/// well-formed state with `root`'s goal whose walk continues `root`'s by
/// legal moves; `root` itself or a state ranked by its distance to the goal.
pub open spec fn bfs_entry_ok(input: &Input, root: TileStateView, v: TileStateView) -> bool {
    &&& v.wf(input)
    &&& v.goal == root.goal
    &&& root.extends(input, v)
    &&& (v == root || v.evaluated_score == v.goal_distance())
}

/// What best-first search may leave in a state that was `from`: `from`
/// itself, or a state whose walk continues `from`'s by legal moves, with
/// `from`'s goal, ranked by its distance to the goal, whose rank is above
/// `from`'s or at most 2.
pub open spec fn bfs_result(input: &Input, from: TileStateView, to: TileStateView) -> bool {
    ||| to == from
    ||| {
        &&& to.wf(input)
        &&& to.goal == from.goal
        &&& from.extends(input, to)
        &&& to.evaluated_score == to.goal_distance()
        &&& (to.evaluated_score > from.evaluated_score || to.evaluated_score <= 2)
    }
}

/// Pushes the children of `now_state`, one per legal move, each ranked by
/// its distance to the goal.
/// The children of `v` for its legal moves, in order, ranked by their
/// distances to the goal.
pub open spec fn bfs_children(input: &Input, v: TileStateView) -> Seq<TileStateView> {
    v.legal_actions(input).map_values(|a: usize| v.advanced(input, a).evaluated(USE_TARGET_DISTANCE))
}

#[verifier::spinoff_prover]
#[verifier::rlimit(40)]
fn push_bfs_children(input: &Input, now_state: &TileState, heap: &mut Vec<TileState>, Ghost(root): Ghost<TileStateView>)
    requires
        bfs_entry_ok(input, root, now_state@),
        forall|k: int| 0 <= k < views(old(heap)@).len() ==> bfs_entry_ok(input, root, #[trigger] views(old(heap)@)[k]),
    ensures
        forall|k: int| 0 <= k < views(final(heap)@).len() ==> bfs_entry_ok(input, root, #[trigger] views(final(heap)@)[k]),
        heap_weight(views(final(heap)@)) < heap_weight(views(old(heap)@)) + pow5(count_unseen(now_state@.seen)),
        views(final(heap)@) == views(old(heap)@) + bfs_children(input, now_state@),
{
    let acts = now_state.legalActions(input);
    proof {
        lemma_legal_upto(now_state@, input, 4);
    }
    let ghost u = count_unseen(now_state@.seen);
    let ghost p = if u > 0 { pow5((u - 1) as nat) } else { 0 };
    let n = acts.len();
    proof {
        assert(heap@ == old(heap)@);
        assert(0 * p == 0);
        if n > 0 {
            let v = now_state@;
            let a = acts@[0];
            assert(acts@.contains(a));
            let t = input.tile(v.next_pos(a).0 as int, v.next_pos(a).1 as int) as int;
            lemma_count_unseen_update(v.seen, t);
        }
    }
    for k in 0..n
        invariant
            bfs_entry_ok(input, root, now_state@),
            n == acts@.len(),
            n <= 4,
            acts@ == now_state@.legal_actions(input),
            forall|a: usize| #[trigger] acts@.contains(a) ==> (a < 4 && now_state@.is_legal(input, a)),
            u == count_unseen(now_state@.seen),
            p == if u > 0 { pow5((u - 1) as nat) } else { 0 },
            n > 0 ==> u > 0,
            forall|x: int| 0 <= x < views(heap@).len() ==> bfs_entry_ok(input, root, #[trigger] views(heap@)[x]),
            heap_weight(views(heap@)) == heap_weight(views(old(heap)@)) + k * p,
            views(heap@) == views(old(heap)@) + bfs_children(input, now_state@).take(k as int),
    {
        let action = acts[k];
        assert(acts@.contains(action));
        let mut next_state = now_state.clone();
        next_state.advance(input, action);
        proof {
            assert(on_grid(next_state@.pos));
        }
        next_state.evaluateScore(USE_TARGET_DISTANCE);
        let ghost nv = next_state@;
        proof {
            let v = now_state@;
            let a0 = choose|a0: Seq<usize>| #[trigger] root.legal_run(input, a0) && root.run(input, a0).same_walk(v);
            lemma_same_walk_advanced(root.run(input, a0), v, input, action);
            lemma_run_push(root, input, a0, action);
            assert(root.run(input, a0.push(action)).same_walk(nv));
            assert(root.extends(input, nv));
            let t = input.tile(v.next_pos(action).0 as int, v.next_pos(action).1 as int) as int;
            lemma_count_unseen_update(v.seen, t);
            assert(nv.seen == v.seen.update(t, true));
        }
        let ghost prev = heap@;
        heap.push(next_state);
        proof {
            assert(views(heap@) =~= views(prev).push(nv));
            assert(views(heap@).drop_last() =~= views(prev));
            assert((k + 1) * p == k * p + p) by (nonlinear_arith);
            let ch = bfs_children(input, now_state@);
            assert(ch[k as int] == nv);
            assert(ch.take(k + 1) =~= ch.take(k as int).push(ch[k as int]));
            assert(views(heap@) =~= views(old(heap)@) + ch.take(k + 1));
        }
    }
    proof {
        assert(n * p <= 4 * p) by (nonlinear_arith)
            requires
                n <= 4,
        ;
        lemma_pow5_positive(u);
        if u > 0 {
            lemma_pow5_positive((u - 1) as nat);
            assert(pow5(u) == 5 * p);
        } else {
            assert(p == 0);
        }
        let ch = bfs_children(input, now_state@);
        assert(ch.take(n as int) =~= ch);
    }
}

/// The best-first search's heap, the state it keeps, and whether it has
/// ended.
#[verifier::ext_equal]
pub struct BfsSearch {
    pub heap: Seq<TileStateView>,
    pub best: TileStateView,
    pub stopped: bool,
}

/// One step of the best-first search: the first entry of the lowest rank is
/// taken; it replaces the kept state when it ranks above it; at rank 2 or
/// less it replaces the kept state and ends the search; otherwise its
/// children (moves in increasing order) are added.
pub open spec fn bfs_step(input: &Input, s: BfsSearch) -> BfsSearch {
    if s.stopped || s.heap.len() == 0 {
        s
    } else {
        let i = min_index(s.heap);
        let v = s.heap[i];
        let rest = s.heap.remove(i);
        if v.evaluated_score <= 2 {
            BfsSearch { heap: rest, best: v, stopped: true }
        } else {
            BfsSearch {
                heap: rest + bfs_children(input, v),
                best: if v.evaluated_score > s.best.evaluated_score {
                    v
                } else {
                    s.best
                },
                stopped: false,
            }
        }
    }
}

/// The best-first search from `root` after `k` steps.
pub open spec fn bfs_after(input: &Input, root: TileStateView, k: nat) -> BfsSearch
    decreases k,
{
    if k == 0 {
        BfsSearch { heap: seq![root], best: root, stopped: false }
    } else {
        bfs_step(input, bfs_after(input, root, (k - 1) as nat))
    }
}

/// Best-first search from `state` by distance to the goal (closest first),
/// while at most 50 milliseconds have passed since `timekeeper` was made:
/// a taken state ranked above the kept one replaces it, and a taken state
/// at most 2 cells from the goal replaces it and ends the search.
pub fn bfs(input: &Input, state: &mut TileState, timekeeper: &TimeKeeper)
    requires
        old(state)@.wf(input),
    ensures
        exists|k: nat| final(state)@ == (#[trigger] bfs_after(input, old(state)@, k)).best,
        bfs_result(input, old(state)@, final(state)@),
        final(state)@.wf(input),
{
    let ghost root = state@;
    let ghost mut steps_done: nat = 0;
    let mut heap: Vec<TileState> = Vec::new();
    heap.push(state.clone());
    proof {
        assert(views(heap@)[0] == root);
        assert(root.legal_run(input, Seq::<usize>::empty()));
        assert(root.run(input, Seq::<usize>::empty()).same_walk(root));
        assert(root.extends(input, root));
        assert(views(heap@) =~= seq![root]);
    }
    let mut stop = false;
    while !stop && heap.len() > 0
        invariant
            root.wf(input),
            forall|x: int| 0 <= x < views(heap@).len() ==> bfs_entry_ok(input, root, #[trigger] views(heap@)[x]),
            bfs_result(input, root, state@),
            state@.wf(input),
            !stop ==> state@.evaluated_score >= root.evaluated_score,
            !stop ==> bfs_after(input, root, steps_done) == (BfsSearch { heap: views(heap@), best: state@, stopped: false }),
            bfs_after(input, root, steps_done).best == state@,
        decreases heap_weight(views(heap@)),
    {
        let ghost before = views(heap@);
        proof {
            lemma_min_index(before);
            lemma_heap_weight_remove(before, min_index(before));
            lemma_pow5_positive(count_unseen(before[min_index(before)].seen));
        }
        let now_state = pop_min(&mut heap);
        proof {
            assert(bfs_entry_ok(input, root, before[min_index(before)]));
            let rest = views(heap@);
            assert forall|x: int| 0 <= x < rest.len() implies bfs_entry_ok(input, root, #[trigger] rest[x]) by {
                if x < min_index(before) {
                    assert(rest[x] == before[x]);
                } else {
                    assert(rest[x] == before[x + 1]);
                }
            }
        }
        let ghost prev_best = state@;
        proof {
            assert(bfs_after(input, root, steps_done + 1) == bfs_step(
                input,
                BfsSearch { heap: before, best: prev_best, stopped: false },
            ));
        }
        if timekeeper.time() > 50 {
            stop = true;
        } else {
            if now_state.evaluated_score > state.evaluated_score {
                *state = now_state.clone();
            }
            if now_state.evaluated_score <= 2 {
                *state = now_state.clone();
                stop = true;
                proof {
                    steps_done = steps_done + 1;
                }
            } else {
                push_bfs_children(input, &now_state, &mut heap, Ghost(root));
                proof {
                    steps_done = steps_done + 1;
                    assert(bfs_after(input, root, steps_done) =~= (BfsSearch { heap: views(heap@), best: state@, stopped: false }));
                }
            }
        }
    }
}

/// Running `a1` and then `a2` is running `a1 + a2`; the combined run is
/// legal exactly when both parts are.
pub proof fn lemma_run_concat(v: TileStateView, input: &Input, a1: Seq<usize>, a2: Seq<usize>)
    ensures
        v.run(input, a1 + a2) == v.run(input, a1).run(input, a2),
        v.legal_run(input, a1 + a2) == (v.legal_run(input, a1) && v.run(input, a1).legal_run(input, a2)),
    decreases a2.len(),
{
    if a2.len() == 0 {
        assert(a1 + a2 =~= a1);
    } else {
        assert((a1 + a2).drop_last() =~= a1 + a2.drop_last());
        assert((a1 + a2).last() == a2.last());
        lemma_run_concat(v, input, a1, a2.drop_last());
    }
}

/// Runs of the same moves on the same walk give the same walk, and are
/// legal alike.
pub proof fn lemma_same_walk_run(x: TileStateView, y: TileStateView, input: &Input, acts: Seq<usize>)
    requires
        x.same_walk(y),
    ensures
        x.run(input, acts).same_walk(y.run(input, acts)),
        x.legal_run(input, acts) == y.legal_run(input, acts),
    decreases acts.len(),
{
    if acts.len() > 0 {
        lemma_same_walk_run(x, y, input, acts.drop_last());
        lemma_same_walk_advanced(x.run(input, acts.drop_last()), y.run(input, acts.drop_last()), input, acts.last());
    }
}

/// Continuing a walk is transitive.
pub proof fn lemma_extends_trans(a: TileStateView, b: TileStateView, c: TileStateView, input: &Input)
    requires
        a.extends(input, b),
        b.extends(input, c),
    ensures
        a.extends(input, c),
{
    let a1 = choose|a1: Seq<usize>| #[trigger] a.legal_run(input, a1) && a.run(input, a1).same_walk(b);
    let a2 = choose|a2: Seq<usize>| #[trigger] b.legal_run(input, a2) && b.run(input, a2).same_walk(c);
    lemma_same_walk_run(a.run(input, a1), b, input, a2);
    lemma_run_concat(a, input, a1, a2);
    assert(a.legal_run(input, a1 + a2));
}

/// A walk continues itself, and the goal and the search score are not part
/// of the walk.
pub proof fn lemma_extends_refl(a: TileStateView, b: TileStateView, input: &Input)
    requires
        a.same_walk(b),
    ensures
        a.extends(input, b),
{
    let e = Seq::<usize>::empty();
    assert(a.legal_run(input, e));
    assert(a.run(input, e) == a);
}

/// Continuing by at most `limit` moves is continuing.
pub proof fn lemma_extends_to_extends(a: TileStateView, b: TileStateView, input: &Input, limit: int)
    requires
        a.extends_to(input, b, limit),
    ensures
        a.extends(input, b),
{
    let acts = choose|acts: Seq<usize>| #[trigger] a.legal_run(input, acts) && acts.len() <= limit && a.run(input, acts).same_walk(b);
    assert(a.legal_run(input, acts));
}

/// Every block centre lies on the grid.
pub proof fn lemma_center_on_grid(k: usize)
    requires
        k < 16,
    ensures
        on_grid(spec_center(k)),
{
}

/// One round of the tour: best-first search for `k` steps, then the goal
/// moves on to the centre of the block that the tour visits after the
/// walker's block, and the state is ranked by its distance to it.
#[verifier::opaque]
pub open spec fn tour_round(input: &Input, v: TileStateView, k: nat) -> TileStateView {
    let b = bfs_after(input, v, k).best;
    TileStateView { goal: spec_center(spec_next_block(block_of(b.pos) as usize)), ..b }.evaluated(USE_TARGET_DISTANCE)
}

proof fn lemma_tour_round(input: &Input, before: TileStateView, kb: nat, after: TileStateView)
    requires
        ({
            let b = bfs_after(input, before, kb).best;
            after == TileStateView { goal: spec_center(spec_next_block(block_of(b.pos) as usize)), ..b }.evaluated(
                USE_TARGET_DISTANCE,
            )
        }),
    ensures
        after == tour_round(input, before, kb),
{
    reveal(tour_round);
}

/// Rounds of the tour, one per entry of `ks` (the best-first search's
/// steps in that round).
pub open spec fn tour_rounds(input: &Input, v: TileStateView, ks: Seq<nat>) -> TileStateView
    decreases ks.len(),
{
    if ks.len() == 0 {
        v
    } else {
        tour_round(input, tour_rounds(input, v, ks.drop_last()), ks.last())
    }
}

/// Step 1: the tour. Sixteen times, unless the time is up, best-first
/// search heads for the goal and the goal moves on to the centre of the
/// block that the tour visits after the walker's block.
pub fn step1(input: &Input, state: &mut TileState, timekeeper: &TimeKeeper)
    requires
        old(state)@.wf(input),
    ensures
        final(state)@.wf(input),
        old(state)@.extends(input, final(state)@),
        final(state)@.goal == old(state)@.goal || final(state)@.goal == spec_center(spec_next_block(block_of(final(state)@.pos) as usize)),
        final(state)@.evaluated_score == final(state)@.goal_distance(),
        exists|ks: Seq<nat>|
            ks.len() <= 16 && final(state)@ == #[trigger] tour_rounds(input, old(state)@.evaluated(USE_TARGET_DISTANCE), ks),
{
    tour_blocks_until_time(input, state, timekeeper);
}

/// The rounds of step 1, saying whether the clock cut the tour short: when
/// it did not, exactly 16 rounds of best-first search were made, so the
/// walk headed in turn for all 16 block centres.
#[verifier::spinoff_prover]
#[verifier::rlimit(40)]
pub fn tour_blocks_until_time(input: &Input, state: &mut TileState, timekeeper: &TimeKeeper) -> (timed_out: bool)
    requires
        old(state)@.wf(input),
    ensures
        final(state)@.wf(input),
        old(state)@.extends(input, final(state)@),
        final(state)@.goal == old(state)@.goal || final(state)@.goal == spec_center(spec_next_block(block_of(final(state)@.pos) as usize)),
        final(state)@.evaluated_score == final(state)@.goal_distance(),
        exists|ks: Seq<nat>| {
            &&& ks.len() <= 16
            &&& final(state)@ == #[trigger] tour_rounds(input, old(state)@.evaluated(USE_TARGET_DISTANCE), ks)
            &&& !timed_out ==> ks.len() == 16
        },
{
    let ghost root = state@;
    let ghost mut ks: Seq<nat> = Seq::empty();
    state.evaluateScore(USE_TARGET_DISTANCE);
    let ghost start = state@;
    proof {
        lemma_extends_refl(root, state@, input);
    }
    let mut k: usize = 0;
    let mut stop = false;
    while k < 16 && !stop
        invariant
            state@.wf(input),
            root.extends(input, state@),
            state@.goal == root.goal || state@.goal == spec_center(spec_next_block(block_of(state@.pos) as usize)),
            state@.evaluated_score == state@.goal_distance(),
            ks.len() == k,
            k <= 16,
            start == root.evaluated(USE_TARGET_DISTANCE),
            state@ == tour_rounds(input, start, ks),
        decreases 16 - k, !stop as int,
    {
        if timekeeper.isTimeOver() {
            stop = true;
        } else {
            let ghost before = state@;
            bfs(input, state, timekeeper);
            let ghost kb = choose|kb: nat| state@ == (#[trigger] bfs_after(input, before, kb)).best;
            proof {
                if state@ != before {
                    lemma_extends_trans(root, before, state@, input);
                }
                assert(on_grid(state@.pos));
            }
            let next_goal = target_ij((state.pos.i, state.pos.j));
            proof {
                lemma_center_on_grid(spec_next_block(block_of(state@.pos) as usize));
                lemma_extends_refl(state@, TileStateView { goal: next_goal, ..state@ }, input);
                lemma_extends_trans(root, state@, TileStateView { goal: next_goal, ..state@ }, input);
            }
            state.goal.i = next_goal.0;
            state.goal.j = next_goal.1;
            let ghost mid = state@;
            state.evaluateScore(USE_TARGET_DISTANCE);
            proof {
                lemma_extends_refl(mid, state@, input);
                lemma_extends_trans(root, mid, state@, input);
                let ks2 = ks.push(kb);
                assert(ks2.drop_last() =~= ks);
                lemma_tour_round(input, before, kb, state@);
                ks = ks2;
            }
            k = k + 1;
        }
    }
    stop
}

/// `seen` after the tiles of `cells` are marked unseen, in order.
pub open spec fn unsee(input: &Input, seen: Seq<bool>, cells: Seq<(usize, usize)>) -> Seq<bool>
    decreases cells.len(),
{
    if cells.len() == 0 {
        seen
    } else {
        unsee(input, seen, cells.drop_last()).update(
            input.tile(cells.last().0 as int, cells.last().1 as int) as int,
            false,
        )
    }
}

/// `score` after the points of `cells` are taken off, in order, with
/// wrap-around.
pub open spec fn unscore(input: &Input, score: i32, cells: Seq<(usize, usize)>) -> i32
    decreases cells.len(),
{
    if cells.len() == 0 {
        score
    } else {
        unscore(input, score, cells.drop_last()).wrapping_sub(input.point(cells.last().0 as int, cells.last().1 as int))
    }
}

/// The walk `v` with the stretch of cells `[start, end)` destroyed: the
/// walker back on cell `start - 1`, heading for cell `end - 1`, the
/// destroyed cells' tiles unseen and their points taken off, the walk cut
/// after `start` cells, ranked by its game score.
pub open spec fn destroyed(input: &Input, v: TileStateView, start: int, end: int) -> TileStateView {
    let cut = v.steps.subrange(start, end);
    let score = unscore(input, v.game_score, cut);
    TileStateView {
        pos: v.steps[start - 1],
        goal: v.steps[end - 1],
        seen: unsee(input, v.seen, cut),
        game_score: score,
        evaluated_score: score,
        output: v.output.take(start - 1),
        steps: v.steps.take(start),
        ..v
    }
}

/// The rebuilt walk `c` followed by the cells of `v` from `end` on, ranked
/// by its game score.
pub open spec fn reattached(c: TileStateView, v: TileStateView, end: int) -> TileStateView {
    TileStateView {
        output: c.output + v.output.skip(end - 1),
        steps: c.steps + v.steps.skip(end),
        evaluated_score: c.game_score,
        ..c
    }
}

/// Destroys the stretch of cells `[start, end)` of the walk of `state`.
fn destroy(input: &Input, state: &TileState, start: usize, end: usize) -> (c: TileState)
    requires
        state@.wf_path(input),
        1 <= start <= end <= state@.steps.len(),
    ensures
        c@ == destroyed(input, state@, start as int, end as int),
        c@.wf(input),
{
    let ghost v = state@;
    let (si, sj) = state.steps[start - 1];
    let (ei, ej) = state.steps[end - 1];
    let mut change_state = state.clone();
    change_state.pos = Position::new((si, sj));
    change_state.goal = Position::new((ei, ej));
    proof {
        assert(on_grid(v.steps[start - 1]));
        assert(on_grid(v.steps[end - 1]));
    }
    for i in start..end
        invariant
            state@ == v,
            v.wf_path(input),
            start <= end <= v.steps.len(),
            change_state@.seen == unsee(input, v.seen, v.steps.subrange(start as int, i as int)),
            change_state@.game_score == unscore(input, v.game_score, v.steps.subrange(start as int, i as int)),
            change_state@.seen.len() == v.seen.len(),
            change_state@ == (TileStateView {
                seen: change_state@.seen,
                game_score: change_state@.game_score,
                pos: v.steps[start - 1],
                goal: v.steps[end - 1],
                ..v
            }),
    {
        let (pi, pj) = state.steps[i];
        proof {
            assert(on_grid(v.steps[i as int]));
            assert(v.steps.subrange(start as int, i + 1).drop_last() =~= v.steps.subrange(start as int, i as int));
            assert(input.tile(pi as int, pj as int) < v.seen.len());
        }
        change_state.seen.set(input.tiles[pi][pj], false);
        change_state.game_score = change_state.game_score.wrapping_sub(input.points[pi][pj]);
    }
    let prefix = change_state.output.as_str().substring_char(0, start - 1);
    change_state.output = prefix.to_owned();
    let mut steps: Vec<(usize, usize)> = Vec::new();
    for k in 0..start
        invariant
            start <= state@.steps.len(),
            steps@ == state@.steps.take(k as int),
    {
        steps.push(state.steps[k]);
        assert(steps@ =~= state@.steps.take(k + 1));
    }
    change_state.steps = steps;
    change_state.evaluateScore(USE_GAME_SCORE);
    proof {
        let c = change_state@;
        assert(c.output =~= v.output.take(start - 1));
        assert(c.steps =~= v.steps.take(start as int));
        assert forall|k: int| 0 <= k < c.steps.len() implies on_grid(#[trigger] c.steps[k]) by {
            assert(c.steps[k] == v.steps[k]);
        }
        assert forall|k: int| 0 <= k < c.output.len() implies is_move_letter(#[trigger] c.output[k]) by {
            assert(c.output[k] == v.output[k]);
        }
    }
    change_state
}

/// Appends the cells of `state` from `end` on (and their letters) to the
/// rebuilt walk `change_state`, and ranks it by its game score.
fn reattach(change_state: &mut TileState, state: &TileState, end: usize, Ghost(input): Ghost<&Input>)
    requires
        old(change_state)@.wf(input),
        state@.wf_path(input),
        1 <= end <= state@.steps.len(),
    ensures
        final(change_state)@ == reattached(old(change_state)@, state@, end as int),
        final(change_state)@.wf_path(input),
{
    let n = state.output.as_str().unicode_len();
    let tail = state.output.as_str().substring_char(end - 1, n);
    assert(tail@ =~= state@.output.skip(end - 1));
    change_state.output.append(tail);
    let ghost before = change_state@.steps;
    let ghost mid = change_state@;
    let len = state.steps.len();
    for k in end..len
        invariant
            len == state@.steps.len(),
            end <= len,
            change_state@.steps == before + state@.steps.subrange(end as int, k as int),
            change_state@ == (TileStateView { steps: change_state@.steps, ..mid }),
    {
        change_state.steps.push(state.steps[k]);
        assert(change_state@.steps =~= before + state@.steps.subrange(end as int, k + 1));
    }
    change_state.evaluated_score = change_state.game_score;
    proof {
        let c = change_state@;
        let o = old(change_state)@;
        let v = state@;
        assert(c.steps =~= o.steps + v.steps.skip(end as int));
        assert(c.output =~= o.output + v.output.skip(end - 1));
        assert forall|k: int| 0 <= k < c.steps.len() implies on_grid(#[trigger] c.steps[k]) by {
            if k < o.steps.len() {
                assert(c.steps[k] == o.steps[k]);
            } else {
                assert(c.steps[k] == v.steps[k - o.steps.len() + end]);
            }
        }
        assert forall|k: int| 0 <= k < c.output.len() implies is_move_letter(#[trigger] c.output[k]) by {
            if k < o.output.len() {
                assert(c.output[k] == o.output[k]);
            } else {
                assert(c.output[k] == v.output[k - o.output.len() + end - 1]);
                assert(is_move_letter(v.output[k - o.output.len() + end - 1]));
            }
        }
    }
}

/// Keeps in `best` the walk with the higher game score: `state` replaces
/// `best` when it scores strictly more.
pub fn keep_best(best: &mut TileState, state: &TileState)
    ensures
        final(best)@ == if old(best)@.game_score < state@.game_score { state@ } else { old(best)@ },
{
    if best.game_score < state.game_score {
        *best = state.clone();
    }
}

/// One hill-climbing move: a random stretch of `reset_length` cells
/// `[start, start + reset_length)` with `1 <= start < len - reset_length - 1`
/// is destroyed and rebuilt by `dfs` (at most `2 * reset_length` moves);
/// the result replaces `state` when its game score is higher.
#[allow(unused_variables)]
pub fn climb(
    input: &Input,
    rng: &mut rand_chacha::ChaCha20Rng,
    state: &mut TileState,
    reset_length: usize,
    timekeeper: &TimeKeeper,
    cnt: usize,
)
    requires
        old(state)@.wf_path(input),
        old(state)@.steps.len() >= reset_length + 3,
        reset_length * 2 <= usize::MAX,
    ensures
        final(state)@.wf_path(input),
        old(state)@.game_score == path_score(input, old(state)@.steps) ==> final(state)@.game_score == path_score(
            input,
            final(state)@.steps,
        ),
        ({
            let v = old(state)@;
            let r = reset_length as int;
            exists|start: int, k: nat| {
                let d = #[trigger] dfs_after(input, destroyed(input, v, start, start + r), (reset_length * 2) as i32, k).best;
                let c = reattached(d, v, start + r);
                &&& 1 <= start < v.steps.len() - r - 1
                &&& dfs_result(input, destroyed(input, v, start, start + r), d, ((reset_length * 2) as i32) as int)
                &&& final(state)@ == if v.game_score < c.game_score { c } else { v }
            }
        }),
        crate::laws::valid_walk(input, old(state)@) && crate::laws::points_nonneg(input)
            && crate::laws::int_score(input, old(state)@.steps) <= i32::MAX ==> {
            &&& crate::laws::valid_walk(input, final(state)@)
            &&& final(state)@.steps[0] == old(state)@.steps[0]
            &&& final(state)@.steps.last() == old(state)@.steps.last()
        },
{
    let ghost v = state@;
    let start = random::gen_range_usize(rng, 1, state.steps.len() - reset_length - 1);
    let end = start + reset_length;
    let mut change_state = destroy(input, state, start, end);
    let ghost dv = change_state@;
    dfs(input, &mut change_state, (reset_length * 2) as i32, timekeeper);
    let ghost d = change_state@;
    reattach(&mut change_state, state, end, Ghost(input));
    proof {
        let k = choose|k: nat| d == (#[trigger] dfs_after(input, dv, (reset_length * 2) as i32, k)).best;
        assert(dfs_after(input, destroyed(input, v, start as int, start + reset_length), (reset_length * 2) as i32, k).best == d);
    }
    if state.game_score < change_state.game_score {
        proof {
            assert(dfs_result(input, destroyed(input, v, start as int, start + reset_length), d, ((reset_length * 2) as i32) as int));
            if v.game_score == path_score(input, v.steps) {
                if d != dv {
                    lemma_extends_to_extends(dv, d, input, ((reset_length * 2) as i32) as int);
                }
                crate::laws::law_splice_keeps_score(input, v, start as int, end as int, d);
            }
            if crate::laws::valid_walk(input, v) && crate::laws::points_nonneg(input) && crate::laws::int_score(input, v.steps) <= i32::MAX {
                if d == dv {
                    crate::laws::law_unrebuilt_splice_scores_no_more(input, v, start as int, end as int);
                }
                lemma_extends_to_extends(dv, d, input, ((reset_length * 2) as i32) as int);
                crate::laws::law_splice_is_valid_walk(input, v, start as int, end as int, d);
            }
        }
        *state = change_state;
    }
}

/// The candidate of one simulated-annealing move: a random stretch of
/// `reset_length` cells `[start, start + reset_length)` with
/// `1 <= start < len - reset_length - 1` is destroyed and rebuilt by
/// `dfs4sa` (at most `2 * reset_length` moves). Whether it replaces `state`
/// is decided with floating point by the caller. From a valid walk, the
/// candidate is a valid walk with the same ends whenever the rebuild found a
/// reconnection, and so whenever the clock did not stop it.
#[verifier::spinoff_prover]
pub fn anneal_candidate(
    input: &Input,
    rng: &mut rand_chacha::ChaCha20Rng,
    state: &TileState,
    reset_length: usize,
    timekeeper: &TimeKeeper,
) -> (c: TileState)
    requires
        state@.wf_path(input),
        state@.steps.len() >= reset_length + 3,
        reset_length * 2 <= usize::MAX,
    ensures
        c@.wf_path(input),
        state@.game_score == path_score(input, state@.steps) ==> c@.game_score == path_score(input, c@.steps),
        exists|start: int, orders: Seq<Seq<usize>>| {
            let d = (#[trigger] dfs4sa_after(input, destroyed(input, state@, start, start + reset_length), (reset_length * 2) as i32, orders)).best;
            let dv = destroyed(input, state@, start, start + reset_length);
            &&& 1 <= start < state@.steps.len() - reset_length - 1
            &&& c@.steps.take(start) == state@.steps.take(start)
            &&& c@.steps.skip(c@.steps.len() - (state@.steps.len() - (start + reset_length))) == state@.steps.skip(start + reset_length)
            &&& dfs4sa_result(input, dv, d, ((reset_length * 2) as i32) as int)
            &&& c@ == reattached(d, state@, start + reset_length)
            &&& crate::laws::valid_walk(input, state@) && d != dv ==> {
                &&& crate::laws::valid_walk(input, c@)
                &&& c@.steps[0] == state@.steps[0]
                &&& c@.steps.last() == state@.steps.last()
            }
            &&& crate::laws::valid_walk(input, state@) && reset_length * 2 <= i32::MAX
                && dfs4sa_after(input, dv, (reset_length * 2) as i32, orders).stack.len() == 0 ==> {
                &&& crate::laws::valid_walk(input, c@)
                &&& c@.steps[0] == state@.steps[0]
                &&& c@.steps.last() == state@.steps.last()
            }
        },
{
    let start = random::gen_range_usize(rng, 1, state.steps.len() - reset_length - 1);
    let c = anneal_candidate_at(input, state, start, reset_length, timekeeper);
    proof {
        let orders = choose|orders: Seq<Seq<usize>>| {
            let d = (#[trigger] dfs4sa_after(input, destroyed(input, state@, start as int, start + reset_length), (reset_length * 2) as i32, orders)).best;
            let dv = destroyed(input, state@, start as int, start + reset_length);
            &&& dfs4sa_result(input, dv, d, ((reset_length * 2) as i32) as int)
            &&& c@ == reattached(d, state@, start + reset_length)
            &&& crate::laws::valid_walk(input, state@) && d != dv ==> {
                &&& crate::laws::valid_walk(input, c@)
                &&& c@.steps[0] == state@.steps[0]
                &&& c@.steps.last() == state@.steps.last()
            }
            &&& crate::laws::valid_walk(input, state@) && reset_length * 2 <= i32::MAX
                && dfs4sa_after(input, dv, (reset_length * 2) as i32, orders).stack.len() == 0 ==> {
                &&& crate::laws::valid_walk(input, c@)
                &&& c@.steps[0] == state@.steps[0]
                &&& c@.steps.last() == state@.steps.last()
            }
        };
        assert(1 <= start < state@.steps.len() - reset_length - 1);
    }
    c
}

/// What the annealing candidate for the stretch `[start, start + r)` is,
/// given the state `d` that the randomized rebuild left.
proof fn lemma_anneal_candidate(input: &Input, v: TileStateView, start: int, r: usize, d: TileStateView, c: TileStateView)
    requires
        v.wf_path(input),
        1 <= start,
        start + r + 1 < v.steps.len(),
        r * 2 <= usize::MAX,
        dfs4sa_result(input, destroyed(input, v, start, start + r), d, ((r * 2) as i32) as int),
        exists|orders: Seq<Seq<usize>>| d == (#[trigger] dfs4sa_after(input, destroyed(input, v, start, start + r), (r * 2) as i32, orders)).best,
        c == reattached(d, v, start + r),
    ensures
        v.game_score == path_score(input, v.steps) ==> c.game_score == path_score(input, c.steps),
        c.steps.take(start) == v.steps.take(start),
        c.steps.skip(c.steps.len() - (v.steps.len() - (start + r))) == v.steps.skip(start + r),
        exists|orders: Seq<Seq<usize>>| {
            let d = (#[trigger] dfs4sa_after(input, destroyed(input, v, start, start + r), (r * 2) as i32, orders)).best;
            let dv = destroyed(input, v, start, start + r);
            &&& dfs4sa_result(input, dv, d, ((r * 2) as i32) as int)
            &&& c == reattached(d, v, start + r)
            &&& crate::laws::valid_walk(input, v) && d != dv ==> {
                &&& crate::laws::valid_walk(input, c)
                &&& c.steps[0] == v.steps[0]
                &&& c.steps.last() == v.steps.last()
            }
            &&& crate::laws::valid_walk(input, v) && r * 2 <= i32::MAX
                && dfs4sa_after(input, dv, (r * 2) as i32, orders).stack.len() == 0 ==> {
                &&& crate::laws::valid_walk(input, c)
                &&& c.steps[0] == v.steps[0]
                &&& c.steps.last() == v.steps.last()
            }
        },
{
    let end = start + r;
    let dv = destroyed(input, v, start, end);
    let limit = ((r * 2) as i32) as int;
    if d != dv {
        lemma_extends_to_extends(dv, d, input, limit);
    }
    if v.game_score == path_score(input, v.steps) {
        crate::laws::law_splice_keeps_score(input, v, start, end, d);
    }
    crate::laws::law_splice_keeps_the_rest(input, v, start, end, d);
    if crate::laws::valid_walk(input, v) && d != dv {
        crate::laws::law_splice_is_valid_walk(input, v, start, end, d);
    }
    let orders = choose|orders: Seq<Seq<usize>>| d == (#[trigger] dfs4sa_after(input, dv, (r * 2) as i32, orders)).best;
    if crate::laws::valid_walk(input, v) && r * 2 <= i32::MAX && dfs4sa_after(input, dv, (r * 2) as i32, orders).stack.len() == 0 {
        crate::laws::law_unstopped_rebuild_is_valid_walk(input, v, start, end, (r * 2) as i32, orders);
    }
}

/// The candidate of one simulated-annealing move for the stretch
/// `[start, start + reset_length)`: it is destroyed and rebuilt by `dfs4sa`
/// (at most `2 * reset_length` moves), and the rest of the walk is put
/// back behind it. From a valid walk, the candidate is a valid walk with
/// the same ends whenever the rebuild found a reconnection, and so whenever
/// the clock did not stop it.
#[verifier::spinoff_prover]
#[verifier::rlimit(60)]
pub fn anneal_candidate_at(
    input: &Input,
    state: &TileState,
    start: usize,
    reset_length: usize,
    timekeeper: &TimeKeeper,
) -> (c: TileState)
    requires
        state@.wf_path(input),
        1 <= start,
        start + reset_length + 1 < state@.steps.len(),
        reset_length * 2 <= usize::MAX,
    ensures
        c@.wf_path(input),
        state@.game_score == path_score(input, state@.steps) ==> c@.game_score == path_score(input, c@.steps),
        c@.steps.take(start as int) == state@.steps.take(start as int),
        c@.steps.skip(c@.steps.len() - (state@.steps.len() - (start + reset_length))) == state@.steps.skip(start + reset_length),
        exists|orders: Seq<Seq<usize>>| {
            let d = (#[trigger] dfs4sa_after(input, destroyed(input, state@, start as int, start + reset_length), (reset_length * 2) as i32, orders)).best;
            let dv = destroyed(input, state@, start as int, start + reset_length);
            &&& dfs4sa_result(input, dv, d, ((reset_length * 2) as i32) as int)
            &&& c@ == reattached(d, state@, start + reset_length)
            &&& crate::laws::valid_walk(input, state@) && d != dv ==> {
                &&& crate::laws::valid_walk(input, c@)
                &&& c@.steps[0] == state@.steps[0]
                &&& c@.steps.last() == state@.steps.last()
            }
            &&& crate::laws::valid_walk(input, state@) && reset_length * 2 <= i32::MAX
                && dfs4sa_after(input, dv, (reset_length * 2) as i32, orders).stack.len() == 0 ==> {
                &&& crate::laws::valid_walk(input, c@)
                &&& c@.steps[0] == state@.steps[0]
                &&& c@.steps.last() == state@.steps.last()
            }
        },
{
    let len = state.steps.len();
    assert(start + reset_length < len);
    let end = start + reset_length;
    let mut change_state = destroy(input, state, start, end);
    let ghost dv = change_state@;
    dfs4sa(input, &mut change_state, (reset_length * 2) as i32, timekeeper);
    let ghost d = change_state@;
    reattach(&mut change_state, state, end, Ghost(input));
    proof {
        lemma_anneal_candidate(input, state@, start as int, reset_length, d, change_state@);
    }
    change_state
}

/// The two characters drawn on a cell of the walk in the board picture, by
/// the move into the cell and the move out of it; `None` for a move that
/// turns straight back (or a character that is not a move letter).
pub open spec fn turn_glyph(prev: char, cur: char) -> Option<(char, char)> {
    if prev == 'L' && cur == 'L' {
        Some(('━', '━'))
    } else if prev == 'L' && cur == 'U' {
        Some(('┗', '━'))
    } else if prev == 'L' && cur == 'D' {
        Some(('┏', '━'))
    } else if prev == 'R' && cur == 'R' {
        Some(('━', '━'))
    } else if prev == 'R' && cur == 'U' {
        Some(('┛', ' '))
    } else if prev == 'R' && cur == 'D' {
        Some(('┓', ' '))
    } else if prev == 'U' && cur == 'L' {
        Some(('┓', ' '))
    } else if prev == 'U' && cur == 'R' {
        Some(('┏', '━'))
    } else if prev == 'U' && cur == 'U' {
        Some(('┃', ' '))
    } else if prev == 'D' && cur == 'L' {
        Some(('┛', ' '))
    } else if prev == 'D' && cur == 'R' {
        Some(('┗', '━'))
    } else if prev == 'D' && cur == 'D' {
        Some(('┃', ' '))
    } else {
        None
    }
}

fn exec_turn_glyph(prev: char, cur: char) -> (r: (char, char))
    requires
        turn_glyph(prev, cur) is Some,
    ensures
        turn_glyph(prev, cur) == Some(r),
{
    if prev == 'L' && cur == 'L' {
        ('━', '━')
    } else if prev == 'L' && cur == 'U' {
        ('┗', '━')
    } else if prev == 'L' && cur == 'D' {
        ('┏', '━')
    } else if prev == 'R' && cur == 'R' {
        ('━', '━')
    } else if prev == 'R' && cur == 'U' {
        ('┛', ' ')
    } else if prev == 'R' && cur == 'D' {
        ('┓', ' ')
    } else if prev == 'U' && cur == 'L' {
        ('┓', ' ')
    } else if prev == 'U' && cur == 'R' {
        ('┏', '━')
    } else if prev == 'U' && cur == 'U' {
        ('┃', ' ')
    } else if prev == 'D' && cur == 'L' {
        ('┛', ' ')
    } else if prev == 'D' && cur == 'R' {
        ('┗', '━')
    } else {
        ('┃', ' ')
    }
}

/// The board picture before the walk is drawn: blank cells, `@@` on the
/// start cell.
pub open spec fn blank_board(input: &Input) -> Seq<Seq<(char, char)>> {
    let blank = Seq::new(TILE_SIZE as nat, |j: int| (' ', ' '));
    Seq::new(TILE_SIZE as nat, |i: int| blank).update(
        input.s.0 as int,
        blank.update(input.s.1 as int, ('@', '@')),
    )
}

/// The board picture after the turns at the letters `1..k` of the output
/// are drawn: the turn at letter `m` on cell `m` of the walk, the cell that
/// the letter before it enters.
pub open spec fn board_upto(v: TileStateView, input: &Input, k: nat) -> Seq<Seq<(char, char)>>
    decreases k,
{
    if k <= 1 {
        blank_board(input)
    } else {
        let b = board_upto(v, input, (k - 1) as nat);
        let (h, w) = v.steps[k - 1];
        b.update(h as int, b[h as int].update(w as int, turn_glyph(v.output[k - 2], v.output[k - 1])->0))
    }
}

/// No move of the walk turns straight back.
pub open spec fn no_reversal(v: TileStateView) -> bool {
    forall|i: int| 1 <= i < v.output.len() ==> #[trigger] turn_glyph(v.output[i - 1], v.output[i]) is Some
}

/// Whether the board picture has a line piece for the move `prev` followed
/// by the move `cur`.
fn turn_is_drawable(prev: char, cur: char) -> (r: bool)
    ensures
        r == turn_glyph(prev, cur) is Some,
{
    (prev == 'L' && (cur == 'L' || cur == 'U' || cur == 'D'))
        || (prev == 'R' && (cur == 'R' || cur == 'U' || cur == 'D'))
        || (prev == 'U' && (cur == 'L' || cur == 'R' || cur == 'U'))
        || (prev == 'D' && (cur == 'L' || cur == 'R' || cur == 'D'))
}

/// The length of the stretch that one step-2 move destroys and rebuilds: a
/// random number in `[10, 15)`.
pub fn draw_reset_length(rng: &mut rand_chacha::ChaCha20Rng) -> (r: usize)
    ensures
        10 <= r < 15,
{
    random::gen_range_usize(rng, 10, 15)
}

/// Whether the cell right of `(h, w)` lies on the same tile.
#[allow(non_snake_case)]
pub fn isConnectHorizontal(input: &Input, h: usize, w: usize) -> (r: bool)
    requires
        input.grid_ok(),
        h < TILE_SIZE,
        w < TILE_SIZE,
    ensures
        r == (w + 1 < TILE_SIZE && input.tile(h as int, w as int) == input.tile(h as int, w + 1)),
{
    w + 1 < TILE_SIZE && input.tiles[h][w] == input.tiles[h][w + 1]
}

/// Whether the cell below `(h, w)` lies on the same tile.
#[allow(non_snake_case)]
pub fn isConnectVertical(input: &Input, h: usize, w: usize) -> (r: bool)
    requires
        input.grid_ok(),
        h < TILE_SIZE,
        w < TILE_SIZE,
    ensures
        r == (h + 1 < TILE_SIZE && input.tile(h as int, w as int) == input.tile(h + 1, w as int)),
{
    h + 1 < TILE_SIZE && input.tiles[h][w] == input.tiles[h + 1][w]
}

impl TileState {
    /// Whether tile `t` has been stepped on.
    pub fn seen_tile(&self, t: usize) -> (r: bool)
        requires
            t < self@.seen.len(),
        ensures
            r == self@.seen[t as int],
    {
        self.seen[t]
    }

    /// Whether no move of the walk turns straight back, so that the board
    /// picture can draw every turn.
    pub fn has_no_reversal(&self) -> (r: bool)
        ensures
            r == no_reversal(self@),
    {
        let ghost v = self@;
        let n = self.output.as_str().unicode_len();
        let mut i: usize = 1;
        while i < n
            invariant
                v == self@,
                n == v.output.len(),
                1 <= i,
                i <= n || i == 1,
                forall|k: int| 1 <= k < i && k < n ==> #[trigger] turn_glyph(v.output[k - 1], v.output[k]) is Some,
            decreases n - i,
        {
            let prev = self.output.as_str().get_char(i - 1);
            let cur = self.output.as_str().get_char(i);
            if !turn_is_drawable(prev, cur) {
                return false;
            }
            i = i + 1;
        }
        true
    }

    /// The board picture that `toString` prints: per cell two characters,
    /// `@@` on the start cell, and on each cell of the walk after it but the
    /// last the line piece joining the moves into and out of the cell.
    pub fn path_glyphs(&self, input: &Input) -> (r: Vec<Vec<(char, char)>>)
        requires
            input.wf(),
            self@.wf_path(input),
            no_reversal(self@),
        ensures
            r@.len() == TILE_SIZE,
            forall|i: int| 0 <= i < TILE_SIZE ==> (#[trigger] r@[i])@ == board_upto(self@, input, self@.output.len())[i],
    {
        let ghost v = self@;
        let mut path: Vec<Vec<(char, char)>> = Vec::new();
        for i in 0..TILE_SIZE
            invariant
                path@.len() == i,
                forall|x: int| 0 <= x < i ==> (#[trigger] path@[x])@ == Seq::new(TILE_SIZE as nat, |j: int| (' ', ' ')),
        {
            let mut row: Vec<(char, char)> = Vec::new();
            for j in 0..TILE_SIZE
                invariant
                    row@ == Seq::new(j as nat, |y: int| (' ', ' ')),
            {
                row.push((' ', ' '));
                assert(row@ =~= Seq::new((j + 1) as nat, |y: int| (' ', ' ')));
            }
            path.push(row);
        }
        let (si, sj) = input.s;
        let mut srow: Vec<(char, char)> = Vec::new();
        std::mem::swap(&mut srow, &mut path[si]);
        srow.set(sj, ('@', '@'));
        std::mem::swap(&mut srow, &mut path[si]);
        proof {
            let b = blank_board(input);
            assert forall|x: int| 0 <= x < TILE_SIZE implies (#[trigger] path@[x])@ == b[x] by {
                if x == si {
                    assert(path@[x]@ =~= b[x]);
                } else {
                    assert(path@[x]@ =~= b[x]);
                }
            }
            assert(board_upto(v, input, 1) == b);
        }
        let n = self.output.as_str().unicode_len();
        let mut i: usize = 1;
        while i < n
            invariant
                v == self@,
                v.wf_path(input),
                no_reversal(v),
                n == v.output.len(),
                1 <= i,
                i <= n || i == 1,
                path@.len() == TILE_SIZE,
                forall|x: int| 0 <= x < TILE_SIZE ==> (#[trigger] path@[x])@ == board_upto(v, input, i as nat)[x],
                forall|x: int| 0 <= x < TILE_SIZE ==> (#[trigger] board_upto(v, input, i as nat)[x]).len() == TILE_SIZE,
                board_upto(v, input, i as nat).len() == TILE_SIZE,
            decreases n - i,
        {
            let (h, w) = self.steps[i];
            let prev = self.output.as_str().get_char(i - 1);
            let cur = self.output.as_str().get_char(i);
            proof {
                assert(on_grid(v.steps[i as int]));
                assert(turn_glyph(v.output[i - 1], v.output[i as int]) is Some);
            }
            let g = exec_turn_glyph(prev, cur);
            let mut row: Vec<(char, char)> = Vec::new();
            std::mem::swap(&mut row, &mut path[h]);
            row.set(w, g);
            std::mem::swap(&mut row, &mut path[h]);
            proof {
                let b = board_upto(v, input, i as nat);
                let b2 = board_upto(v, input, (i + 1) as nat);
                assert(b2 == b.update(h as int, b[h as int].update(w as int, g)));
                assert forall|x: int| 0 <= x < TILE_SIZE implies (#[trigger] path@[x])@ == b2[x] by {
                    if x == h {
                        assert(path@[x]@ =~= b2[x]);
                    }
                }
                assert forall|x: int| 0 <= x < TILE_SIZE implies (#[trigger] b2[x]).len() == TILE_SIZE by {}
            }
            i = i + 1;
        }
        proof {
            if n < 1 {
                assert(board_upto(v, input, n as nat) == board_upto(v, input, 1));
            }
        }
        path
    }
}

} // verus!
